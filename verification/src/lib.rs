//! A verified interpreter and C transpiler for a minimal eight-instruction
//! tape-machine language. The interpreter executes a program against a
//! 3000-cell wrapping byte tape; the transpiler emits an equivalent C
//! program, folding runs of repeated unary operators into one statement.
pub mod equivalence;
pub mod interpreter;
pub mod laws;
pub mod machine;
pub mod transpiler;

pub use interpreter::InputStream;
pub use interpreter::Interpreter;
pub use interpreter::RunOutcome;
pub use machine::MEMORY_SIZE;
pub use machine::RunError;
pub use transpiler::Transpiler;
