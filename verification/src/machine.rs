//! The shared semantic model of the tape machine: a small-step transition
//! relation over a `Machine` configuration. Both the interpreter and the
//! laws about it are stated against `step` / `run_n`.
use vstd::prelude::*;

verus! {

/// Number of cells on the interpreter's tape.
pub const MEMORY_SIZE: usize = 3000;

/// The instruction `>`: move the cursor one cell right.
pub const OP_RIGHT: u8 = 62;

/// The instruction `<`: move the cursor one cell left.
pub const OP_LEFT: u8 = 60;

/// The instruction `+`: increment the current cell.
pub const OP_INC: u8 = 43;

/// The instruction `-`: decrement the current cell.
pub const OP_DEC: u8 = 45;

/// The instruction `.`: write the current cell to the output.
pub const OP_OUT: u8 = 46;

/// The instruction `,`: read one byte into the current cell.
pub const OP_IN: u8 = 44;

/// The instruction `[`: enter or skip a loop.
pub const OP_OPEN: u8 = 91;

/// The instruction `]`: close a loop.
pub const OP_CLOSE: u8 = 93;

/// The newline byte, discarded by the read instruction.
pub const NEWLINE: u8 = 10;

/// An error that ends a run.
#[derive(Clone, Copy, Debug, PartialEq, Eq, Structural)]
pub enum RunError {
    /// A `[` whose matching `]` lies beyond the end of the program was
    /// reached with the current cell zero.
    UnmatchedLoopOpen,
    /// A `]` was reached while no loop was open.
    UnmatchedLoopClose,
    /// The input stream ran out while `,` was waiting for a byte.
    InputStreamError,
}

/// A complete configuration of the tape machine, including the unread
/// input and the output written so far.
pub struct Machine {
    pub program: Seq<u8>,
    pub ip: int,
    pub dp: int,
    pub mem: Seq<u8>,
    pub stack: Seq<int>,
    pub input: Seq<u8>,
    pub output: Seq<u8>,
}

impl Machine {
    pub open spec fn wf(self) -> bool {
        &&& 0 <= self.ip <= self.program.len()
        &&& 0 <= self.dp < MEMORY_SIZE
        &&& self.mem.len() == MEMORY_SIZE
        &&& forall|i: int| 0 <= i < self.stack.len() ==> 0 <= #[trigger] self.stack[i] <= self.program.len()
    }
}

/// The machine after one step: still running, halted at the end of the
/// program, or stopped by an error.
pub enum Step {
    Running(Machine),
    Halted(Machine),
    Failed(RunError, Machine),
}

/// The tape at the start of a run: every cell zero.
pub open spec fn zero_tape() -> Seq<u8> {
    Seq::new(MEMORY_SIZE as nat, |i: int| 0u8)
}

/// The configuration in which a freshly loaded program starts.
pub open spec fn initial_machine(program: Seq<u8>, input: Seq<u8>) -> Machine {
    Machine {
        program,
        ip: 0,
        dp: 0,
        mem: zero_tape(),
        stack: Seq::empty(),
        input,
        output: Seq::empty(),
    }
}

/// One cell incremented, wrapping modulo 256.
pub open spec fn wrap_inc(b: u8) -> u8 {
    ((b as int + 1) % 256) as u8
}

/// One cell decremented, wrapping modulo 256.
pub open spec fn wrap_dec(b: u8) -> u8 {
    ((b as int + 255) % 256) as u8
}

/// The cursor moved one cell right, wrapping at the end of the tape.
pub open spec fn cursor_right(dp: int) -> int {
    (dp + 1) % (MEMORY_SIZE as int)
}

/// The cursor moved one cell left, wrapping at the start of the tape.
pub open spec fn cursor_left(dp: int) -> int {
    (dp + MEMORY_SIZE - 1) % (MEMORY_SIZE as int)
}

/// What a read instruction obtains from the input stream: the first byte
/// that is not a newline, together with the input left after it; `None`
/// when the stream runs out first.
pub open spec fn next_input_byte(input: Seq<u8>) -> Option<(u8, Seq<u8>)>
    decreases input.len(),
{
    if input.len() == 0 {
        None
    } else if input[0] == NEWLINE {
        next_input_byte(input.skip(1))
    } else {
        Some((input[0], input.skip(1)))
    }
}

/// The position just past the `]` that closes `depth` open loops, scanning
/// forward from `ip`; `None` when the program ends first.
pub open spec fn matching_close(program: Seq<u8>, ip: int, depth: int) -> Option<int>
    decreases program.len() - ip,
{
    if depth <= 0 {
        Some(ip)
    } else if ip < 0 || ip >= program.len() {
        None
    } else if program[ip] == OP_OPEN {
        matching_close(program, ip + 1, depth + 1)
    } else if program[ip] == OP_CLOSE {
        matching_close(program, ip + 1, depth - 1)
    } else {
        matching_close(program, ip + 1, depth)
    }
}

/// The transition relation of the tape machine: the effect of the single
/// instruction at `m.ip`, a byte outside the instruction set included
/// (it only advances the instruction pointer).
pub open spec fn step(m: Machine) -> Step {
    if !(0 <= m.ip < m.program.len()) {
        Step::Halted(m)
    } else {
        let c = m.program[m.ip];
        let m1 = Machine { ip: m.ip + 1, ..m };
        if c == OP_RIGHT {
            Step::Running(Machine { dp: cursor_right(m.dp), ..m1 })
        } else if c == OP_LEFT {
            Step::Running(Machine { dp: cursor_left(m.dp), ..m1 })
        } else if c == OP_INC {
            Step::Running(Machine { mem: m.mem.update(m.dp, wrap_inc(m.mem[m.dp])), ..m1 })
        } else if c == OP_DEC {
            Step::Running(Machine { mem: m.mem.update(m.dp, wrap_dec(m.mem[m.dp])), ..m1 })
        } else if c == OP_OUT {
            Step::Running(Machine { output: m.output.push(m.mem[m.dp]), ..m1 })
        } else if c == OP_IN {
            match next_input_byte(m.input) {
                Some(br) => Step::Running(
                    Machine { mem: m.mem.update(m.dp, br.0), input: br.1, ..m1 },
                ),
                None => Step::Failed(
                    RunError::InputStreamError,
                    (Machine { input: Seq::empty(), ..m1 }),
                ),
            }
        } else if c == OP_OPEN {
            if m.mem[m.dp] == 0 {
                match matching_close(m.program, m.ip + 1, 1) {
                    Some(j) => Step::Running(Machine { ip: j, ..m }),
                    None => Step::Failed(
                        RunError::UnmatchedLoopOpen,
                        (Machine { ip: m.program.len() as int, ..m }),
                    ),
                }
            } else {
                Step::Running(Machine { stack: m.stack.push(m.ip + 1), ..m1 })
            }
        } else if c == OP_CLOSE {
            if m.stack.len() == 0 {
                Step::Failed(RunError::UnmatchedLoopClose, m1)
            } else if m.mem[m.dp] != 0 {
                Step::Running(Machine { ip: m.stack.last(), ..m })
            } else {
                Step::Running(Machine { stack: m.stack.drop_last(), ..m1 })
            }
        } else {
            Step::Running(m1)
        }
    }
}

/// The machine after `n` steps; a halted or failed outcome is final, so
/// the result for any larger `n` is the same outcome.
pub open spec fn run_n(m: Machine, n: nat) -> Step
    decreases n,
{
    if n == 0 {
        Step::Running(m)
    } else {
        match step(m) {
            Step::Running(m2) => run_n(m2, (n - 1) as nat),
            s => s,
        }
    }
}

/// Unrolling `run_n` at the far end: one more step applied to the machine
/// reached after `n` steps.
pub proof fn lemma_run_n_snoc(m: Machine, n: nat)
    ensures
        run_n(m, n) is Running ==> run_n(m, n + 1) == step(run_n(m, n)->Running_0),
    decreases n,
{
    reveal_with_fuel(run_n, 2);
    if n > 0 {
        match step(m) {
            Step::Running(mm) => lemma_run_n_snoc(mm, (n - 1) as nat),
            _ => {}
        }
    }
}

/// A halted or failed outcome is stable: running longer changes nothing.
/// So the step count that `Interpreter::run` promises to exist picks out a
/// unique outcome — any two witnesses agree on it.
pub proof fn lemma_run_n_final(m: Machine, n1: nat, n2: nat)
    requires
        n1 <= n2,
        !(run_n(m, n1) is Running),
    ensures
        run_n(m, n2) == run_n(m, n1),
    decreases n1,
{
    if n1 == 0 {
    } else {
        match step(m) {
            Step::Running(m2) => lemma_run_n_final(m2, (n1 - 1) as nat, (n2 - 1) as nat),
            _ => {}
        }
    }
}

/// A scan that finds a matching close lands between its start and the end
/// of the program.
pub proof fn lemma_matching_close_bounds(program: Seq<u8>, ip: int, depth: int)
    requires
        0 <= ip <= program.len(),
        depth >= 0,
    ensures
        forall|j: int| matching_close(program, ip, depth) == Some(j) ==> ip <= j <= program.len(),
    decreases program.len() - ip,
{
    if depth <= 0 {
    } else if ip >= program.len() {
    } else {
        if program[ip] == OP_OPEN {
            lemma_matching_close_bounds(program, ip + 1, depth + 1);
        } else if program[ip] == OP_CLOSE {
            lemma_matching_close_bounds(program, ip + 1, depth - 1);
        } else {
            lemma_matching_close_bounds(program, ip + 1, depth);
        }
    }
}

} // verus!
