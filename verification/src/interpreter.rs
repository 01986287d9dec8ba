//! Direct execution of a program against a live tape, one instruction at a
//! time, with an explicit stack of return addresses for loop re-entry.
//!
//! `run` is proved to follow the small-step model in `machine` exactly: the
//! state it leaves behind is the one `run_n` reaches from the state it
//! started in.
use vstd::prelude::*;

use crate::machine::{
    initial_machine, matching_close, next_input_byte, run_n, step, zero_tape, Machine, RunError,
    Step, MEMORY_SIZE, NEWLINE, OP_CLOSE, OP_DEC, OP_IN, OP_INC, OP_LEFT, OP_OPEN, OP_OUT,
    OP_RIGHT,
};
use crate::machine::lemma_matching_close_bounds;
use crate::machine::lemma_run_n_snoc;
use vstd::string::StringSliceAdditionalSpecFns;

verus! {

/// An in-memory byte stream that the read instruction consumes from the
/// front.
pub struct InputStream {
    data: Vec<u8>,
    pos: usize,
}

impl InputStream {
    pub closed spec fn wf(&self) -> bool {
        self.pos <= self.data@.len()
    }

    /// The bytes not yet consumed.
    pub closed spec fn remaining(&self) -> Seq<u8> {
        self.data@.skip(self.pos as int)
    }

    pub fn new(data: Vec<u8>) -> (r: Self)
        ensures
            r.wf(),
            r.remaining() == data@,
    {
        let ghost d = data@;
        let r = InputStream { data, pos: 0 };
        proof {
            assert(r.remaining() =~= d);
        }
        r
    }

    fn read_byte(&mut self) -> (r: Option<u8>)
        requires
            old(self).wf(),
        ensures
            final(self).wf(),
            old(self).remaining().len() == 0 ==> r == None::<u8> && final(self).remaining()
                == old(self).remaining(),
            old(self).remaining().len() > 0 ==> r == Some(old(self).remaining()[0])
                && final(self).remaining() == old(self).remaining().skip(1),
    {
        if self.pos < self.data.len() {
            let b = self.data[self.pos];
            self.pos = self.pos + 1;
            proof {
                assert(self.remaining() =~= old(self).remaining().skip(1));
            }
            Some(b)
        } else {
            None
        }
    }
}

/// Whether the interpreter stopped because the program ended or because the
/// step budget handed to `run` ran out first.
#[derive(Clone, Copy, Debug, PartialEq, Eq, Structural)]
pub enum RunOutcome {
    /// The instruction pointer reached the end of the program.
    Finished,
    /// The budget was exhausted while the program was still running.
    OutOfSteps,
}

/// The interpreter: a loaded program, a tape of `MEMORY_SIZE` cells, the
/// data and instruction pointers, and the jump stack.
pub struct Interpreter {
    source: Vec<u8>,
    dp: usize,
    ip: usize,
    memory: Vec<u8>,
    stack: Vec<usize>,
}

impl Interpreter {
    /// The loaded program bytes.
    pub closed spec fn program(&self) -> Seq<u8> {
        self.source@
    }

    /// The instruction pointer.
    pub closed spec fn ip(&self) -> int {
        self.ip as int
    }

    /// The data pointer (cursor).
    pub closed spec fn dp(&self) -> int {
        self.dp as int
    }

    /// The tape contents.
    pub closed spec fn mem(&self) -> Seq<u8> {
        self.memory@
    }

    /// The jump stack, bottom first.
    pub closed spec fn stack(&self) -> Seq<int> {
        self.stack@.map_values(|x: usize| x as int)
    }

    pub closed spec fn wf(&self) -> bool {
        &&& self.memory@.len() == MEMORY_SIZE
        &&& self.dp < MEMORY_SIZE
        &&& self.ip <= self.source@.len()
        &&& forall|i: int|
            0 <= i < self.stack@.len() ==> #[trigger] self.stack@[i] <= self.source@.len()
    }

    /// The machine configuration this interpreter is in, paired with the
    /// unread input and the output written so far.
    pub open spec fn machine(&self, input: Seq<u8>, output: Seq<u8>) -> Machine {
        Machine {
            program: self.program(),
            ip: self.ip(),
            dp: self.dp(),
            mem: self.mem(),
            stack: self.stack(),
            input,
            output,
        }
    }

    pub fn new(source: &str) -> (r: Self)
        ensures
            r.wf(),
            forall|input: Seq<u8>| r.machine(input, Seq::empty())
                == initial_machine(source.spec_bytes(), input),
    {
        let bytes = source.as_bytes();
        let mut memory: Vec<u8> = Vec::new();
        while memory.len() < MEMORY_SIZE
            invariant
                memory@.len() <= MEMORY_SIZE,
                forall|i: int| 0 <= i < memory@.len() ==> memory@[i] == 0u8,
            decreases MEMORY_SIZE - memory@.len(),
        {
            memory.push(0u8);
        }
        let r = Interpreter {
            source: vstd::slice::slice_to_vec(bytes),
            dp: 0,
            ip: 0,
            memory,
            stack: Vec::with_capacity(16),
        };
        proof {
            assert(r.mem() =~= zero_tape());
            assert(r.stack() =~= Seq::<int>::empty());
        }
        r
    }

    /// The byte at the instruction pointer, which is advanced past it;
    /// `None` at the end of the program.
    pub fn next_instruction(&mut self) -> (r: Option<u8>)
        requires
            old(self).wf(),
        ensures
            final(self).wf(),
            final(self).program() == old(self).program(),
            final(self).dp() == old(self).dp(),
            final(self).mem() == old(self).mem(),
            final(self).stack() == old(self).stack(),
            old(self).ip() < old(self).program().len() ==> r == Some(
                old(self).program()[old(self).ip()],
            ) && final(self).ip() == old(self).ip() + 1,
            old(self).ip() >= old(self).program().len() ==> r == None::<u8> && final(self).ip()
                == old(self).ip(),
    {
        if self.ip < self.source.len() {
            let c = self.source[self.ip];
            self.ip = self.ip + 1;
            Some(c)
        } else {
            None
        }
    }

    /// Forward scan for the close bracket matching the open bracket the
    /// instruction pointer just passed, counting nesting depth live.
    fn skip_unentered_loop(&mut self) -> (r: Result<(), RunError>)
        requires
            old(self).wf(),
            old(self).ip() >= 1,
        ensures
            final(self).wf(),
            final(self).program() == old(self).program(),
            final(self).dp() == old(self).dp(),
            final(self).mem() == old(self).mem(),
            final(self).stack() == old(self).stack(),
            match matching_close(old(self).program(), old(self).ip(), 1) {
                Some(j) => r == Ok::<(), RunError>(()) && final(self).ip() == j,
                None => r == Err::<(), RunError>(RunError::UnmatchedLoopOpen) && final(self).ip()
                    == old(self).program().len(),
            },
    {
        let ghost p = self.source@;
        let ghost ip0 = self.ip as int;
        let mut depth: usize = 1;
        while depth > 0
            invariant
                old(self).wf(),
                p == old(self).program(),
                ip0 == old(self).ip(),
                self.wf(),
                self.program() == p,
                self.dp() == old(self).dp(),
                self.mem() == old(self).mem(),
                self.stack() == old(self).stack(),
                1 <= ip0 <= self.ip(),
                depth as int <= 1 + self.ip() - ip0,
                matching_close(p, self.ip(), depth as int) == matching_close(p, ip0, 1),
            decreases p.len() - self.ip(),
        {
            match self.next_instruction() {
                Some(c) => {
                    if c == OP_OPEN {
                        depth = depth + 1;
                    } else if c == OP_CLOSE {
                        depth = depth - 1;
                    }
                },
                None => {
                    return Err(RunError::UnmatchedLoopOpen);
                },
            }
        }
        Ok(())
    }

    /// Reads input bytes until one that is not a newline arrives and stores
    /// it in the current cell; fails when the stream runs out first.
    fn read_into_cell(&mut self, input: &mut InputStream) -> (r: Result<(), RunError>)
        requires
            old(self).wf(),
            old(input).wf(),
        ensures
            final(self).wf(),
            final(input).wf(),
            final(self).program() == old(self).program(),
            final(self).ip() == old(self).ip(),
            final(self).dp() == old(self).dp(),
            final(self).stack() == old(self).stack(),
            match next_input_byte(old(input).remaining()) {
                Some(br) => r == Ok::<(), RunError>(()) && final(self).mem()
                    == old(self).mem().update(old(self).dp(), br.0) && final(input).remaining()
                    == br.1,
                None => r == Err::<(), RunError>(RunError::InputStreamError) && final(self).mem()
                    == old(self).mem() && final(input).remaining().len() == 0,
            },
    {
        loop
            invariant
                old(self).wf(),
                old(input).wf(),
                self.wf(),
                input.wf(),
                self == old(self),
                next_input_byte(input.remaining()) == next_input_byte(old(input).remaining()),
            decreases input.remaining().len(),
        {
            match input.read_byte() {
                None => {
                    return Err(RunError::InputStreamError);
                },
                Some(b) => {
                    if b != NEWLINE {
                        self.memory[self.dp] = b;
                        return Ok(());
                    }
                },
            }
        }
    }

    /// Executes the program from the instruction pointer onward, for at
    /// most `max_steps` instructions. The state left behind is exactly the
    /// one the small-step model reaches: on `Ok(Finished)` the model halts
    /// within the budget, on `Ok(OutOfSteps)` it is still running after
    /// `max_steps` steps, and on `Err` it fails with that error within the
    /// budget.
    pub fn run(&mut self, input: &mut InputStream, output: &mut Vec<u8>, max_steps: usize) -> (r:
        Result<RunOutcome, RunError>)
        requires
            old(self).wf(),
            old(input).wf(),
        ensures
            final(self).wf(),
            final(input).wf(),
            final(self).program() == old(self).program(),
            ({
                let m0 = old(self).machine(old(input).remaining(), old(output)@);
                let mf = final(self).machine(final(input).remaining(), final(output)@);
                match r {
                    Ok(RunOutcome::Finished) => exists|n: nat|
                        n <= max_steps && #[trigger] run_n(m0, n) == Step::Halted(mf),
                    Ok(RunOutcome::OutOfSteps) => run_n(m0, max_steps as nat)
                        == Step::Running(mf),
                    Err(e) => exists|n: nat|
                        n <= max_steps && #[trigger] run_n(m0, n) == Step::Failed(e, mf),
                }
            }),
    {
        let ghost m0 = old(self).machine(old(input).remaining(), old(output)@);
        let ghost mut steps: nat = 0;
        let mut used: usize = 0;
        while used < max_steps
            invariant
                old(self).wf(),
                old(input).wf(),
                m0 == old(self).machine(old(input).remaining(), old(output)@),
                self.wf(),
                input.wf(),
                self.program() == m0.program,
                used as nat == steps,
                steps <= max_steps,
                run_n(m0, steps) == Step::Running(self.machine(input.remaining(), output@)),
            decreases max_steps - used,
        {
            let ghost cur = self.machine(input.remaining(), output@);
            proof {
                lemma_run_n_snoc(m0, steps);
            }
            let c = match self.next_instruction() {
                Some(c) => c,
                None => {
                    proof {
                        assert(run_n(m0, steps + 1) == Step::Halted(cur));
                    }
                    return Ok(RunOutcome::Finished);
                },
            };
            if c == OP_RIGHT {
                self.dp = (self.dp + 1) % MEMORY_SIZE;
            } else if c == OP_LEFT {
                self.dp = (self.dp + MEMORY_SIZE - 1) % MEMORY_SIZE;
            } else if c == OP_INC {
                let v = self.memory[self.dp];
                self.memory[self.dp] = ((v as usize + 1) % 256) as u8;
            } else if c == OP_DEC {
                let v = self.memory[self.dp];
                self.memory[self.dp] = ((v as usize + 255) % 256) as u8;
            } else if c == OP_OUT {
                output.push(self.memory[self.dp]);
            } else if c == OP_IN {
                match self.read_into_cell(input) {
                    Ok(()) => {},
                    Err(e) => {
                        proof {
                            assert(input.remaining() =~= Seq::<u8>::empty());
                            assert(run_n(m0, steps + 1) == Step::Failed(
                                e,
                                self.machine(input.remaining(), output@),
                            ));
                        }
                        return Err(e);
                    },
                }
            } else if c == OP_OPEN {
                if self.memory[self.dp] == 0 {
                    proof {
                        lemma_matching_close_bounds(self.program(), self.ip(), 1);
                    }
                    match self.skip_unentered_loop() {
                        Ok(()) => {},
                        Err(e) => {
                            proof {
                                assert(run_n(m0, steps + 1) == Step::Failed(
                                    e,
                                    self.machine(input.remaining(), output@),
                                ));
                            }
                            return Err(e);
                        },
                    }
                } else {
                    self.stack.push(self.ip);
                    proof {
                        assert(self.stack() =~= cur.stack.push(cur.ip + 1));
                    }
                }
            } else if c == OP_CLOSE {
                if self.stack.len() == 0 {
                    proof {
                        assert(run_n(m0, steps + 1) == Step::Failed(
                            RunError::UnmatchedLoopClose,
                            self.machine(input.remaining(), output@),
                        ));
                    }
                    return Err(RunError::UnmatchedLoopClose);
                }
                let j = self.stack[self.stack.len() - 1];
                if self.memory[self.dp] != 0 {
                    self.ip = j;
                } else {
                    self.stack.pop();
                    proof {
                        assert(self.stack() =~= cur.stack.drop_last());
                    }
                }
            }
            used = used + 1;
            proof {
                steps = steps + 1;
                assert(step(cur) == Step::Running(self.machine(input.remaining(), output@)));
            }
        }
        Ok(RunOutcome::OutOfSteps)
    }
}

} // verus!
