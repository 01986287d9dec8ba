//! General properties of the tape machine, proved against the small-step
//! model: what pure cursor movement and pure cell arithmetic compute, and
//! how an empty loop behaves on a zero and on a nonzero cell.
use vstd::prelude::*;

use crate::machine::{
    initial_machine, run_n, step, zero_tape, Machine, Step, MEMORY_SIZE, OP_CLOSE, OP_DEC,
    OP_INC, OP_LEFT, OP_OPEN, OP_RIGHT,
};
use vstd::arithmetic::div_mod::lemma_add_mod_noop_right;

verus! {

/// Every byte of `p` moves the cursor.
pub open spec fn moves_only(p: Seq<u8>) -> bool {
    forall|i: int| 0 <= i < p.len() ==> p[i] == OP_RIGHT || p[i] == OP_LEFT
}

/// Every byte of `p` changes the current cell.
pub open spec fn adds_only(p: Seq<u8>) -> bool {
    forall|i: int| 0 <= i < p.len() ==> p[i] == OP_INC || p[i] == OP_DEC
}

/// The net cursor displacement of the instructions from position `i` on:
/// moves right minus moves left.
pub open spec fn net_displacement_from(p: Seq<u8>, i: int) -> int
    decreases p.len() - i,
{
    if i < 0 || i >= p.len() {
        0
    } else {
        (if p[i] == OP_RIGHT {
            1int
        } else if p[i] == OP_LEFT {
            -1int
        } else {
            0int
        }) + net_displacement_from(p, i + 1)
    }
}

/// The net cursor displacement of the whole program.
pub open spec fn net_displacement(p: Seq<u8>) -> int {
    net_displacement_from(p, 0)
}

/// The net cell delta of the instructions from position `i` on:
/// increments minus decrements.
pub open spec fn net_delta_from(p: Seq<u8>, i: int) -> int
    decreases p.len() - i,
{
    if i < 0 || i >= p.len() {
        0
    } else {
        (if p[i] == OP_INC {
            1int
        } else if p[i] == OP_DEC {
            -1int
        } else {
            0int
        }) + net_delta_from(p, i + 1)
    }
}

/// The net cell delta of the whole program.
pub open spec fn net_delta(p: Seq<u8>) -> int {
    net_delta_from(p, 0)
}

proof fn lemma_moves_run(m: Machine)
    requires
        m.wf(),
        forall|i: int|
            m.ip <= i < m.program.len() ==> m.program[i] == OP_RIGHT || m.program[i] == OP_LEFT,
    ensures
        exists|n: nat|
            #[trigger] run_n(m, n) == Step::Halted(
                Machine {
                    ip: m.program.len() as int,
                    dp: ((m.dp + net_displacement_from(m.program, m.ip)) % (MEMORY_SIZE as int)
                        + MEMORY_SIZE) % (MEMORY_SIZE as int),
                    ..m
                },
            ),
    decreases m.program.len() - m.ip,
{
    let len = m.program.len() as int;
    let ml = MEMORY_SIZE as int;
    if m.ip >= len {
        let target = Machine { ip: len, dp: (m.dp % ml + ml) % ml, ..m };
        assert(m.dp % ml == m.dp);
        assert(target == m);
        assert(run_n(m, 1) == Step::Halted(m));
    } else {
        let c = m.program[m.ip];
        let d: int = if c == OP_RIGHT {
            1
        } else {
            -1
        };
        let m2 = Machine { ip: m.ip + 1, dp: (m.dp + d + ml) % ml, ..m };
        assert(step(m) == Step::Running(m2)) by {
            if c == OP_RIGHT {
                assert((m.dp + 1) % ml == (m.dp + 1 + ml) % ml) by {
                    lemma_add_mod_noop_right(m.dp + 1, ml, ml);
                    assert(ml % ml == 0);
                }
            }
        }
        lemma_moves_run(m2);
        let rest = net_displacement_from(m.program, m.ip + 1);
        let n2 = choose|n: nat|
            #[trigger] run_n(m2, n) == Step::Halted(
                Machine { ip: len, dp: ((m2.dp + rest) % ml + ml) % ml, ..m2 },
            );
        assert((m2.dp + rest) % ml == (m.dp + d + rest) % ml) by {
            lemma_add_mod_noop_right(rest, m.dp + d + ml, ml);
            lemma_add_mod_noop_right(rest, m.dp + d, ml);
        }
        assert(net_displacement_from(m.program, m.ip) == d + rest);
        assert(run_n(m, n2 + 1) == run_n(m2, n2));
    }
}

/// Pure cursor movement: a program of only `>` and `<` with net
/// displacement `d` halts with the cursor at `((d mod L) + L) mod L` for
/// tape length `L`, starting from cell zero, and changes nothing else.
pub proof fn lemma_cursor_net_displacement(program: Seq<u8>, input: Seq<u8>)
    requires
        moves_only(program),
    ensures
        exists|n: nat|
            #[trigger] run_n(initial_machine(program, input), n) == Step::Halted(
                Machine {
                    ip: program.len() as int,
                    dp: (net_displacement(program) % (MEMORY_SIZE as int) + MEMORY_SIZE) % (
                    MEMORY_SIZE as int),
                    ..initial_machine(program, input)
                },
            ),
{
    lemma_moves_run(initial_machine(program, input));
}

proof fn lemma_adds_run(m: Machine)
    requires
        m.wf(),
        forall|i: int|
            m.ip <= i < m.program.len() ==> m.program[i] == OP_INC || m.program[i] == OP_DEC,
    ensures
        exists|n: nat|
            #[trigger] run_n(m, n) == Step::Halted(
                Machine {
                    ip: m.program.len() as int,
                    mem: m.mem.update(
                        m.dp,
                        (((m.mem[m.dp] + net_delta_from(m.program, m.ip)) % 256 + 256)
                            % 256) as u8,
                    ),
                    ..m
                },
            ),
    decreases m.program.len() - m.ip,
{
    let len = m.program.len() as int;
    let v = m.mem[m.dp];
    if m.ip >= len {
        assert((v as int) % 256 == v as int);
        let target = Machine { ip: len, mem: m.mem.update(m.dp, v), ..m };
        assert(m.mem.update(m.dp, v) =~= m.mem);
        assert(target == m);
        assert(run_n(m, 1) == Step::Halted(m));
    } else {
        let c = m.program[m.ip];
        let d: int = if c == OP_INC {
            1
        } else {
            -1
        };
        let v2 = ((v + d + 256) % 256) as u8;
        let m2 = Machine { ip: m.ip + 1, mem: m.mem.update(m.dp, v2), ..m };
        assert(step(m) == Step::Running(m2)) by {
            if c == OP_INC {
                assert((v + 1) % 256 == (v + 1 + 256) % 256) by {
                    lemma_add_mod_noop_right(v + 1, 256, 256);
                }
            }
        }
        lemma_adds_run(m2);
        let rest = net_delta_from(m.program, m.ip + 1);
        let n2 = choose|n: nat|
            #[trigger] run_n(m2, n) == Step::Halted(
                Machine {
                    ip: len,
                    mem: m2.mem.update(m2.dp, (((m2.mem[m2.dp] + rest) % 256 + 256) % 256) as u8),
                    ..m2
                },
            );
        assert(m2.mem[m.dp] == v2);
        assert((v2 + rest) % 256 == (v + d + rest) % 256) by {
            lemma_add_mod_noop_right(rest, v + d + 256, 256);
            lemma_add_mod_noop_right(rest, v + d, 256);
        }
        assert(net_delta_from(m.program, m.ip) == d + rest);
        assert(m2.mem.update(m.dp, (((v + d + rest) % 256 + 256) % 256) as u8) =~= m.mem.update(
            m.dp,
            (((v + d + rest) % 256 + 256) % 256) as u8,
        ));
        assert(run_n(m, n2 + 1) == run_n(m2, n2));
    }
}

/// Pure cell arithmetic: a program of only `+` and `-` with net delta `k`
/// halts with the first cell at `((k mod 256) + 256) mod 256` and changes
/// nothing else.
pub proof fn lemma_cell_net_delta(program: Seq<u8>, input: Seq<u8>)
    requires
        adds_only(program),
    ensures
        exists|n: nat|
            #[trigger] run_n(initial_machine(program, input), n) == Step::Halted(
                Machine {
                    ip: program.len() as int,
                    mem: zero_tape().update(0, ((net_delta(program) % 256 + 256) % 256) as u8),
                    ..initial_machine(program, input)
                },
            ),
{
    let init = initial_machine(program, input);
    lemma_adds_run(init);
    assert(zero_tape()[0] == 0u8);
}

/// An open bracket immediately followed by a close bracket, reached with
/// the current cell zero, is a no-op: one step lands just past the pair
/// and nothing else changes.
pub proof fn lemma_empty_loop_zero_cell(m: Machine)
    requires
        m.wf(),
        0 <= m.ip,
        m.ip + 1 < m.program.len(),
        m.program[m.ip] == OP_OPEN,
        m.program[m.ip + 1] == OP_CLOSE,
        m.mem[m.dp] == 0,
    ensures
        step(m) == Step::Running(Machine { ip: m.ip + 2, ..m }),
{
    reveal_with_fuel(crate::machine::matching_close, 3);
}

proof fn lemma_fixed_point(m: Machine, n: nat)
    requires
        step(m) == Step::Running(m),
    ensures
        run_n(m, n) == Step::Running(m),
    decreases n,
{
    if n > 0 {
        lemma_fixed_point(m, (n - 1) as nat);
    }
}

/// An open bracket immediately followed by a close bracket, reached with
/// the current cell nonzero, never terminates: after any number of steps
/// the machine is still running.
pub proof fn lemma_empty_loop_nonzero_cell(m: Machine, n: nat)
    requires
        m.wf(),
        0 <= m.ip,
        m.ip + 1 < m.program.len(),
        m.program[m.ip] == OP_OPEN,
        m.program[m.ip + 1] == OP_CLOSE,
        m.mem[m.dp] != 0,
    ensures
        run_n(m, n) is Running,
{
    let m1 = Machine { ip: m.ip + 1, stack: m.stack.push(m.ip + 1), ..m };
    assert(step(m) == Step::Running(m1));
    assert(m1.stack.last() == m.ip + 1);
    assert(step(m1) == Step::Running(Machine { ip: m1.stack.last(), ..m1 }));
    assert(Machine { ip: m1.stack.last(), ..m1 } == m1);
    if n > 0 {
        lemma_fixed_point(m1, (n - 1) as nat);
    }
}

} // verus!
