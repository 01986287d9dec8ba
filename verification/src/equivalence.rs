//! The round-trip law between the two components: for a program of only
//! the four arithmetic/move instructions, interpreting it directly and
//! executing the transpiler's statements under the target language's
//! semantics leave identical tapes.
//!
//! The target semantics differ from the interpreter's in two ways that the
//! law must respect: the generated program's buffer has `TARGET_MEMORY_SIZE`
//! cells rather than `MEMORY_SIZE`, and its cursor is a pointer that does
//! not wrap. The law therefore holds on the programs whose cursor never
//! leaves the interpreter's tape; on any other program the two sides are
//! free to disagree (the pointer walks on while the interpreter wraps).
use vstd::prelude::*;

use crate::machine::{
    initial_machine, run_n, step, zero_tape, Machine, Step, MEMORY_SIZE, OP_DEC, OP_INC, OP_LEFT,
    OP_RIGHT,
};
use crate::transpiler::{rep_end, stmts, CStmt};
use crate::transpiler::lemma_rep_end_bounds;
use vstd::arithmetic::div_mod::lemma_add_mod_noop_right;

verus! {

/// Number of cells the generated program's preamble declares.
pub const TARGET_MEMORY_SIZE: usize = 30000;

/// The generated program's buffer at the start of a run: every cell zero.
pub open spec fn target_tape() -> Seq<u8> {
    Seq::new(TARGET_MEMORY_SIZE as nat, |i: int| 0u8)
}

/// Every byte of `p` is one of the four statements that move the cursor or
/// change a cell: the programs on which the round trip is stated.
pub open spec fn arith_moves_only(p: Seq<u8>) -> bool {
    forall|i: int|
        0 <= i < p.len() ==> p[i] == OP_RIGHT || p[i] == OP_LEFT || p[i] == OP_INC || p[i]
            == OP_DEC
}

/// The effect of one emitted statement under the target semantics: the
/// pointer moves without wrapping, cells wrap modulo 256. Loop and stream
/// statements do not occur in the programs this model is used on.
pub open spec fn target_step(s: CStmt, dp: int, mem: Seq<u8>) -> (int, Seq<u8>) {
    match s {
        CStmt::MoveRight(k) => (dp + k, mem),
        CStmt::MoveLeft(k) => (dp - k, mem),
        CStmt::Add(k) => (dp, mem.update(dp, ((mem[dp] + k) % 256) as u8)),
        CStmt::Sub(k) => (dp, mem.update(dp, ((mem[dp] - k) % 256) as u8)),
        _ => (dp, mem),
    }
}

/// The generated statements executed in order under the target semantics.
pub open spec fn target_exec(ss: Seq<CStmt>, dp: int, mem: Seq<u8>) -> (int, Seq<u8>)
    decreases ss.len(),
{
    if ss.len() == 0 {
        (dp, mem)
    } else {
        let t = target_step(ss[0], dp, mem);
        target_exec(ss.drop_first(), t.0, t.1)
    }
}

/// The effect of one instruction byte without folding and without cursor
/// wrap: the common ladder both sides are compared against.
pub open spec fn flat_step(c: u8, dp: int, mem: Seq<u8>) -> (int, Seq<u8>) {
    if c == OP_RIGHT {
        (dp + 1, mem)
    } else if c == OP_LEFT {
        (dp - 1, mem)
    } else if c == OP_INC {
        (dp, mem.update(dp, ((mem[dp] + 1) % 256) as u8))
    } else if c == OP_DEC {
        (dp, mem.update(dp, ((mem[dp] - 1) % 256) as u8))
    } else {
        (dp, mem)
    }
}

/// The instruction bytes from position `i` on, executed one at a time
/// without cursor wrap.
pub open spec fn flat_exec(p: Seq<u8>, i: int, dp: int, mem: Seq<u8>) -> (int, Seq<u8>)
    decreases p.len() - i,
{
    if i < 0 || i >= p.len() {
        (dp, mem)
    } else {
        let t = flat_step(p[i], dp, mem);
        flat_exec(p, i + 1, t.0, t.1)
    }
}

/// The cursor stays inside `[0, bound)` at every point of the run from
/// position `i` with the cursor at `dp`.
pub open spec fn cursor_in_range(p: Seq<u8>, i: int, dp: int, bound: int) -> bool
    decreases p.len() - i,
{
    if i < 0 || i >= p.len() {
        0 <= dp < bound
    } else {
        0 <= dp < bound && cursor_in_range(p, i + 1, flat_step(p[i], dp, mem_irrelevant()).0, bound)
    }
}

/// The cursor's path does not depend on the tape, so any tape serves to
/// state `cursor_in_range`.
pub open spec fn mem_irrelevant() -> Seq<u8> {
    Seq::empty()
}

/// The counted statement the transpiler emits for a run of `k` copies of
/// the instruction byte `c`.
pub open spec fn stmt_of(c: u8, k: nat) -> CStmt {
    if c == OP_RIGHT {
        CStmt::MoveRight(k)
    } else if c == OP_LEFT {
        CStmt::MoveLeft(k)
    } else if c == OP_INC {
        CStmt::Add(k)
    } else {
        CStmt::Sub(k)
    }
}

proof fn lemma_target_cons(s: CStmt, rest: Seq<CStmt>, dp: int, mem: Seq<u8>)
    ensures
        ({
            let t = target_step(s, dp, mem);
            target_exec(seq![s] + rest, dp, mem) == target_exec(rest, t.0, t.1)
        }),
{
    let ss = seq![s] + rest;
    assert(ss.drop_first() =~= rest);
}

/// Every byte of the run that `rep_end` delimits equals the byte the run
/// is counted for.
proof fn lemma_rep_end_run(p: Seq<u8>, i: int, c: u8)
    requires
        0 <= i <= p.len(),
    ensures
        forall|x: int| i <= x < rep_end(p, i, c) ==> p[x] == c,
    decreases p.len() - i,
{
    lemma_rep_end_bounds(p, i, c);
    if i < p.len() && p[i] == c {
        lemma_rep_end_run(p, i + 1, c);
    }
}

/// One folded statement has the same effect as the run of single
/// instructions it stands for, and carries the cursor-range certificate
/// across the run.
proof fn lemma_flat_run(p: Seq<u8>, i: int, j: int, c: u8, dp: int, mem: Seq<u8>, bound: int)
    requires
        0 <= i <= j <= p.len(),
        forall|x: int| i <= x < j ==> p[x] == c,
        c == OP_RIGHT || c == OP_LEFT || c == OP_INC || c == OP_DEC,
        (c == OP_INC || c == OP_DEC) ==> 0 <= dp < mem.len(),
    ensures
        ({
            let t = target_step(stmt_of(c, (j - i) as nat), dp, mem);
            &&& flat_exec(p, i, dp, mem) == flat_exec(p, j, t.0, t.1)
            &&& t.1.len() == mem.len()
            &&& cursor_in_range(p, i, dp, bound) ==> cursor_in_range(p, j, t.0, bound)
        }),
    decreases j - i,
{
    let k = j - i;
    let v = mem[dp];
    if i == j {
        if c == OP_INC || c == OP_DEC {
            assert(mem.update(dp, ((v + 0) % 256) as u8) =~= mem);
            assert(mem.update(dp, ((v - 0) % 256) as u8) =~= mem);
        }
    } else {
        let t1 = flat_step(c, dp, mem);
        lemma_flat_run(p, i + 1, j, c, t1.0, t1.1, bound);
        let t = target_step(stmt_of(c, k as nat), dp, mem);
        let t2 = target_step(stmt_of(c, (k - 1) as nat), t1.0, t1.1);
        assert(t == t2) by {
            if c == OP_INC {
                let v1 = (v + 1) % 256;
                assert((v1 + (k - 1)) % 256 == (v + k) % 256) by {
                    lemma_add_mod_noop_right(k - 1, v + 1, 256);
                }
                assert(mem.update(dp, v1 as u8).update(dp, ((v1 + (k - 1)) % 256) as u8)
                    =~= mem.update(dp, ((v + k) % 256) as u8));
            } else if c == OP_DEC {
                let v1 = (v - 1) % 256;
                assert((v1 - (k - 1)) % 256 == (v - k) % 256) by {
                    lemma_add_mod_noop_right(-(k - 1), v - 1, 256);
                }
                assert(mem.update(dp, v1 as u8).update(dp, ((v1 - (k - 1)) % 256) as u8)
                    =~= mem.update(dp, ((v - k) % 256) as u8));
            }
        }
    }
}

/// Folding soundness: the transpiler's folded statements, executed under
/// the target semantics, compute exactly what the instruction bytes do one
/// at a time.
pub proof fn lemma_fold_sound(p: Seq<u8>, i: int, dp: int, mem: Seq<u8>, bound: int)
    requires
        arith_moves_only(p),
        0 <= i,
        cursor_in_range(p, i, dp, bound),
        bound <= mem.len(),
    ensures
        target_exec(stmts(p, i), dp, mem) == flat_exec(p, i, dp, mem),
    decreases p.len() - i,
{
    if i < p.len() {
        let c = p[i];
        let j = rep_end(p, i + 1, c);
        lemma_rep_end_bounds(p, i + 1, c);
        lemma_rep_end_run(p, i + 1, c);
        let st = stmt_of(c, (j - i) as nat);
        assert(stmts(p, i) == seq![st] + stmts(p, j));
        lemma_flat_run(p, i, j, c, dp, mem, bound);
        let t = target_step(st, dp, mem);
        lemma_target_cons(st, stmts(p, j), dp, mem);
        lemma_fold_sound(p, j, t.0, t.1, bound);
    }
}

/// The interpreter's run of an arithmetic/move-only program whose cursor
/// never wraps reaches exactly the flat, unwrapped semantics.
pub proof fn lemma_interpreter_flat(m: Machine)
    requires
        m.wf(),
        arith_moves_only(m.program),
        cursor_in_range(m.program, m.ip, m.dp, MEMORY_SIZE as int),
    ensures
        ({
            let t = flat_exec(m.program, m.ip, m.dp, m.mem);
            exists|n: nat|
                #[trigger] run_n(m, n) == Step::Halted(
                    Machine { ip: m.program.len() as int, dp: t.0, mem: t.1, ..m },
                )
        }),
    decreases m.program.len() - m.ip,
{
    reveal_with_fuel(cursor_in_range, 2);
    let len = m.program.len() as int;
    let ml = MEMORY_SIZE as int;
    if m.ip >= len {
        let t = flat_exec(m.program, m.ip, m.dp, m.mem);
        assert(Machine { ip: len, dp: t.0, mem: t.1, ..m } == m);
        assert(run_n(m, 1) == Step::Halted(m));
    } else {
        let c = m.program[m.ip];
        let t1 = flat_step(c, m.dp, m.mem);
        assert(flat_step(c, m.dp, mem_irrelevant()).0 == t1.0);
        let m2 = Machine { ip: m.ip + 1, dp: t1.0, mem: t1.1, ..m };
        assert(step(m) == Step::Running(m2)) by {
            if c == OP_RIGHT {
                assert(0 <= m.dp + 1 < ml);
                assert((m.dp + 1) % ml == m.dp + 1);
            } else if c == OP_LEFT {
                assert(0 <= m.dp - 1 < ml);
                assert((m.dp + ml - 1) % ml == m.dp - 1) by {
                    lemma_add_mod_noop_right(m.dp - 1, ml, ml);
                    assert(ml % ml == 0);
                }
            } else if c == OP_DEC {
                let v = m.mem[m.dp];
                assert((v + 255) % 256 == (v - 1) % 256) by {
                    lemma_add_mod_noop_right(v - 1, 256, 256);
                }
            }
        }
        lemma_interpreter_flat(m2);
        let t = flat_exec(m.program, m.ip, m.dp, m.mem);
        let n2 = choose|n: nat|
            #[trigger] run_n(m2, n) == Step::Halted(Machine { ip: len, dp: t.0, mem: t.1, ..m2 });
        assert(run_n(m, n2 + 1) == run_n(m2, n2));
        assert(Machine { ip: len, dp: t.0, mem: t.1, ..m2 } == Machine {
            ip: len,
            dp: t.0,
            mem: t.1,
            ..m
        });
    }
}

/// Running the flat semantics on two tapes that agree below `bound`, with
/// the cursor confined below `bound`, keeps them in agreement there and
/// never touches a cell of the longer tape at or beyond `bound`.
proof fn lemma_flat_widen(p: Seq<u8>, i: int, dp: int, mem1: Seq<u8>, mem2: Seq<u8>, bound: int)
    requires
        arith_moves_only(p),
        cursor_in_range(p, i, dp, bound),
        bound <= mem1.len() <= mem2.len(),
        forall|j: int| 0 <= j < bound ==> mem1[j] == mem2[j],
    ensures
        ({
            let t1 = flat_exec(p, i, dp, mem1);
            let t2 = flat_exec(p, i, dp, mem2);
            &&& t1.0 == t2.0
            &&& t1.1.len() == mem1.len()
            &&& t2.1.len() == mem2.len()
            &&& forall|j: int| 0 <= j < bound ==> t1.1[j] == t2.1[j]
            &&& forall|j: int| bound <= j < mem1.len() ==> t1.1[j] == mem1[j]
            &&& forall|j: int| bound <= j < mem2.len() ==> t2.1[j] == mem2[j]
        }),
    decreases p.len() - i,
{
    reveal_with_fuel(cursor_in_range, 2);
    let t1 = flat_exec(p, i, dp, mem1);
    let t2 = flat_exec(p, i, dp, mem2);
    if 0 <= i < p.len() {
        let c = p[i];
        let s1 = flat_step(c, dp, mem1);
        let s2 = flat_step(c, dp, mem2);
        assert(flat_step(c, dp, mem_irrelevant()).0 == s1.0);
        assert(s1.0 == s2.0);
        lemma_flat_widen(p, i + 1, s1.0, s1.1, s2.1, bound);
        assert(t1 == flat_exec(p, i + 1, s1.0, s1.1));
        assert(t2 == flat_exec(p, i + 1, s2.0, s2.1));
        assert forall|j: int| 0 <= j < bound implies t1.1[j] == t2.1[j] by {
            assert(t1.1[j] == flat_exec(p, i + 1, s1.0, s1.1).1[j]);
        }
        assert forall|j: int| bound <= j < mem1.len() implies t1.1[j] == mem1[j] by {
            assert(t1.1[j] == s1.1[j]);
            assert(s1.1[j] == mem1[j]);
        }
        assert forall|j: int| bound <= j < mem2.len() implies t2.1[j] == mem2[j] by {
            assert(t2.1[j] == s2.1[j]);
            assert(s2.1[j] == mem2[j]);
        }
    }
}

/// Round trip: a program of only `+`, `-`, `<` and `>` whose cursor never
/// leaves the interpreter's tape produces the same final tape whether
/// interpreted directly or by executing the transpiler's statements under
/// the target semantics — the target tape holds the interpreter's tape in
/// its first `MEMORY_SIZE` cells and untouched zeros beyond them.
pub proof fn lemma_round_trip(program: Seq<u8>, input: Seq<u8>)
    requires
        arith_moves_only(program),
        cursor_in_range(program, 0, 0, MEMORY_SIZE as int),
    ensures
        ({
            let init = initial_machine(program, input);
            let t = target_exec(stmts(program, 0), 0, target_tape());
            &&& exists|n: nat|
                #[trigger] run_n(init, n) == Step::Halted(
                    Machine {
                        ip: program.len() as int,
                        dp: t.0,
                        mem: t.1.subrange(0, MEMORY_SIZE as int),
                        ..init
                    },
                )
            &&& t.1.len() == TARGET_MEMORY_SIZE
            &&& forall|j: int| MEMORY_SIZE <= j < TARGET_MEMORY_SIZE ==> t.1[j] == 0
        }),
{
    let ml = MEMORY_SIZE as int;
    let init = initial_machine(program, input);
    lemma_interpreter_flat(init);
    lemma_fold_sound(program, 0, 0, target_tape(), ml);
    lemma_flat_widen(program, 0, 0, zero_tape(), target_tape(), ml);
    let f1 = flat_exec(program, 0, 0, zero_tape());
    let t = target_exec(stmts(program, 0), 0, target_tape());
    assert(t == flat_exec(program, 0, 0, target_tape()));
    assert(f1.1 =~= t.1.subrange(0, ml));
    let n = choose|n: nat|
        #[trigger] run_n(init, n) == Step::Halted(
            Machine { ip: program.len() as int, dp: f1.0, mem: f1.1, ..init },
        );
    assert(run_n(init, n) == Step::Halted(
        Machine { ip: program.len() as int, dp: t.0, mem: t.1.subrange(0, ml), ..init },
    ));
    assert forall|j: int| MEMORY_SIZE <= j < TARGET_MEMORY_SIZE implies t.1[j] == 0u8 by {
        assert(t.1[j] == target_tape()[j]);
        assert(target_tape()[j] == 0u8);
    }
}

} // verus!
