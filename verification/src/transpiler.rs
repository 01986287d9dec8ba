//! Ahead-of-time translation of a program into C source text. The pass
//! walks the instruction stream once, emitting one statement per
//! instruction — or one per maximal run of the same unary operator
//! (run-length folding) — indented by the current loop nesting depth.
//!
//! The whole output is pinned down by `transpiled`: a statement-level
//! model (`stmts`) of the folded instruction stream, rendered to bytes
//! (`render_stmts`) between a fixed preamble and a closing brace. The pass
//! performs no execution and never fails, even on unbalanced brackets; it
//! then simply emits unbalanced braces.
use vstd::prelude::*;

use crate::machine::{OP_CLOSE, OP_DEC, OP_IN, OP_INC, OP_LEFT, OP_OPEN, OP_OUT, OP_RIGHT};
use vstd::string::StringSliceAdditionalSpecFns;

verus! {

/// One statement of the emitted C program.
pub enum CStmt {
    /// `ptr += k;` for a run of `k` cursor moves right.
    MoveRight(nat),
    /// `ptr -= k;` for a run of `k` cursor moves left.
    MoveLeft(nat),
    /// `*ptr += k;` for a run of `k` increments.
    Add(nat),
    /// `*ptr -= k;` for a run of `k` decrements.
    Sub(nat),
    /// `while (*ptr) {`, opening one nesting level.
    Open,
    /// `}`, closing one nesting level.
    Close,
    /// `putchar(*ptr);`
    Put,
    /// `*ptr = getchar();`
    Get,
}

/// The first position at or after `i` whose byte differs from `c`: the end
/// of the run of `c` that starts at `i`.
pub open spec fn rep_end(p: Seq<u8>, i: int, c: u8) -> int
    decreases p.len() - i,
{
    if i < 0 || i >= p.len() || p[i] != c {
        i
    } else {
        rep_end(p, i + 1, c)
    }
}

pub proof fn lemma_rep_end_bounds(p: Seq<u8>, i: int, c: u8)
    requires
        0 <= i <= p.len(),
    ensures
        i <= rep_end(p, i, c) <= p.len(),
    decreases p.len() - i,
{
    if i < p.len() && p[i] == c {
        lemma_rep_end_bounds(p, i + 1, c);
    }
}

/// The statements emitted for the instruction stream from position `i` on,
/// with maximal runs of the four unary operators folded into one
/// statement each; bytes outside the instruction set contribute nothing.
pub open spec fn stmts(p: Seq<u8>, i: int) -> Seq<CStmt>
    decreases p.len() - i,
    via stmts_decreases
{
    if i < 0 || i >= p.len() {
        Seq::empty()
    } else {
        let c = p[i];
        if c == OP_RIGHT {
            seq![CStmt::MoveRight((rep_end(p, i + 1, c) - i) as nat)] + stmts(p, rep_end(p, i + 1, c))
        } else if c == OP_LEFT {
            seq![CStmt::MoveLeft((rep_end(p, i + 1, c) - i) as nat)] + stmts(p, rep_end(p, i + 1, c))
        } else if c == OP_INC {
            seq![CStmt::Add((rep_end(p, i + 1, c) - i) as nat)] + stmts(p, rep_end(p, i + 1, c))
        } else if c == OP_DEC {
            seq![CStmt::Sub((rep_end(p, i + 1, c) - i) as nat)] + stmts(p, rep_end(p, i + 1, c))
        } else if c == OP_OPEN {
            seq![CStmt::Open] + stmts(p, i + 1)
        } else if c == OP_CLOSE {
            seq![CStmt::Close] + stmts(p, i + 1)
        } else if c == OP_OUT {
            seq![CStmt::Put] + stmts(p, i + 1)
        } else if c == OP_IN {
            seq![CStmt::Get] + stmts(p, i + 1)
        } else {
            stmts(p, i + 1)
        }
    }
}

#[via_fn]
proof fn stmts_decreases(p: Seq<u8>, i: int) {
    if 0 <= i < p.len() {
        lemma_rep_end_bounds(p, i + 1, p[i]);
    }
}

/// The decimal digits of `n`, most significant first.
pub open spec fn dec_rep(n: nat) -> Seq<u8>
    decreases n,
{
    if n < 10 {
        seq![(48 + n) as u8]
    } else {
        dec_rep(n / 10).push((48 + n % 10) as u8)
    }
}

/// `depth` copies of the four-space indentation unit; none when the
/// nesting underflowed on unbalanced brackets.
pub open spec fn indent_text(depth: int) -> Seq<u8>
    decreases depth,
{
    if depth <= 0 {
        Seq::empty()
    } else {
        indent_text(depth - 1) + "    ".spec_bytes()
    }
}

/// How one statement changes the nesting depth of what follows it.
pub open spec fn depth_delta(s: CStmt) -> int {
    match s {
        CStmt::Open => 1,
        CStmt::Close => -1,
        _ => 0,
    }
}

/// The text of one statement at nesting depth `depth`: indentation, then
/// the statement itself. A closing brace is dedented one level first.
pub open spec fn render_stmt(s: CStmt, depth: int) -> Seq<u8> {
    match s {
        CStmt::MoveRight(k) => indent_text(depth) + "ptr += ".spec_bytes() + dec_rep(k)
            + ";\n".spec_bytes(),
        CStmt::MoveLeft(k) => indent_text(depth) + "ptr -= ".spec_bytes() + dec_rep(k)
            + ";\n".spec_bytes(),
        CStmt::Add(k) => indent_text(depth) + "*ptr += ".spec_bytes() + dec_rep(k)
            + ";\n".spec_bytes(),
        CStmt::Sub(k) => indent_text(depth) + "*ptr -= ".spec_bytes() + dec_rep(k)
            + ";\n".spec_bytes(),
        CStmt::Open => indent_text(depth) + "while (*ptr) { \n".spec_bytes(),
        CStmt::Close => indent_text(depth - 1) + "}\n".spec_bytes(),
        CStmt::Put => indent_text(depth) + "putchar(*ptr);\n".spec_bytes(),
        CStmt::Get => indent_text(depth) + "*ptr = getchar();\n".spec_bytes(),
    }
}

/// The statements rendered in order, starting at nesting depth `depth`.
pub open spec fn render_stmts(ss: Seq<CStmt>, depth: int) -> Seq<u8>
    decreases ss.len(),
{
    if ss.len() == 0 {
        Seq::empty()
    } else {
        render_stmt(ss[0], depth) + render_stmts(ss.drop_first(), depth + depth_delta(ss[0]))
    }
}

/// The fixed preamble of every emitted program: declarations for the two
/// character-stream calls, a 30000-cell buffer and a cursor at its start.
pub open spec fn intro_text() -> Seq<u8> {
    "\nint putchar(int);\nint getchar(void);\n#define MAXMEM 30000\nint main(void) {\n    char memory[MAXMEM];\n    char *ptr = memory;\n".spec_bytes()
}

/// The complete output for the instruction stream from position `i` on:
/// preamble, statements from depth 1, and the closing brace of `main`.
pub open spec fn transpiled(p: Seq<u8>, i: int) -> Seq<u8> {
    intro_text() + render_stmts(stmts(p, i), 1) + "}\n".spec_bytes()
}

proof fn lemma_render_cons(s: CStmt, rest: Seq<CStmt>, depth: int)
    ensures
        render_stmts(seq![s] + rest, depth) == render_stmt(s, depth) + render_stmts(
            rest,
            depth + depth_delta(s),
        ),
{
    let ss = seq![s] + rest;
    assert(ss.drop_first() =~= rest);
}

proof fn lemma_emit_step(total: Seq<u8>, emitted: Seq<u8>, st: CStmt, rest: Seq<CStmt>, depth: int)
    requires
        emitted + render_stmts(seq![st] + rest, depth) == total,
    ensures
        (emitted + render_stmt(st, depth)) + render_stmts(rest, depth + depth_delta(st)) == total,
{
    lemma_render_cons(st, rest, depth);
    assert((emitted + render_stmt(st, depth)) + render_stmts(rest, depth + depth_delta(st))
        =~= total);
}

/// Appends one indented, counted statement: the prefix, the decimal count
/// and the statement terminator.
fn emit_counted(out: &mut Vec<u8>, pads: usize, prefix: &str, k: usize)
    ensures
        final(out)@ == old(out)@ + (indent_text(pads as int) + prefix.spec_bytes() + dec_rep(
            k as nat,
        ) + ";\n".spec_bytes()),
{
    push_spaces(out, pads);
    out.extend_from_slice(prefix.as_bytes());
    push_decimal(out, k);
    out.extend_from_slice(";\n".as_bytes());
    proof {
        assert(final(out)@ =~= old(out)@ + (indent_text(pads as int) + prefix.spec_bytes()
            + dec_rep(k as nat) + ";\n".spec_bytes()));
    }
}

/// Appends one indented, fixed statement.
fn emit_plain(out: &mut Vec<u8>, pads: usize, text: &str)
    ensures
        final(out)@ == old(out)@ + (indent_text(pads as int) + text.spec_bytes()),
{
    push_spaces(out, pads);
    out.extend_from_slice(text.as_bytes());
    proof {
        assert(final(out)@ =~= old(out)@ + (indent_text(pads as int) + text.spec_bytes()));
    }
}

/// Appends the decimal digits of `n`.
fn push_decimal(out: &mut Vec<u8>, n: usize)
    ensures
        final(out)@ == old(out)@ + dec_rep(n as nat),
    decreases n,
{
    if n < 10 {
        out.push(48 + (n as u8));
        proof {
            assert(final(out)@ =~= old(out)@ + dec_rep(n as nat));
        }
    } else {
        push_decimal(out, n / 10);
        out.push(48 + ((n % 10) as u8));
        proof {
            assert(final(out)@ =~= old(out)@ + dec_rep(n as nat));
        }
    }
}

/// Appends `k` copies of the indentation unit.
fn push_spaces(out: &mut Vec<u8>, k: usize)
    ensures
        final(out)@ == old(out)@ + indent_text(k as int),
{
    let mut i: usize = 0;
    while i < k
        invariant
            i <= k,
            out@ == old(out)@ + indent_text(i as int),
        decreases k - i,
    {
        out.extend_from_slice("    ".as_bytes());
        i = i + 1;
        proof {
            assert(out@ =~= old(out)@ + indent_text(i as int));
        }
    }
}

/// The transpiler: a loaded program and a read cursor into it.
pub struct Transpiler {
    source: Vec<u8>,
    current: usize,
}

impl Transpiler {
    /// The loaded program bytes.
    pub closed spec fn program(&self) -> Seq<u8> {
        self.source@
    }

    /// The read cursor.
    pub closed spec fn current(&self) -> int {
        self.current as int
    }

    pub closed spec fn wf(&self) -> bool {
        self.current <= self.source@.len()
    }

    pub fn new(source: &str) -> (r: Self)
        ensures
            r.wf(),
            r.program() == source.spec_bytes(),
            r.current() == 0,
    {
        Transpiler { source: vstd::slice::slice_to_vec(source.as_bytes()), current: 0 }
    }

    /// The byte at the read cursor, which is advanced past it; `None` at
    /// the end of the program.
    pub fn next_char(&mut self) -> (r: Option<u8>)
        requires
            old(self).wf(),
        ensures
            final(self).wf(),
            final(self).program() == old(self).program(),
            old(self).current() < old(self).program().len() ==> r == Some(
                old(self).program()[old(self).current()],
            ) && final(self).current() == old(self).current() + 1,
            old(self).current() >= old(self).program().len() ==> r == None::<u8>
                && final(self).current() == old(self).current(),
    {
        if self.current < self.source.len() {
            let c = self.source[self.current];
            self.current = self.current + 1;
            Some(c)
        } else {
            None
        }
    }

    /// The byte at the read cursor without advancing; `None` at the end of
    /// the program.
    pub fn peek(&self) -> (r: Option<u8>)
        requires
            self.wf(),
        ensures
            self.current() < self.program().len() ==> r == Some(
                self.program()[self.current()],
            ),
            self.current() >= self.program().len() ==> r == None::<u8>,
    {
        if self.current < self.source.len() {
            Some(self.source[self.current])
        } else {
            None
        }
    }

    /// The length of the run of `rep` that the byte consumed just before
    /// this call began: one for that byte, plus one for each equal byte
    /// now consumed from the cursor on.
    pub fn get_repetition(&mut self, rep: u8) -> (r: usize)
        requires
            old(self).wf(),
            old(self).current() >= 1,
        ensures
            final(self).wf(),
            final(self).program() == old(self).program(),
            final(self).current() == rep_end(old(self).program(), old(self).current(), rep),
            r == 1 + final(self).current() - old(self).current(),
    {
        let ghost p = self.source@;
        let ghost start = self.current as int;
        let mut i: usize = 1;
        loop
            invariant
                old(self).wf(),
                p == old(self).program(),
                start == old(self).current(),
                1 <= start,
                self.wf(),
                self.program() == p,
                start <= self.current(),
                i as int == 1 + self.current() - start,
                rep_end(p, start, rep) == rep_end(p, self.current(), rep),
            ensures
                self.wf(),
                self.program() == p,
                self.current() == rep_end(p, start, rep),
                i as int == 1 + self.current() - start,
            decreases p.len() - self.current(),
        {
            match self.peek() {
                Some(c) => {
                    if c == rep {
                        let _ = self.next_char();
                        i = i + 1;
                    } else {
                        break ;
                    }
                },
                None => {
                    break ;
                },
            }
        }
        i
    }

    /// Emits the complete C program for the instruction stream from the
    /// read cursor on: exactly `transpiled` of the program, appended to
    /// `out`. Unbalanced brackets are passed through as unbalanced braces;
    /// this pass never fails.
    pub fn transpile(&mut self, out: &mut Vec<u8>)
        requires
            old(self).wf(),
        ensures
            final(self).wf(),
            final(self).program() == old(self).program(),
            final(self).current() == old(self).program().len(),
            final(out)@ == old(out)@ + transpiled(old(self).program(), old(self).current()),
    {
        let ghost p = self.source@;
        let ghost start = self.current as int;
        out.extend_from_slice(
            "\nint putchar(int);\nint getchar(void);\n#define MAXMEM 30000\nint main(void) {\n    char memory[MAXMEM];\n    char *ptr = memory;\n".as_bytes(),
        );
        let mut opens: usize = 0;
        let mut closes: usize = 0;
        let ghost mut emitted: Seq<u8> = Seq::empty();
        proof {
            assert(out@ =~= old(out)@ + intro_text() + emitted);
        }
        loop
            invariant
                old(self).wf(),
                p == old(self).program(),
                start == old(self).current(),
                self.wf(),
                self.program() == p,
                start <= self.current() <= p.len(),
                opens as int <= self.current(),
                closes as int <= self.current(),
                out@ == old(out)@ + intro_text() + emitted,
                emitted + render_stmts(stmts(p, self.current()), 1 + opens - closes)
                    == render_stmts(stmts(p, start), 1),
            ensures
                self.wf(),
                self.program() == p,
                self.current() == p.len(),
                out@ == old(out)@ + intro_text() + render_stmts(stmts(p, start), 1),
            decreases p.len() - self.current(),
        {
            let ghost i = self.current as int;
            let ghost depth = 1 + opens as int - closes as int;
            let c = match self.next_char() {
                Some(c) => c,
                None => {
                    break ;
                },
            };
            let pads: usize = if c == OP_CLOSE {
                if opens > closes {
                    opens - closes
                } else {
                    0
                }
            } else {
                if opens >= closes {
                    opens - closes + 1
                } else {
                    0
                }
            };
            if c == OP_RIGHT {
                let k = self.get_repetition(OP_RIGHT);
                emit_counted(out, pads, "ptr += ", k);
                proof {
                    let st = CStmt::MoveRight(k as nat);
                    assert(indent_text(pads as int) == indent_text(depth));
                    lemma_emit_step(
                        render_stmts(stmts(p, start), 1),
                        emitted,
                        st,
                        stmts(p, self.current()),
                        depth,
                    );
                    emitted = emitted + render_stmt(st, depth);
                    assert(out@ =~= old(out)@ + intro_text() + emitted);
                }
            } else if c == OP_LEFT {
                let k = self.get_repetition(OP_LEFT);
                emit_counted(out, pads, "ptr -= ", k);
                proof {
                    let st = CStmt::MoveLeft(k as nat);
                    assert(indent_text(pads as int) == indent_text(depth));
                    lemma_emit_step(
                        render_stmts(stmts(p, start), 1),
                        emitted,
                        st,
                        stmts(p, self.current()),
                        depth,
                    );
                    emitted = emitted + render_stmt(st, depth);
                    assert(out@ =~= old(out)@ + intro_text() + emitted);
                }
            } else if c == OP_INC {
                let k = self.get_repetition(OP_INC);
                emit_counted(out, pads, "*ptr += ", k);
                proof {
                    let st = CStmt::Add(k as nat);
                    assert(indent_text(pads as int) == indent_text(depth));
                    lemma_emit_step(
                        render_stmts(stmts(p, start), 1),
                        emitted,
                        st,
                        stmts(p, self.current()),
                        depth,
                    );
                    emitted = emitted + render_stmt(st, depth);
                    assert(out@ =~= old(out)@ + intro_text() + emitted);
                }
            } else if c == OP_DEC {
                let k = self.get_repetition(OP_DEC);
                emit_counted(out, pads, "*ptr -= ", k);
                proof {
                    let st = CStmt::Sub(k as nat);
                    assert(indent_text(pads as int) == indent_text(depth));
                    lemma_emit_step(
                        render_stmts(stmts(p, start), 1),
                        emitted,
                        st,
                        stmts(p, self.current()),
                        depth,
                    );
                    emitted = emitted + render_stmt(st, depth);
                    assert(out@ =~= old(out)@ + intro_text() + emitted);
                }
            } else if c == OP_OPEN {
                emit_plain(out, pads, "while (*ptr) { \n");
                opens = opens + 1;
                proof {
                    let st = CStmt::Open;
                    assert(indent_text(pads as int) == indent_text(depth));
                    lemma_emit_step(
                        render_stmts(stmts(p, start), 1),
                        emitted,
                        st,
                        stmts(p, self.current()),
                        depth,
                    );
                    emitted = emitted + render_stmt(st, depth);
                    assert(out@ =~= old(out)@ + intro_text() + emitted);
                }
            } else if c == OP_CLOSE {
                emit_plain(out, pads, "}\n");
                closes = closes + 1;
                proof {
                    let st = CStmt::Close;
                    assert(indent_text(pads as int) == indent_text(depth - 1));
                    lemma_emit_step(
                        render_stmts(stmts(p, start), 1),
                        emitted,
                        st,
                        stmts(p, self.current()),
                        depth,
                    );
                    emitted = emitted + render_stmt(st, depth);
                    assert(out@ =~= old(out)@ + intro_text() + emitted);
                }
            } else if c == OP_OUT {
                emit_plain(out, pads, "putchar(*ptr);\n");
                proof {
                    let st = CStmt::Put;
                    assert(indent_text(pads as int) == indent_text(depth));
                    lemma_emit_step(
                        render_stmts(stmts(p, start), 1),
                        emitted,
                        st,
                        stmts(p, self.current()),
                        depth,
                    );
                    emitted = emitted + render_stmt(st, depth);
                    assert(out@ =~= old(out)@ + intro_text() + emitted);
                }
            } else if c == OP_IN {
                emit_plain(out, pads, "*ptr = getchar();\n");
                proof {
                    let st = CStmt::Get;
                    assert(indent_text(pads as int) == indent_text(depth));
                    lemma_emit_step(
                        render_stmts(stmts(p, start), 1),
                        emitted,
                        st,
                        stmts(p, self.current()),
                        depth,
                    );
                    emitted = emitted + render_stmt(st, depth);
                    assert(out@ =~= old(out)@ + intro_text() + emitted);
                }
            }
        }
        out.extend_from_slice("}\n".as_bytes());
        proof {
            assert(out@ =~= old(out)@ + transpiled(p, start));
        }
    }
}

} // verus!
