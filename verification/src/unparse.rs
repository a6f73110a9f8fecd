//! From a program back to a source: the source that is written here for a
//! program of the parser is folded by the parser into that program again.

use vstd::prelude::*;
use crate::isa::BFIsa;
use crate::pairing::{
    closed_at, folded, folding_ok, lemma_parse_folds_and_pairs, lemma_scan_keeps,
    lemma_tail_jmp_is_innermost, paired, patched, run_at, run_of,
};
use crate::parse::{
    bump_cell, bump_ptr, close_loop, ends_in_clear, ends_in_scan, ends_in_transfer, feed,
    parse_spec, scan, Folding, Frame, NestingErr, CLOSE, COMMA, DOT, LEFT, MINUS, OPEN, PLUS,
    RIGHT,
};

verus! {

/// No closing bracket that became a `Ret` could have become a loop
/// instruction: the code in front of a `Ret` ends in none of the three
/// idioms.
pub open spec fn rets_plain(code: Seq<BFIsa>) -> bool {
    forall|j: int|
        0 <= j < code.len() && (#[trigger] code[j]) is Ret ==> !ends_in_clear(code.take(j))
            && !ends_in_transfer(code.take(j)) && !ends_in_scan(code.take(j))
}

/// Loops do not cross: a loop that starts inside another one ends inside
/// it.
pub open spec fn loops_nest(code: Seq<BFIsa>) -> bool {
    forall|a: int, c: int|
        0 <= a < c < code.len() && #[trigger] closed_at(code, a) && #[trigger] closed_at(code, c)
            && c < code[a]->Jmp_0 ==> code[c]->Jmp_0 < code[a]->Jmp_0
}

/// Every transfer has a way back: its offset can be negated.
pub open spec fn transfers_turn(code: Seq<BFIsa>) -> bool {
    forall|j: int|
        0 <= j < code.len() && (#[trigger] code[j]) is LoopMvData ==> code[j]->LoopMvData_0
            != isize::MIN
}

/// What the parser keeps true of its code beyond `folding_ok`, and what
/// lets the code be written out and read again.
pub open spec fn replayable(code: Seq<BFIsa>) -> bool {
    &&& rets_plain(code)
    &&& loops_nest(code)
    &&& transfers_turn(code)
}

/// `a` and `b` differ in the targets of their `Jmp`s at most.
pub open spec fn same_shape(a: Seq<BFIsa>, b: Seq<BFIsa>) -> bool {
    &&& a.len() == b.len()
    &&& forall|i: int|
        0 <= i < a.len() ==> if (#[trigger] a[i]) is Jmp {
            b[i] is Jmp
        } else {
            b[i] == a[i]
        }
}

/// The idioms do not look at the targets of `Jmp`s.
proof fn lemma_idioms_by_shape(a: Seq<BFIsa>, b: Seq<BFIsa>)
    requires
        same_shape(a, b),
    ensures
        ends_in_clear(a) == ends_in_clear(b),
        ends_in_transfer(a) == ends_in_transfer(b),
        ends_in_scan(a) == ends_in_scan(b),
{
    let n = a.len() as int;
    if n >= 2 {
        assert(b[n - 1] == a[n - 1] || a[n - 1] is Jmp);
        assert(b[n - 2] == a[n - 2] || a[n - 2] is Jmp);
    }
    if n >= 5 {
        assert(b[n - 3] == a[n - 3] || a[n - 3] is Jmp);
        assert(b[n - 4] == a[n - 4] || a[n - 4] is Jmp);
        assert(b[n - 5] == a[n - 5] || a[n - 5] is Jmp);
    }
}

/// Code that keeps the instructions in front of its `Ret`s, up to the
/// targets of `Jmp`s, keeps its `Ret`s plain.
proof fn lemma_rets_plain_kept(code: Seq<BFIsa>, next: Seq<BFIsa>, keep: int)
    requires
        rets_plain(code),
        0 <= keep <= code.len(),
        keep <= next.len(),
        same_shape(code.take(keep), next.take(keep)),
        forall|j: int|
            keep <= j < next.len() && (#[trigger] next[j]) is Ret ==> !ends_in_clear(next.take(j))
                && !ends_in_transfer(next.take(j)) && !ends_in_scan(next.take(j)),
    ensures
        rets_plain(next),
{
    assert forall|j: int| 0 <= j < next.len() && (#[trigger] next[j]) is Ret implies !ends_in_clear(
        next.take(j),
    ) && !ends_in_transfer(next.take(j)) && !ends_in_scan(next.take(j)) by {
        if j < keep {
            assert(code.take(keep)[j] == code[j]);
            assert(next.take(keep)[j] == next[j]);
            assert(code[j] is Ret);
            assert(same_shape(code.take(j), next.take(j))) by {
                assert forall|i: int| 0 <= i < j implies if (#[trigger] code.take(j)[i]) is Jmp {
                    next.take(j)[i] is Jmp
                } else {
                    next.take(j)[i] == code.take(j)[i]
                } by {
                    assert(code.take(keep)[i] == code[i]);
                    assert(next.take(keep)[i] == next[i]);
                }
            }
            lemma_idioms_by_shape(code.take(j), next.take(j));
        }
    }
}

/// Code that changes at most in its last instruction, which is no branch
/// before or after, stays replayable.
proof fn lemma_tail_keeps_replayable(code: Seq<BFIsa>, next: Seq<BFIsa>, keep: int)
    requires
        replayable(code),
        0 <= keep <= code.len(),
        keep + 1 == next.len(),
        code.len() <= keep + 1,
        code.take(keep) == next.take(keep),
        !(next[keep] is Ret),
        !(next[keep] is LoopMvData),
        keep < code.len() ==> !(code[keep] is Ret) && !(code[keep] is Jmp),
        next[keep] is Jmp ==> next[keep]->Jmp_0 == 0,
    ensures
        replayable(next),
{
    assert forall|i: int| 0 <= i < keep implies code[i] == #[trigger] next[i] by {
        assert(code.take(keep)[i] == code[i]);
        assert(next.take(keep)[i] == next[i]);
    }
    lemma_rets_plain_kept(code, next, keep);
    assert forall|a: int| 0 <= a < next.len() && #[trigger] closed_at(next, a) implies closed_at(
        code,
        a,
    ) && code[a] == next[a] by {
        assert(a < keep);
        assert(next[next[a]->Jmp_0 as int] is Ret);
    }
    assert forall|j: int| 0 <= j < next.len() && (#[trigger] next[j]) is LoopMvData implies next[j]->LoopMvData_0
        != isize::MIN by {
        assert(code[j] is LoopMvData);
    }
}

/// One byte keeps the parser's code replayable.
pub proof fn lemma_feed_keeps_replayable(st: Folding, pos: usize, byte: u8)
    requires
        folding_ok(st),
        replayable(st.code),
        st.code.len() <= pos,
        feed(st, pos, byte) is Ok,
    ensures
        replayable(feed(st, pos, byte)->Ok_0.code),
{
    let code = st.code;
    let n = code.len() as int;
    let next = feed(st, pos, byte)->Ok_0.code;
    if byte == PLUS || byte == MINUS {
        if n > 0 && code.last() is Incr {
            assert(code.take(n - 1) =~= next.take(n - 1));
            lemma_tail_keeps_replayable(code, next, n - 1);
        } else {
            assert(code.take(n) =~= next.take(n));
            lemma_tail_keeps_replayable(code, next, n);
        }
    } else if byte == RIGHT || byte == LEFT {
        if n > 0 && code.last() is Mv {
            assert(code.take(n - 1) =~= next.take(n - 1));
            lemma_tail_keeps_replayable(code, next, n - 1);
        } else {
            assert(code.take(n) =~= next.take(n));
            lemma_tail_keeps_replayable(code, next, n);
        }
    } else if byte == DOT || byte == COMMA || byte == OPEN {
        assert(code.take(n) =~= next.take(n));
        lemma_tail_keeps_replayable(code, next, n);
    } else if byte == CLOSE {
        lemma_close_keeps_replayable(st);
    }
}

/// Reading a `]` keeps the parser's code replayable.
proof fn lemma_close_keeps_replayable(st: Folding)
    requires
        folding_ok(st),
        replayable(st.code),
        st.open.len() > 0,
        st.code.len() <= usize::MAX,
    ensures
        replayable(close_loop(patched(st), st.open.last().0)),
{
    let code = st.code;
    let n = code.len() as int;
    let last = st.open.len() - 1;
    let addr = st.open[last].0 as int;
    let mid = patched(st);
    let next = close_loop(mid, addr as usize);
    assert(0 <= addr < n);
    assert(same_shape(code, mid));
    if ends_in_clear(mid) || ends_in_transfer(mid) || ends_in_scan(mid) {
        let keep = next.len() - 1;
        assert(mid[keep] is Jmp);
        assert(keep == addr) by {
            lemma_tail_jmp_is_innermost(st, keep);
        }
        assert(code.take(keep) =~= next.take(keep));
        lemma_rets_plain_kept(code, next, keep);
        assert forall|i: int| 0 <= i < keep implies code[i] == #[trigger] next[i] by {
            assert(next.take(keep)[i] == next[i]);
        }
        assert forall|a: int| 0 <= a < next.len() && #[trigger] closed_at(next, a) implies closed_at(
            code,
            a,
        ) && code[a] == next[a] by {
            assert(next[next[a]->Jmp_0 as int] is Ret);
        }
        assert forall|j: int| 0 <= j < next.len() && (#[trigger] next[j]) is LoopMvData implies next[j]->LoopMvData_0
            != isize::MIN by {
            if j < keep {
                assert(code[j] is LoopMvData);
            }
        }
    } else {
        assert(mid.take(n) =~= mid);
        assert(next.take(n) =~= mid);
        assert(same_shape(code.take(n), next.take(n))) by {
            assert(code.take(n) =~= code);
        }
        lemma_rets_plain_kept(code, next, n);
        assert forall|a: int| 0 <= a < n && a != addr && #[trigger] closed_at(next, a) implies closed_at(
            code,
            a,
        ) && code[a] == next[a] by {
            assert(next[a] == code[a]);
            let t = next[a]->Jmp_0 as int;
            assert(next[t] is Ret);
            if t == n {
                assert(false);
            }
            assert(next[t] == code[t]);
        }
        assert forall|a: int, c: int|
            0 <= a < c < next.len() && #[trigger] closed_at(next, a) && #[trigger] closed_at(next, c)
                && c < next[a]->Jmp_0 implies next[c]->Jmp_0 < next[a]->Jmp_0 by {
            assert(a < n && c < n);
            if a == addr {
                assert(next[c]->Jmp_0 < n);
                if c != addr {
                    assert(closed_at(code, c));
                }
            } else if c == addr {
                assert(closed_at(code, a));
                assert(st.open[last].0 < a || st.open[last].0 > code[a]->Jmp_0);
            } else {
                assert(closed_at(code, a));
                assert(closed_at(code, c));
            }
        }
        assert forall|j: int| 0 <= j < next.len() && (#[trigger] next[j]) is LoopMvData implies next[j]->LoopMvData_0
            != isize::MIN by {
            assert(code[j] is LoopMvData);
        }
    }
}

/// The parser's code is replayable after every prefix of the source.
pub proof fn lemma_scan_replayable(src: Seq<u8>, n: nat)
    requires
        n <= src.len() <= usize::MAX,
        scan(src, n) is Ok,
    ensures
        replayable(scan(src, n)->Ok_0.code),
    decreases n,
{
    if n > 0 {
        let before = scan(src, (n - 1) as nat)->Ok_0;
        lemma_scan_replayable(src, (n - 1) as nat);
        lemma_scan_keeps(src, (n - 1) as nat);
        lemma_feed_keeps_replayable(before, (n - 1) as usize, src[n - 1]);
    }
}

/// A source for a change of the cell by `n`.
pub open spec fn changes(n: u8) -> Seq<u8> {
    if n == 0 {
        seq![PLUS, MINUS]
    } else {
        run_of(PLUS, n as nat)
    }
}

/// A source for a move of the pointer by `d`.
pub open spec fn moves(d: int) -> Seq<u8> {
    if d > 0 {
        run_of(RIGHT, d as nat)
    } else if d < 0 {
        run_of(LEFT, (-d) as nat)
    } else {
        seq![RIGHT, LEFT]
    }
}

/// A source for the instruction `instr`: for a loop instruction, the
/// shortest loop that it replaces.
pub open spec fn written(instr: BFIsa) -> Seq<u8> {
    match instr {
        BFIsa::Incr(n) => changes(n),
        BFIsa::Out => seq![DOT],
        BFIsa::In => seq![COMMA],
        BFIsa::Mv(d) => moves(d as int),
        BFIsa::LoopSetZero => seq![OPEN, MINUS, CLOSE],
        BFIsa::LoopMvData(d) => seq![OPEN, MINUS] + moves(d as int) + seq![PLUS] + moves(-(d as int))
            + seq![CLOSE],
        BFIsa::LoopMvPtr(d) => seq![OPEN] + moves(d as int) + seq![CLOSE],
        BFIsa::Jmp(_) => seq![OPEN],
        BFIsa::Ret(_) => seq![CLOSE],
    }
}

/// A source for the program `code`: the sources of its instructions, one
/// after the other.
pub open spec fn unparse_spec(code: Seq<BFIsa>) -> Seq<u8>
    decreases code.len(),
{
    if code.len() == 0 {
        Seq::empty()
    } else {
        unparse_spec(code.drop_last()) + written(code.last())
    }
}

/// The parser's state after the bytes `bytes`, read from the state `st` on
/// at the source position `at`.
pub open spec fn resume(st: Folding, bytes: Seq<u8>, at: nat) -> Result<Folding, NestingErr>
    decreases bytes.len(),
{
    if bytes.len() == 0 {
        Ok(st)
    } else {
        match resume(st, bytes.drop_last(), at) {
            Err(e) => Err(e),
            Ok(s) => feed(s, (at + bytes.len() - 1) as usize, bytes.last()),
        }
    }
}

/// The parser's state after `n` bytes depends on those bytes only.
proof fn lemma_scan_prefix(x: Seq<u8>, y: Seq<u8>, n: nat)
    requires
        n <= x.len(),
        n <= y.len(),
        forall|i: int| 0 <= i < n ==> x[i] == y[i],
    ensures
        scan(x, n) == scan(y, n),
    decreases n,
{
    if n > 0 {
        lemma_scan_prefix(x, y, (n - 1) as nat);
    }
}

/// Reading `a` and then `b` is reading `b` from the state after `a` on.
proof fn lemma_scan_resume(a: Seq<u8>, b: Seq<u8>)
    ensures
        scan(a + b, (a + b).len()) == match scan(a, a.len()) {
            Err(e) => Err(e),
            Ok(st) => resume(st, b, a.len()),
        },
    decreases b.len(),
{
    if b.len() == 0 {
        assert(a + b =~= a);
    } else {
        let short = a + b.drop_last();
        lemma_scan_resume(a, b.drop_last());
        lemma_scan_prefix(short, a + b, short.len());
        assert((a + b)[(a + b).len() - 1] == b.last());
    }
}

/// Reading `x` and then `y` from a state on is reading `y` from the state
/// after `x` on.
proof fn lemma_resume_resume(st: Folding, x: Seq<u8>, y: Seq<u8>, at: nat)
    ensures
        resume(st, x + y, at) == match resume(st, x, at) {
            Err(e) => Err(e),
            Ok(s) => resume(s, y, at + x.len()),
        },
    decreases y.len(),
{
    if y.len() == 0 {
        assert(x + y =~= x);
    } else {
        lemma_resume_resume(st, x, y.drop_last(), at);
        assert((x + y).drop_last() =~= x + y.drop_last());
        assert((x + y).last() == y.last());
    }
}

/// Reading one byte from a state on is feeding it.
proof fn lemma_resume_one(st: Folding, byte: u8, at: nat)
    ensures
        resume(st, seq![byte], at) == feed(st, at as usize, byte),
{
    assert(seq![byte].drop_last() =~= Seq::<u8>::empty());
    assert(resume(st, seq![byte].drop_last(), at) == Ok::<Folding, NestingErr>(st));
}

/// A run of `k` plus signs changes the cell by `k` modulo 256: it adds to
/// a change that the code ends in, and else appends one.
proof fn lemma_resume_plus_run(st: Folding, k: nat, at: nat)
    requires
        k >= 1,
        !(st.code.len() > 0 && st.code.last() is Incr),
    ensures
        resume(st, run_of(PLUS, k), at) == Ok::<Folding, NestingErr>(
            Folding { code: st.code.push(BFIsa::Incr((k % 256) as u8)), open: st.open },
        ),
    decreases k,
{
    let bytes = run_of(PLUS, k);
    assert(bytes.drop_last() =~= run_of(PLUS, (k - 1) as nat));
    if k == 1 {
        assert(resume(st, bytes.drop_last(), at) == Ok::<Folding, NestingErr>(st));
    } else {
        lemma_resume_plus_run(st, (k - 1) as nat, at);
        let before = st.code.push(BFIsa::Incr(((k - 1) % 256) as u8));
        assert(bump_cell(before, 1) =~= st.code.push(BFIsa::Incr((k % 256) as u8)));
    }
}

/// The source of a change of the cell is read as that change.
proof fn lemma_resume_changes(st: Folding, n: u8, at: nat)
    requires
        !(st.code.len() > 0 && st.code.last() is Incr),
    ensures
        resume(st, changes(n), at) == Ok::<Folding, NestingErr>(
            Folding { code: st.code.push(BFIsa::Incr(n)), open: st.open },
        ),
{
    if n == 0 {
        let bytes = seq![PLUS, MINUS];
        assert(bytes.drop_last() =~= seq![PLUS]);
        lemma_resume_one(st, PLUS, at);
        let before = st.code.push(BFIsa::Incr(1));
        assert(bump_cell(before, 255) =~= st.code.push(BFIsa::Incr(0)));
    } else {
        lemma_resume_plus_run(st, n as nat, at);
    }
}

/// A run of `k` moves to one side is read as a move by `k` cells to that
/// side.
proof fn lemma_resume_move_run(st: Folding, right: bool, k: nat, at: nat)
    requires
        1 <= k <= isize::MAX + 1,
        right ==> k <= isize::MAX,
        !(st.code.len() > 0 && st.code.last() is Mv),
    ensures
        resume(
            st,
            run_of(
                if right {
                    RIGHT
                } else {
                    LEFT
                },
                k,
            ),
            at,
        ) == Ok::<Folding, NestingErr>(
            Folding {
                code: st.code.push(
                    BFIsa::Mv(
                        (if right {
                            k as int
                        } else {
                            -(k as int)
                        }) as isize,
                    ),
                ),
                open: st.open,
            },
        ),
    decreases k,
{
    let byte = if right {
        RIGHT
    } else {
        LEFT
    };
    let sign: int = if right {
        1
    } else {
        -1
    };
    let bytes = run_of(byte, k);
    assert(bytes.drop_last() =~= run_of(byte, (k - 1) as nat));
    if k == 1 {
        assert(resume(st, bytes.drop_last(), at) == Ok::<Folding, NestingErr>(st));
    } else {
        lemma_resume_move_run(st, right, (k - 1) as nat, at);
        let before = st.code.push(BFIsa::Mv((sign * (k - 1)) as isize));
        assert(bump_ptr(before, sign as isize) =~= st.code.push(BFIsa::Mv((sign * k) as isize)));
    }
}

/// The source of a move of the pointer is read as that move.
proof fn lemma_resume_moves(st: Folding, d: isize, at: nat)
    requires
        !(st.code.len() > 0 && st.code.last() is Mv),
    ensures
        resume(st, moves(d as int), at) == Ok::<Folding, NestingErr>(
            Folding { code: st.code.push(BFIsa::Mv(d)), open: st.open },
        ),
{
    if d > 0 {
        lemma_resume_move_run(st, true, d as nat, at);
    } else if d < 0 {
        lemma_resume_move_run(st, false, (-d) as nat, at);
    } else {
        let bytes = seq![RIGHT, LEFT];
        assert(bytes.drop_last() =~= seq![RIGHT]);
        lemma_resume_one(st, RIGHT, at);
        let before = st.code.push(BFIsa::Mv(1));
        assert(bump_ptr(before, -1isize) =~= st.code.push(BFIsa::Mv(0)));
    }
}

/// Reading `[` from a state on.
pub open spec fn opened(st: Folding, at: nat) -> Folding {
    Folding {
        code: st.code.push(BFIsa::Jmp(0)),
        open: st.open.push((st.code.len() as usize, at as usize)),
    }
}

/// The source of `LoopSetZero` is read as `LoopSetZero`.
proof fn lemma_resume_clear(st: Folding, at: nat)
    requires
        st.code.len() <= usize::MAX,
    ensures
        resume(st, written(BFIsa::LoopSetZero), at) == Ok::<Folding, NestingErr>(
            Folding { code: st.code.push(BFIsa::LoopSetZero), open: st.open },
        ),
{
    let n = st.code.len() as int;
    let bytes = seq![OPEN, MINUS, CLOSE];
    assert(bytes =~= seq![OPEN] + seq![MINUS] + seq![CLOSE]);
    lemma_resume_resume(st, seq![OPEN] + seq![MINUS], seq![CLOSE], at);
    lemma_resume_resume(st, seq![OPEN], seq![MINUS], at);
    lemma_resume_one(st, OPEN, at);
    let s1 = opened(st, at);
    lemma_resume_one(s1, MINUS, at + 1);
    let s2 = Folding { code: s1.code.push(BFIsa::Incr(255)), open: s1.open };
    assert(bump_cell(s1.code, 255) == s2.code);
    lemma_resume_one(s2, CLOSE, at + 2);
    let mid = s2.code.update(n, BFIsa::Jmp(s2.code.len() as usize));
    assert(ends_in_clear(mid));
    assert(mid.take(n) =~= st.code);
    assert(s2.open.drop_last() =~= st.open);
}

/// The source of `LoopMvPtr(d)` is read as `LoopMvPtr(d)`.
proof fn lemma_resume_scan(st: Folding, d: isize, at: nat)
    requires
        st.code.len() <= usize::MAX,
    ensures
        resume(st, written(BFIsa::LoopMvPtr(d)), at) == Ok::<Folding, NestingErr>(
            Folding { code: st.code.push(BFIsa::LoopMvPtr(d)), open: st.open },
        ),
{
    let n = st.code.len() as int;
    lemma_resume_resume(st, seq![OPEN] + moves(d as int), seq![CLOSE], at);
    lemma_resume_resume(st, seq![OPEN], moves(d as int), at);
    lemma_resume_one(st, OPEN, at);
    let s1 = opened(st, at);
    lemma_resume_moves(s1, d, at + 1);
    let s2 = Folding { code: s1.code.push(BFIsa::Mv(d)), open: s1.open };
    lemma_resume_one(s2, CLOSE, at + 1 + moves(d as int).len());
    let mid = s2.code.update(n, BFIsa::Jmp(s2.code.len() as usize));
    assert(!ends_in_clear(mid));
    assert(!ends_in_transfer(mid));
    assert(ends_in_scan(mid));
    assert(mid.take(n) =~= st.code);
    assert(s2.open.drop_last() =~= st.open);
}

/// The state in front of the `]` of a written `LoopMvData(d)`.
pub open spec fn transfer_open(st: Folding, d: isize, at: nat) -> Folding {
    Folding {
        code: st.code.push(BFIsa::Jmp(0)).push(BFIsa::Incr(255)).push(BFIsa::Mv(d)).push(
            BFIsa::Incr(1),
        ).push(BFIsa::Mv((-d) as isize)),
        open: st.open.push((st.code.len() as usize, at as usize)),
    }
}

/// The source of `LoopMvData(d)` up to its `]` is read as the loop's body.
proof fn lemma_resume_transfer_body(st: Folding, d: isize, at: nat)
    requires
        d != isize::MIN,
    ensures
        resume(st, seq![OPEN, MINUS] + moves(d as int) + seq![PLUS] + moves(-(d as int)), at)
            == Ok::<Folding, NestingErr>(transfer_open(st, d, at)),
{
    let back = (-d) as isize;
    let head = seq![OPEN, MINUS];
    assert(head =~= seq![OPEN] + seq![MINUS]);
    lemma_resume_resume(st, seq![OPEN], seq![MINUS], at);
    lemma_resume_one(st, OPEN, at);
    let s1 = opened(st, at);
    lemma_resume_one(s1, MINUS, at + 1);
    let s2 = Folding { code: s1.code.push(BFIsa::Incr(255)), open: s1.open };
    assert(bump_cell(s1.code, 255) == s2.code);
    assert(resume(st, head, at) == Ok::<Folding, NestingErr>(s2));
    let there = moves(d as int);
    lemma_resume_resume(st, head, there, at);
    lemma_resume_moves(s2, d, at + 2);
    let s3 = Folding { code: s2.code.push(BFIsa::Mv(d)), open: s1.open };
    assert(resume(st, head + there, at) == Ok::<Folding, NestingErr>(s3));
    let at3 = at + (head + there).len();
    lemma_resume_resume(st, head + there, seq![PLUS], at);
    lemma_resume_one(s3, PLUS, at3);
    let s4 = Folding { code: s3.code.push(BFIsa::Incr(1)), open: s1.open };
    assert(bump_cell(s3.code, 1) == s4.code);
    assert(resume(st, head + there + seq![PLUS], at) == Ok::<Folding, NestingErr>(s4));
    assert(back as int == -(d as int));
    lemma_resume_resume(st, head + there + seq![PLUS], moves(back as int), at);
    lemma_resume_moves(s4, back, at3 + 1);
}

/// A `]` behind the body of a written `LoopMvData(d)` folds it.
proof fn lemma_close_transfer(st: Folding, d: isize, at: nat, pos: usize)
    requires
        st.code.len() <= usize::MAX,
        d != isize::MIN,
    ensures
        feed(transfer_open(st, d, at), pos, CLOSE) == Ok::<Folding, NestingErr>(
            Folding { code: st.code.push(BFIsa::LoopMvData(d)), open: st.open },
        ),
{
    let n = st.code.len() as int;
    let s5 = transfer_open(st, d, at);
    let mid = s5.code.update(n, BFIsa::Jmp(s5.code.len() as usize));
    assert(mid.len() == n + 5);
    assert(mid[n] is Jmp);
    assert(mid[n + 1] == BFIsa::Incr(255));
    assert(mid[n + 2] == BFIsa::Mv(d));
    assert(mid[n + 3] == BFIsa::Incr(1));
    assert(mid[n + 4] == BFIsa::Mv((-d) as isize));
    assert(!ends_in_clear(mid));
    assert(ends_in_transfer(mid));
    assert(mid.take(n) =~= st.code);
    assert(s5.open.drop_last() =~= st.open);
}

/// The source of `LoopMvData(d)` is read as `LoopMvData(d)`.
proof fn lemma_resume_transfer(st: Folding, d: isize, at: nat)
    requires
        st.code.len() <= usize::MAX,
        d != isize::MIN,
    ensures
        resume(st, written(BFIsa::LoopMvData(d)), at) == Ok::<Folding, NestingErr>(
            Folding { code: st.code.push(BFIsa::LoopMvData(d)), open: st.open },
        ),
{
    let body = seq![OPEN, MINUS] + moves(d as int) + seq![PLUS] + moves(-(d as int));
    lemma_resume_resume(st, body, seq![CLOSE], at);
    lemma_resume_transfer_body(st, d, at);
    lemma_resume_one(transfer_open(st, d, at), CLOSE, at + body.len());
    lemma_close_transfer(st, d, at, (at + body.len()) as usize);
}

/// What a program must be to be written out and read again: all that
/// holds of the parser's programs.
pub open spec fn canonical(code: Seq<BFIsa>) -> bool {
    &&& code.len() <= usize::MAX
    &&& folded(code)
    &&& paired(code)
    &&& replayable(code)
}

/// The first `j` instructions of `code` as the parser has them when it
/// has read just these: a `Jmp` whose loop is not closed yet waits for its
/// target.
pub open spec fn veil(code: Seq<BFIsa>, j: int) -> Seq<BFIsa> {
    Seq::new(
        j as nat,
        |i: int|
            if code[i] is Jmp && code[i]->Jmp_0 >= j {
                BFIsa::Jmp(0)
            } else {
                code[i]
            },
    )
}

/// The `Jmp`s among the first `j` instructions of `code` whose loops are
/// not closed by then, outermost first.
pub open spec fn open_at(code: Seq<BFIsa>, j: nat) -> Seq<usize>
    decreases j,
{
    if j == 0 {
        Seq::empty()
    } else {
        let before = open_at(code, (j - 1) as nat);
        if code[j - 1] is Jmp {
            before.push((j - 1) as usize)
        } else if code[j - 1] is Ret {
            before.drop_last()
        } else {
            before
        }
    }
}

/// Where the open brackets `open` have their `Jmp`s.
pub open spec fn addrs(open: Seq<Frame>) -> Seq<usize> {
    Seq::new(open.len(), |i: int| open[i].0)
}

/// `open_at(code, j)` lists, in order, just the `Jmp`s in front of `j` that
/// lead to `j` or behind it.
pub open spec fn opens_ok(code: Seq<BFIsa>, j: nat) -> bool {
    let open = open_at(code, j);
    &&& forall|k: int|
        0 <= k < open.len() ==> (#[trigger] open[k]) < j && code[open[k] as int] is Jmp
            && code[open[k] as int]->Jmp_0 >= j
    &&& forall|k: int, l: int| 0 <= k < l < open.len() ==> #[trigger] open[k] < #[trigger] open[l]
    &&& forall|a: int|
        0 <= a < j && (#[trigger] code[a]) is Jmp && code[a]->Jmp_0 >= j ==> exists|k: int|
            0 <= k < open.len() && #[trigger] open[k] == a
}

/// The innermost open loop in front of a `Ret` is the one that the `Ret`
/// closes.
proof fn lemma_ret_closes_innermost(code: Seq<BFIsa>, j: nat)
    requires
        canonical(code),
        j < code.len(),
        code[j as int] is Ret,
        opens_ok(code, j),
    ensures
        open_at(code, j).len() > 0,
        open_at(code, j).last() == code[j as int]->Ret_0,
{
    let open = open_at(code, j);
    let t = code[j as int]->Ret_0 as int;
    assert(code[t] == BFIsa::Jmp(j as usize));
    let k = choose|k: int| 0 <= k < open.len() && #[trigger] open[k] == t;
    let last = open.len() - 1;
    if k < last {
        let a = open[last] as int;
        assert(open[k] < open[last]);
        assert(closed_at(code, a));
        assert(closed_at(code, t));
        assert(code[code[a]->Jmp_0 as int] == BFIsa::Ret(a as usize));
    }
}

/// `open_at` lists the open loops.
proof fn lemma_open_at(code: Seq<BFIsa>, j: nat)
    requires
        canonical(code),
        j <= code.len(),
    ensures
        opens_ok(code, j),
    decreases j,
{
    if j > 0 {
        let i = (j - 1) as nat;
        lemma_open_at(code, i);
        let before = open_at(code, i);
        let open = open_at(code, j);
        if code[i as int] is Ret {
            lemma_ret_closes_innermost(code, i);
            let t = code[i as int]->Ret_0 as int;
            assert forall|k: int| 0 <= k < open.len() implies (#[trigger] open[k]) < j
                && code[open[k] as int] is Jmp && code[open[k] as int]->Jmp_0 >= j by {
                assert(open[k] == before[k]);
                assert(before[k] < before[before.len() - 1]);
                let a = before[k] as int;
                assert(closed_at(code, a));
                assert(code[code[a]->Jmp_0 as int] == BFIsa::Ret(a as usize));
            }
            assert forall|k: int, l: int| 0 <= k < l < open.len() implies #[trigger] open[k]
                < #[trigger] open[l] by {
                assert(before[k] < before[l]);
            }
            assert forall|a: int|
                0 <= a < j && (#[trigger] code[a]) is Jmp && code[a]->Jmp_0 >= j implies exists|
                k: int,
            | 0 <= k < open.len() && #[trigger] open[k] == a by {
                let k = choose|k: int| 0 <= k < before.len() && #[trigger] before[k] == a;
                assert(closed_at(code, a));
                assert(a != t);
                assert(open[k] == a);
            }
        } else if code[i as int] is Jmp {
            assert(closed_at(code, i as int));
            assert forall|k: int| 0 <= k < open.len() implies (#[trigger] open[k]) < j
                && code[open[k] as int] is Jmp && code[open[k] as int]->Jmp_0 >= j by {
                if k < before.len() {
                    assert(open[k] == before[k]);
                    let a = before[k] as int;
                    assert(closed_at(code, a));
                    assert(code[code[a]->Jmp_0 as int] == BFIsa::Ret(a as usize));
                }
            }
            assert forall|k: int, l: int| 0 <= k < l < open.len() implies #[trigger] open[k]
                < #[trigger] open[l] by {
                assert(before[k] < i);
                if l < before.len() {
                    assert(before[k] < before[l]);
                }
            }
            assert forall|a: int|
                0 <= a < j && (#[trigger] code[a]) is Jmp && code[a]->Jmp_0 >= j implies exists|
                k: int,
            | 0 <= k < open.len() && #[trigger] open[k] == a by {
                if a < i {
                    let k = choose|k: int| 0 <= k < before.len() && #[trigger] before[k] == a;
                    assert(open[k] == a);
                } else {
                    assert(open[before.len() as int] == a);
                }
            }
        } else {
            assert forall|k: int| 0 <= k < open.len() implies (#[trigger] open[k]) < j
                && code[open[k] as int] is Jmp && code[open[k] as int]->Jmp_0 >= j by {
                let a = before[k] as int;
                assert(closed_at(code, a));
                assert(code[code[a]->Jmp_0 as int] == BFIsa::Ret(a as usize));
            }
            assert forall|a: int|
                0 <= a < j && (#[trigger] code[a]) is Jmp && code[a]->Jmp_0 >= j implies exists|
                k: int,
            | 0 <= k < open.len() && #[trigger] open[k] == a by {
                let k = choose|k: int| 0 <= k < before.len() && #[trigger] before[k] == a;
                assert(open[k] == a);
            }
        }
    }
}

/// What one more instruction adds to the veiled code: a `Ret` also gives
/// its `Jmp` the target.
proof fn lemma_veil_step(code: Seq<BFIsa>, j: int)
    requires
        canonical(code),
        0 <= j < code.len(),
    ensures
        veil(code, j + 1) == match code[j] {
            BFIsa::Ret(t) => veil(code, j).update(t as int, BFIsa::Jmp(j as usize)).push(BFIsa::Ret(t)),
            BFIsa::Jmp(_) => veil(code, j).push(BFIsa::Jmp(0)),
            other => veil(code, j).push(other),
        },
{
    let next = veil(code, j + 1);
    let made = match code[j] {
        BFIsa::Ret(t) => veil(code, j).update(t as int, BFIsa::Jmp(j as usize)).push(BFIsa::Ret(t)),
        BFIsa::Jmp(_) => veil(code, j).push(BFIsa::Jmp(0)),
        other => veil(code, j).push(other),
    };
    if code[j] is Jmp {
        assert(closed_at(code, j));
    }
    if code[j] is Ret {
        assert(code[code[j]->Ret_0 as int] == BFIsa::Jmp(j as usize));
    }
    assert(next.len() == made.len());
    assert forall|i: int| 0 <= i < next.len() implies next[i] == made[i] by {
        if i < j && code[i] is Jmp {
            assert(closed_at(code, i));
            assert(code[code[i]->Jmp_0 as int] == BFIsa::Ret(i as usize));
        }
    }
    assert(next =~= made);
}

/// The parser's state `s` is what it is after the source of the first `j`
/// instructions of `code`.
pub open spec fn shows(s: Folding, code: Seq<BFIsa>, j: nat) -> bool {
    &&& s.code == veil(code, j as int)
    &&& addrs(s.open) == open_at(code, j)
}

/// The source of one more instruction is read as that instruction.
proof fn lemma_replay_step(code: Seq<BFIsa>, j: nat, s: Folding, at: nat)
    requires
        canonical(code),
        j < code.len(),
        shows(s, code, j),
    ensures
        resume(s, written(code[j as int]), at) is Ok,
        shows(resume(s, written(code[j as int]), at)->Ok_0, code, j + 1),
{
    let instr = code[j as int];
    let n = j as int;
    lemma_veil_step(code, n);
    lemma_open_at(code, j);
    assert(s.code.len() == j);
    if j > 0 {
        assert(!run_at(code, n - 1));
        assert(s.code[n - 1] is Incr ==> code[n - 1] is Incr);
        assert(s.code[n - 1] is Mv ==> code[n - 1] is Mv);
    }
    match instr {
        BFIsa::Incr(k) => {
            lemma_resume_changes(s, k, at);
        },
        BFIsa::Mv(d) => {
            lemma_resume_moves(s, d, at);
        },
        BFIsa::Out => {
            lemma_resume_one(s, DOT, at);
        },
        BFIsa::In => {
            lemma_resume_one(s, COMMA, at);
        },
        BFIsa::LoopSetZero => {
            lemma_resume_clear(s, at);
        },
        BFIsa::LoopMvData(d) => {
            lemma_resume_transfer(s, d, at);
        },
        BFIsa::LoopMvPtr(d) => {
            lemma_resume_scan(s, d, at);
        },
        BFIsa::Jmp(_) => {
            lemma_resume_one(s, OPEN, at);
            let next = opened(s, at);
            assert(addrs(next.open) =~= open_at(code, j + 1));
        },
        BFIsa::Ret(t) => {
            lemma_resume_one(s, CLOSE, at);
            lemma_ret_closes_innermost(code, j);
            assert(s.open.len() == open_at(code, j).len());
            assert(addrs(s.open)[s.open.len() - 1] == s.open.last().0);
            assert(s.open.last().0 == t);
            let mid = s.code.update(t as int, BFIsa::Jmp(s.code.len() as usize));
            assert(same_shape(code.take(n), mid));
            lemma_idioms_by_shape(code.take(n), mid);
            assert(addrs(s.open.drop_last()) =~= open_at(code, j + 1));
        },
    }
    let next = resume(s, written(instr), at)->Ok_0;
    if !(instr is Jmp) && !(instr is Ret) {
        assert(next.open == s.open);
    }
}

/// The source of the first `j` instructions of `code` is read as these
/// instructions, with the loops that are not closed by then left open.
proof fn lemma_replay(code: Seq<BFIsa>, j: nat)
    requires
        canonical(code),
        j <= code.len(),
    ensures
        scan(unparse_spec(code.take(j as int)), unparse_spec(code.take(j as int)).len()) is Ok,
        shows(
            scan(unparse_spec(code.take(j as int)), unparse_spec(code.take(j as int)).len())->Ok_0,
            code,
            j,
        ),
    decreases j,
{
    if j == 0 {
        assert(veil(code, 0) =~= Seq::<BFIsa>::empty());
        assert(addrs(Seq::<Frame>::empty()) =~= Seq::<usize>::empty());
    } else {
        let i = (j - 1) as nat;
        lemma_replay(code, i);
        let head = unparse_spec(code.take(i as int));
        let s = scan(head, head.len())->Ok_0;
        assert(code.take(j as int).drop_last() =~= code.take(i as int));
        assert(code.take(j as int).last() == code[i as int]);
        lemma_scan_resume(head, written(code[i as int]));
        lemma_replay_step(code, i, s, head.len());
    }
}

/// A program that holds what the parser's programs hold is what the parser
/// makes of its source.
pub proof fn lemma_unparse_parses(code: Seq<BFIsa>)
    requires
        canonical(code),
    ensures
        parse_spec(unparse_spec(code)) == Ok::<Seq<BFIsa>, NestingErr>(code),
{
    let n = code.len();
    lemma_replay(code, n);
    lemma_open_at(code, n);
    assert(code.take(n as int) =~= code);
    let src = unparse_spec(code);
    let s = scan(src, src.len())->Ok_0;
    assert(veil(code, n as int) =~= code) by {
        assert forall|i: int| 0 <= i < n implies veil(code, n as int)[i] == code[i] by {
            if code[i] is Jmp {
                assert(closed_at(code, i));
            }
        }
    }
    if open_at(code, n).len() > 0 {
        let a = open_at(code, n)[0] as int;
        assert(closed_at(code, a));
    }
    assert(s.open.len() == addrs(s.open).len());
}

/// Parsing is idempotent: the program that the parser makes of a source,
/// written out again, is a source that the parser makes the same program
/// of.
pub proof fn lemma_parse_idempotent(src: Seq<u8>)
    requires
        src.len() <= usize::MAX,
        parse_spec(src) is Ok,
    ensures
        parse_spec(unparse_spec(parse_spec(src)->Ok_0)) == parse_spec(src),
{
    lemma_parse_folds_and_pairs(src);
    lemma_scan_keeps(src, src.len());
    lemma_scan_replayable(src, src.len());
    lemma_unparse_parses(parse_spec(src)->Ok_0);
}

/// Runs of `>` or of `<` for a move of the pointer by `d`: nothing for a
/// move by nothing.
pub open spec fn runs(d: int) -> Seq<u8> {
    if d > 0 {
        run_of(RIGHT, d as nat)
    } else {
        run_of(LEFT, (-d) as nat)
    }
}

/// The source of `instr` in runs alone: as `written`, but a change or a
/// move by nothing is written as nothing.
pub open spec fn written_bare(instr: BFIsa) -> Seq<u8> {
    match instr {
        BFIsa::Incr(n) => run_of(PLUS, n as nat),
        BFIsa::Mv(d) => runs(d as int),
        BFIsa::LoopMvData(d) => seq![OPEN, MINUS] + runs(d as int) + seq![PLUS] + runs(-(d as int))
            + seq![CLOSE],
        BFIsa::LoopMvPtr(d) => seq![OPEN] + runs(d as int) + seq![CLOSE],
        other => written(other),
    }
}

/// The source of the program `code` in runs alone.
pub open spec fn unparse_bare(code: Seq<BFIsa>) -> Seq<u8>
    decreases code.len(),
{
    if code.len() == 0 {
        Seq::empty()
    } else {
        unparse_bare(code.drop_last()) + written_bare(code.last())
    }
}

/// No change of the cell, no move and no offset in `code` is zero.
pub open spec fn no_zero(code: Seq<BFIsa>) -> bool {
    forall|i: int|
        0 <= i < code.len() ==> match #[trigger] code[i] {
            BFIsa::Incr(n) => n != 0,
            BFIsa::Mv(d) => d != 0,
            BFIsa::LoopMvData(d) => d != 0,
            BFIsa::LoopMvPtr(d) => d != 0,
            _ => true,
        }
}

/// Without a zero, the source in runs alone is the source that `unparse`
/// writes.
pub proof fn lemma_bare_is_unparse(code: Seq<BFIsa>)
    requires
        no_zero(code),
    ensures
        unparse_bare(code) == unparse_spec(code),
    decreases code.len(),
{
    if code.len() > 0 {
        assert(code.last() == code[code.len() - 1]);
        assert forall|i: int| 0 <= i < code.drop_last().len() implies match #[trigger] code.drop_last()[i] {
            BFIsa::Incr(n) => n != 0,
            BFIsa::Mv(d) => d != 0,
            BFIsa::LoopMvData(d) => d != 0,
            BFIsa::LoopMvPtr(d) => d != 0,
            _ => true,
        } by {
            assert(code.drop_last()[i] == code[i]);
        }
        lemma_bare_is_unparse(code.drop_last());
    }
}

/// The program that the parser makes of a source, where it holds no zero,
/// written out in runs alone, is a source that the parser makes the same
/// program of.
pub proof fn lemma_parse_idempotent_bare(src: Seq<u8>)
    requires
        src.len() <= usize::MAX,
        parse_spec(src) is Ok,
        no_zero(parse_spec(src)->Ok_0),
    ensures
        parse_spec(unparse_bare(parse_spec(src)->Ok_0)) == parse_spec(src),
{
    lemma_bare_is_unparse(parse_spec(src)->Ok_0);
    lemma_parse_idempotent(src);
}

/// Appends `count` times the byte `byte`.
fn push_run(out: &mut Vec<u8>, byte: u8, count: usize)
    ensures
        final(out)@ == old(out)@ + run_of(byte, count as nat),
{
    let mut done: usize = 0;
    assert(out@ =~= old(out)@ + run_of(byte, 0));
    while done < count
        invariant
            done <= count,
            out@ == old(out)@ + run_of(byte, done as nat),
        decreases count - done,
    {
        out.push(byte);
        done = done + 1;
        assert(out@ =~= old(out)@ + run_of(byte, done as nat));
    }
}

/// Appends a source for a move of the pointer by `d`.
fn push_moves(out: &mut Vec<u8>, d: isize, back: bool)
    ensures
        final(out)@ == old(out)@ + moves(
            if back {
                -(d as int)
            } else {
                d as int
            },
        ),
{
    if d == 0 {
        out.push(RIGHT);
        out.push(LEFT);
        assert(out@ =~= old(out)@ + seq![RIGHT, LEFT]);
    } else {
        let count: usize = if d > 0 {
            d as usize
        } else {
            (-(d + 1)) as usize + 1
        };
        let byte = if (d > 0) != back {
            RIGHT
        } else {
            LEFT
        };
        push_run(out, byte, count);
    }
}

/// Appends a source for the instruction `instr`.
fn push_written(out: &mut Vec<u8>, instr: BFIsa)
    ensures
        final(out)@ == old(out)@ + written(instr),
{
    match instr {
        BFIsa::Incr(n) => {
            if n == 0 {
                out.push(PLUS);
                out.push(MINUS);
                assert(out@ =~= old(out)@ + seq![PLUS, MINUS]);
            } else {
                push_run(out, PLUS, n as usize);
            }
        },
        BFIsa::Out => {
            out.push(DOT);
            assert(out@ =~= old(out)@ + seq![DOT]);
        },
        BFIsa::In => {
            out.push(COMMA);
            assert(out@ =~= old(out)@ + seq![COMMA]);
        },
        BFIsa::Mv(d) => {
            push_moves(out, d, false);
        },
        BFIsa::LoopSetZero => {
            out.push(OPEN);
            out.push(MINUS);
            out.push(CLOSE);
            assert(out@ =~= old(out)@ + seq![OPEN, MINUS, CLOSE]);
        },
        BFIsa::LoopMvData(d) => {
            out.push(OPEN);
            out.push(MINUS);
            push_moves(out, d, false);
            out.push(PLUS);
            push_moves(out, d, true);
            out.push(CLOSE);
            assert(out@ =~= old(out)@ + (seq![OPEN, MINUS] + moves(d as int) + seq![PLUS] + moves(
                -(d as int),
            ) + seq![CLOSE]));
        },
        BFIsa::LoopMvPtr(d) => {
            out.push(OPEN);
            push_moves(out, d, false);
            out.push(CLOSE);
            assert(out@ =~= old(out)@ + (seq![OPEN] + moves(d as int) + seq![CLOSE]));
        },
        BFIsa::Jmp(_) => {
            out.push(OPEN);
            assert(out@ =~= old(out)@ + seq![OPEN]);
        },
        BFIsa::Ret(_) => {
            out.push(CLOSE);
            assert(out@ =~= old(out)@ + seq![CLOSE]);
        },
    }
}

/// Writes a source for the program `code`: runs of `+`, of `>` and of `<`
/// for the changes and moves, and for a loop instruction the shortest loop
/// that it replaces. Of a program of the parser, the parser makes the same
/// program again.
pub fn unparse(code: &Vec<BFIsa>) -> (src: Vec<u8>)
    ensures
        src@ == unparse_spec(code@),
        canonical(code@) ==> parse_spec(src@) == Ok::<Seq<BFIsa>, NestingErr>(code@),
{
    proof {
        if canonical(code@) {
            lemma_unparse_parses(code@);
        }
    }
    let mut out: Vec<u8> = Vec::new();
    let mut i: usize = 0;
    assert(code@.take(0) =~= Seq::<BFIsa>::empty());
    while i < code.len()
        invariant
            i <= code.len(),
            out@ == unparse_spec(code@.take(i as int)),
        decreases code.len() - i,
    {
        push_written(&mut out, code[i]);
        assert(code@.take(i + 1).drop_last() =~= code@.take(i as int));
        i = i + 1;
    }
    assert(code@.take(i as int) =~= code@);
    out
}

} // verus!
