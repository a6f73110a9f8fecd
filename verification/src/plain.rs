//! The parser without its loop instructions: it folds runs and pairs
//! brackets only, and what it makes is the folding parser's program with
//! the loop instructions written out.

use vstd::prelude::*;
use crate::isa::BFIsa;
use crate::machine::{cell_add, machine_ok, run_spec, Exit, Machine};
use crate::pairing::{
    closed_at, folding_ok, is_open, lemma_parse_folds_and_pairs, lemma_scan_keeps,
    lemma_tail_jmp_is_innermost, patched,
};
use crate::unparse::{lemma_parse_idempotent, lemma_scan_replayable, unparse_spec};
use crate::parse::{
    close_loop, ends_in_clear, ends_in_scan, ends_in_transfer, feed,
    parse_spec, scan, Folding, NestingErr, CLOSE, COMMA, DOT, LEFT, MINUS, OPEN, PLUS,
    RIGHT,
};
use crate::unfold::{
    lemma_pos_grows, lemma_unfold_len, lemma_unfolded_runs, piece, placed, pos, same_end,
    unfold_to, unfolded, width,
};

verus! {

/// The plain parser's state after the byte `byte`, read at source position
/// `at`: as `feed`, but a `]` always becomes a `Ret`.
pub open spec fn feed_plain(st: Folding, at: usize, byte: u8) -> Result<Folding, NestingErr> {
    if byte == CLOSE {
        if st.open.len() == 0 {
            Err(NestingErr("] @", at))
        } else {
            Ok(
                Folding {
                    code: patched(st).push(BFIsa::Ret(st.open.last().0)),
                    open: st.open.drop_last(),
                },
            )
        }
    } else {
        feed(st, at, byte)
    }
}

/// The plain parser's state after the first `n` bytes of `src`.
pub open spec fn scan_plain(src: Seq<u8>, n: nat) -> Result<Folding, NestingErr>
    decreases n,
{
    if n == 0 {
        Ok(Folding { code: Seq::empty(), open: Seq::empty() })
    } else {
        match scan_plain(src, (n - 1) as nat) {
            Err(e) => Err(e),
            Ok(st) => feed_plain(st, (n - 1) as usize, src[n - 1]),
        }
    }
}

/// The program that `src` stands for with runs folded and brackets paired,
/// and no loop instructions; or the bracket that has no partner.
pub open spec fn parse_plain(src: Seq<u8>) -> Result<Seq<BFIsa>, NestingErr> {
    match scan_plain(src, src.len()) {
        Err(e) => Err(e),
        Ok(st) => if st.open.len() > 0 {
            Err(NestingErr("[ @", st.open.last().1))
        } else {
            Ok(st.code)
        },
    }
}

/// Programs that are as wide instruction by instruction have their
/// instructions at the same places.
proof fn lemma_pos_agree(p: Seq<BFIsa>, q: Seq<BFIsa>, j: nat)
    requires
        j <= p.len(),
        j <= q.len(),
        forall|i: int| 0 <= i < j ==> width(#[trigger] p[i]) == width(q[i]),
    ensures
        pos(p, j) == pos(q, j),
    decreases j,
{
    if j > 0 {
        lemma_pos_agree(p, q, (j - 1) as nat);
    }
}

/// Every branch among the first `n` instructions of `p` leads to one of the
/// first `n` instructions, or just behind them.
pub open spec fn targets_upto(p: Seq<BFIsa>, n: nat) -> bool {
    forall|i: int|
        0 <= i < n ==> match #[trigger] p[i] {
            BFIsa::Jmp(t) => t <= n,
            BFIsa::Ret(t) => t <= n,
            _ => true,
        }
}

/// Programs that begin alike are written out alike, as far as they are
/// alike.
proof fn lemma_unfold_agree(p: Seq<BFIsa>, q: Seq<BFIsa>, ns: Seq<u8>, ms: Seq<u8>, n: nat, m: nat)
    requires
        m <= n,
        n <= p.len(),
        n <= q.len(),
        forall|i: int| 0 <= i < n ==> #[trigger] p[i] == q[i],
        forall|i: int| 0 <= i < n && p[i] is LoopSetZero ==> #[trigger] ns[i] == ms[i],
        targets_upto(p, n),
    ensures
        unfold_to(p, ns, m) == unfold_to(q, ms, m),
    decreases m,
{
    if m > 0 {
        let i = (m - 1) as nat;
        lemma_unfold_agree(p, q, ns, ms, n, i);
        assert(p[i as int] == q[i as int]);
        lemma_pos_agree(p, q, i);
        match p[i as int] {
            BFIsa::Jmp(t) => {
                lemma_pos_agree(p, q, t as nat);
            },
            BFIsa::Ret(t) => {
                lemma_pos_agree(p, q, t as nat);
            },
            BFIsa::LoopSetZero => {
                assert(ns[i as int] == ms[i as int]);
            },
            _ => {},
        }
        assert(piece(p, ns, i) == piece(q, ms, i));
    }
}

/// Giving a `Jmp` its target gives the written-out `Jmp` the place of that
/// target.
proof fn lemma_unfold_patch(p: Seq<BFIsa>, ns: Seq<u8>, a: nat, t: usize, m: nat)
    requires
        a < p.len(),
        m <= p.len(),
        p[a as int] is Jmp,
        t <= p.len(),
        targets_upto(p, p.len()),
    ensures
        unfold_to(p.update(a as int, BFIsa::Jmp(t)), ns, m) == if a < m {
            unfold_to(p, ns, m).update(pos(p, a) as int, BFIsa::Jmp(pos(p, t as nat) as usize))
        } else {
            unfold_to(p, ns, m)
        },
    decreases m,
{
    let q = p.update(a as int, BFIsa::Jmp(t));
    if m > 0 {
        let i = (m - 1) as nat;
        lemma_unfold_patch(p, ns, a, t, i);
        lemma_unfold_len(p, ns, i);
        lemma_pos_agree(q, p, i);
        lemma_pos_agree(q, p, t as nat);
        if a <= i {
            lemma_pos_grows(p, a, i);
        }
        if i == a {
            assert(piece(q, ns, i) == seq![BFIsa::Jmp(pos(p, t as nat) as usize)]);
            assert(piece(p, ns, i).len() == 1);
            assert(unfold_to(q, ns, m) =~= unfold_to(p, ns, m).update(
                pos(p, a) as int,
                BFIsa::Jmp(pos(p, t as nat) as usize),
            ));
        } else {
            match p[i as int] {
                BFIsa::Jmp(u) => {
                    lemma_pos_agree(q, p, u as nat);
                },
                BFIsa::Ret(u) => {
                    lemma_pos_agree(q, p, u as nat);
                },
                _ => {},
            }
            assert(piece(q, ns, i) == piece(p, ns, i));
            if a < i {
                assert(unfold_to(q, ns, m) =~= unfold_to(p, ns, m).update(
                    pos(p, a) as int,
                    BFIsa::Jmp(pos(p, t as nat) as usize),
                ));
            }
        }
    }
}

/// The plain parser's state `g` is the folding parser's state `f` with the
/// loop instructions written out, the clearing loops with the changes
/// `ns`: the code is, and the open brackets stand at the written-out
/// places.
pub open spec fn mirrors(f: Folding, g: Folding, ns: Seq<u8>) -> bool {
    &&& ns.len() == f.code.len()
    &&& g.code == unfolded(f.code, ns)
    &&& g.open.len() == f.open.len()
    &&& forall|k: int|
        0 <= k < f.open.len() ==> (#[trigger] g.open[k]).0 == pos(f.code, f.open[k].0 as nat)
            && g.open[k].1 == f.open[k].1
}

/// The branches of the folding parser's code lead into the code.
proof fn lemma_targets(f: Folding)
    requires
        folding_ok(f),
    ensures
        targets_upto(f.code, f.code.len()),
{
    assert forall|i: int| 0 <= i < f.code.len() implies match #[trigger] f.code[i] {
        BFIsa::Jmp(t) => t <= f.code.len(),
        BFIsa::Ret(t) => t <= f.code.len(),
        _ => true,
    } by {
        if f.code[i] is Jmp {
            if is_open(f.open, i) {
                let k = choose|k: int| 0 <= k < f.open.len() && (#[trigger] f.open[k]).0 == i;
                assert(f.code[f.open[k].0 as int] == BFIsa::Jmp(0));
            } else {
                assert(closed_at(f.code, i));
            }
        }
    }
}

/// One more instruction is written out behind the others.
proof fn lemma_unfold_push(p: Seq<BFIsa>, ns: Seq<u8>, x: BFIsa, c: u8)
    requires
        ns.len() == p.len(),
        targets_upto(p, p.len()),
    ensures
        unfolded(p.push(x), ns.push(c)) == unfolded(p, ns) + piece(p.push(x), ns.push(c), p.len()),
        forall|j: nat| j <= p.len() ==> #[trigger] pos(p.push(x), j) == pos(p, j),
{
    let q = p.push(x);
    lemma_unfold_agree(q, p, ns.push(c), ns, p.len(), p.len());
    assert forall|j: nat| j <= p.len() implies #[trigger] pos(q, j) == pos(p, j) by {
        lemma_pos_agree(q, p, j);
    }
    assert(targets_upto(q, p.len()));
}

/// The last instruction that is written out as itself can be changed for
/// another such.
proof fn lemma_mirror_retail(f: Folding, g: Folding, ns: Seq<u8>, y: BFIsa)
    requires
        folding_ok(f),
        mirrors(f, g, ns),
        f.code.len() > 0,
        f.code.last() is Incr || f.code.last() is Mv,
        y is Incr || y is Mv,
    ensures
        g.code.len() > 0,
        g.code.last() == f.code.last(),
        mirrors(
            Folding { code: f.code.drop_last().push(y), open: f.open },
            Folding { code: g.code.drop_last().push(y), open: g.open },
            ns,
        ),
{
    let p = f.code;
    let n = (p.len() - 1) as nat;
    let q = p.drop_last().push(y);
    lemma_targets(f);
    assert(piece(p, ns, n) == seq![p.last()]);
    assert(piece(q, ns, n) == seq![y]);
    assert forall|i: int| 0 <= i < n implies match #[trigger] p[i] {
        BFIsa::Jmp(t) => t <= n,
        BFIsa::Ret(t) => t <= n,
        _ => true,
    } by {
        if p[i] is Jmp {
            if !is_open(f.open, i) {
                assert(closed_at(p, i));
                assert(p[p[i]->Jmp_0 as int] is Ret);
            } else {
                let k = choose|k: int| 0 <= k < f.open.len() && (#[trigger] f.open[k]).0 == i;
                assert(p[f.open[k].0 as int] == BFIsa::Jmp(0));
            }
        }
    }
    lemma_unfold_agree(p, q, ns, ns, n, n);
    lemma_unfold_len(p, ns, n);
    assert(g.code.drop_last() =~= unfold_to(p, ns, n));
    assert(g.code.drop_last().push(y) =~= unfolded(q, ns));
    assert forall|k: int| 0 <= k < f.open.len() implies pos(q, (#[trigger] f.open[k]).0 as nat)
        == pos(p, f.open[k].0 as nat) by {
        assert(p[f.open[k].0 as int] == BFIsa::Jmp(0));
        lemma_pos_agree(q, p, f.open[k].0 as nat);
    }
}

/// The written-out code ends in a change of the cell, or in a move, just
/// where the code does.
proof fn lemma_mirror_last(f: Folding, g: Folding, ns: Seq<u8>)
    requires
        mirrors(f, g, ns),
    ensures
        g.code.len() == 0 <==> f.code.len() == 0,
        f.code.len() > 0 && !(f.code.last() is Incr) ==> !(g.code.last() is Incr),
        f.code.len() > 0 && !(f.code.last() is Mv) ==> !(g.code.last() is Mv),
        f.code.len() <= g.code.len(),
{
    let p = f.code;
    lemma_unfold_len(p, ns, p.len());
    lemma_pos_grows(p, 0, p.len());
    lemma_len_at_least(p, p.len());
    if p.len() > 0 {
        let n = (p.len() - 1) as nat;
        lemma_unfold_len(p, ns, n);
        let last = piece(p, ns, n);
        assert(g.code.last() == last[last.len() - 1]);
    }
}

/// A written-out program is at least as long as the program.
proof fn lemma_len_at_least(p: Seq<BFIsa>, n: nat)
    requires
        n <= p.len(),
    ensures
        n <= pos(p, n),
    decreases n,
{
    if n > 0 {
        lemma_len_at_least(p, (n - 1) as nat);
    }
}

/// An instruction that is written out as itself is appended alike by both
/// parsers.
proof fn lemma_mirror_push(f: Folding, g: Folding, ns: Seq<u8>, x: BFIsa)
    requires
        folding_ok(f),
        mirrors(f, g, ns),
        x is Incr || x is Mv || x is Out || x is In,
    ensures
        mirrors(
            Folding { code: f.code.push(x), open: f.open },
            Folding { code: g.code.push(x), open: g.open },
            ns.push(0),
        ),
{
    lemma_targets(f);
    lemma_unfold_push(f.code, ns, x, 0);
    assert(piece(f.code.push(x), ns.push(0), f.code.len()) == seq![x]);
    assert(g.code.push(x) =~= unfolded(f.code, ns) + seq![x]);
    assert forall|k: int| 0 <= k < f.open.len() implies pos(
        f.code.push(x),
        (#[trigger] f.open[k]).0 as nat,
    ) == pos(f.code, f.open[k].0 as nat) by {
        assert(f.open[k].0 < f.code.len());
    }
}

/// A `[` is read alike by both parsers.
proof fn lemma_mirror_open(f: Folding, g: Folding, ns: Seq<u8>, at: usize)
    requires
        folding_ok(f),
        mirrors(f, g, ns),
        g.code.len() <= usize::MAX,
    ensures
        mirrors(
            Folding {
                code: f.code.push(BFIsa::Jmp(0)),
                open: f.open.push((f.code.len() as usize, at)),
            },
            Folding {
                code: g.code.push(BFIsa::Jmp(0)),
                open: g.open.push((g.code.len() as usize, at)),
            },
            ns.push(0),
        ),
{
    let x = BFIsa::Jmp(0);
    lemma_targets(f);
    lemma_mirror_last(f, g, ns);
    lemma_unfold_push(f.code, ns, x, 0);
    lemma_unfold_len(f.code, ns, f.code.len());
    assert(pos(f.code.push(x), 0) == 0);
    assert(piece(f.code.push(x), ns.push(0), f.code.len()) == seq![x]);
    assert(g.code.push(x) =~= unfolded(f.code, ns) + seq![x]);
    let f2 = f.open.push((f.code.len() as usize, at));
    let g2 = g.open.push((g.code.len() as usize, at));
    assert forall|k: int| 0 <= k < f2.len() implies (#[trigger] g2[k]).0 == pos(
        f.code.push(x),
        f2[k].0 as nat,
    ) && g2[k].1 == f2[k].1 by {
        if k < f.open.len() {
            assert(g2[k] == g.open[k]);
            assert(f2[k] == f.open[k]);
            assert(f.open[k].0 < f.code.len());
        }
    }
}

/// A `]` that becomes a `Ret` is read alike by both parsers.
proof fn lemma_mirror_ret(f: Folding, g: Folding, ns: Seq<u8>)
    requires
        folding_ok(f),
        mirrors(f, g, ns),
        f.open.len() > 0,
        g.code.len() <= usize::MAX,
    ensures
        mirrors(
            Folding { code: patched(f).push(BFIsa::Ret(f.open.last().0)), open: f.open.drop_last() },
            Folding { code: patched(g).push(BFIsa::Ret(g.open.last().0)), open: g.open.drop_last() },
            ns.push(0),
        ),
{
    let p = f.code;
    let n = p.len();
    let last = f.open.len() - 1;
    let addr = f.open[last].0;
    let fp = patched(f);
    let gp = patched(g);
    let x = BFIsa::Ret(addr);
    lemma_targets(f);
    lemma_mirror_last(f, g, ns);
    lemma_unfold_len(p, ns, n);
    assert(g.open[last].0 == pos(p, addr as nat));
    lemma_unfold_patch(p, ns, addr as nat, n as usize, n);
    assert(gp == unfolded(fp, ns));
    assert(targets_upto(fp, n));
    lemma_unfold_push(fp, ns, x, 0);
    lemma_pos_agree(fp.push(x), p, addr as nat);
    assert(piece(fp.push(x), ns.push(0), n) == seq![BFIsa::Ret(pos(p, addr as nat) as usize)]);
    assert(gp.push(BFIsa::Ret(g.open[last].0)) =~= unfolded(fp, ns) + seq![
        BFIsa::Ret(pos(p, addr as nat) as usize),
    ]);
    let f2 = f.open.drop_last();
    let g2 = g.open.drop_last();
    assert forall|k: int| 0 <= k < f2.len() implies (#[trigger] g2[k]).0 == pos(
        fp.push(x),
        f2[k].0 as nat,
    ) && g2[k].1 == f2[k].1 by {
        assert(g2[k] == g.open[k]);
        assert(f2[k] == f.open[k]);
        assert(f.open[k].0 < n);
        lemma_pos_agree(fp.push(x), p, f.open[k].0 as nat);
    }
}

/// In front of the innermost open bracket, the code that a fold leaves is
/// written out as it was, and the brackets that stay open stand where they
/// stood.
proof fn lemma_fold_front(f: Folding, g: Folding, ns: Seq<u8>, x: BFIsa, c: u8)
    requires
        folding_ok(f),
        mirrors(f, g, ns),
        f.open.len() > 0,
        forall|i: int|
            f.open.last().0 < i < f.code.len() ==> !((#[trigger] f.code[i]) is Jmp) && !(
            f.code[i] is Ret),
    ensures
        ({
            let addr = f.open.last().0 as nat;
            let q = f.code.take(addr as int).push(x);
            let ms = ns.take(addr as int).push(c);
            &&& unfold_to(q, ms, addr) == unfold_to(f.code, ns, addr)
            &&& pos(q, addr) == pos(f.code, addr)
            &&& unfold_to(f.code, ns, addr).len() == pos(f.code, addr)
            &&& g.open.last().0 == pos(f.code, addr)
            &&& g.open.drop_last().len() == f.open.drop_last().len()
            &&& forall|k: int|
                0 <= k < f.open.len() - 1 ==> (#[trigger] g.open.drop_last()[k]).0 == pos(
                    q,
                    f.open.drop_last()[k].0 as nat,
                ) && g.open.drop_last()[k].1 == f.open.drop_last()[k].1
        }),
{
    let p = f.code;
    let last = f.open.len() - 1;
    let addr = f.open[last].0 as nat;
    let q = p.take(addr as int).push(x);
    let ms = ns.take(addr as int).push(c);
    assert(g.open[last].0 == pos(p, addr));
    assert forall|i: int| 0 <= i < addr implies match #[trigger] q[i] {
        BFIsa::Jmp(t) => t <= addr,
        BFIsa::Ret(t) => t <= addr,
        _ => true,
    } by {
        assert(q[i] == p[i]);
        if p[i] is Jmp {
            if is_open(f.open, i) {
                let k = choose|k: int| 0 <= k < f.open.len() && (#[trigger] f.open[k]).0 == i;
                assert(p[f.open[k].0 as int] == BFIsa::Jmp(0));
            } else {
                assert(closed_at(p, i));
                assert(f.open[last].0 < i || f.open[last].0 > p[i]->Jmp_0);
            }
        }
    }
    lemma_unfold_agree(q, p, ms, ns, addr, addr);
    lemma_pos_agree(q, p, addr);
    lemma_unfold_len(p, ns, addr);
    assert forall|k: int| 0 <= k < f.open.len() - 1 implies (#[trigger] g.open.drop_last()[k]).0
        == pos(q, f.open.drop_last()[k].0 as nat) && g.open.drop_last()[k].1
        == f.open.drop_last()[k].1 by {
        assert(g.open.drop_last()[k] == g.open[k]);
        assert(f.open.drop_last()[k] == f.open[k]);
        assert(f.open[k].0 < f.open[last].0);
        lemma_pos_agree(q, p, f.open[k].0 as nat);
    }
}

/// A `]` that the folding parser makes `LoopSetZero` of closes, in the
/// plain parser, a loop that `LoopSetZero` is written out as.
proof fn lemma_mirror_clear(f: Folding, g: Folding, ns: Seq<u8>)
    requires
        folding_ok(f),
        mirrors(f, g, ns),
        f.open.len() > 0,
        g.code.len() <= usize::MAX,
        ends_in_clear(patched(f)),
    ensures
        mirrors(
            Folding {
                code: patched(f).take(f.code.len() - 2).push(BFIsa::LoopSetZero),
                open: f.open.drop_last(),
            },
            Folding { code: patched(g).push(BFIsa::Ret(g.open.last().0)), open: g.open.drop_last() },
            ns.take(f.code.len() - 2).push(f.code.last()->Incr_0),
        ),
{
    let p = f.code;
    let n = p.len();
    let a = (n - 2) as nat;
    lemma_tail_jmp_is_innermost(f, a as int);
    let c = p.last()->Incr_0;
    lemma_fold_front(f, g, ns, BFIsa::LoopSetZero, c);
    let q = p.take(a as int).push(BFIsa::LoopSetZero);
    let ms = ns.take(a as int).push(c);
    assert(patched(f).take(a as int) =~= p.take(a as int));
    assert(p[a as int] == BFIsa::Jmp(0));
    let front = unfold_to(p, ns, a);
    assert(unfold_to(p, ns, a + 1) == front + piece(p, ns, a));
    assert(unfold_to(p, ns, n) == unfold_to(p, ns, a + 1) + piece(p, ns, a + 1));
    assert(piece(p, ns, a) == seq![BFIsa::Jmp(0)]);
    assert(piece(p, ns, a + 1) == seq![p[(a + 1) as int]]);
    assert(unfolded(q, ms) == unfold_to(q, ms, a) + piece(q, ms, a));
    assert(patched(g).push(BFIsa::Ret(g.open.last().0)) =~= unfolded(q, ms));
}

/// A `]` that the folding parser makes `LoopMvPtr` of closes, in the plain
/// parser, the loop that `LoopMvPtr` is written out as.
proof fn lemma_mirror_scan(f: Folding, g: Folding, ns: Seq<u8>)
    requires
        folding_ok(f),
        mirrors(f, g, ns),
        f.open.len() > 0,
        g.code.len() <= usize::MAX,
        ends_in_scan(patched(f)),
    ensures
        mirrors(
            Folding {
                code: patched(f).take(f.code.len() - 2).push(
                    BFIsa::LoopMvPtr(f.code.last()->Mv_0),
                ),
                open: f.open.drop_last(),
            },
            Folding { code: patched(g).push(BFIsa::Ret(g.open.last().0)), open: g.open.drop_last() },
            ns.take(f.code.len() - 2).push(0),
        ),
{
    let p = f.code;
    let n = p.len();
    let a = (n - 2) as nat;
    lemma_tail_jmp_is_innermost(f, a as int);
    let x = BFIsa::LoopMvPtr(p.last()->Mv_0);
    lemma_fold_front(f, g, ns, x, 0);
    let q = p.take(a as int).push(x);
    let ms = ns.take(a as int).push(0);
    assert(patched(f).take(a as int) =~= p.take(a as int));
    assert(p[a as int] == BFIsa::Jmp(0));
    let front = unfold_to(p, ns, a);
    assert(unfold_to(p, ns, a + 1) == front + piece(p, ns, a));
    assert(unfold_to(p, ns, n) == unfold_to(p, ns, a + 1) + piece(p, ns, a + 1));
    assert(piece(p, ns, a) == seq![BFIsa::Jmp(0)]);
    assert(piece(p, ns, a + 1) == seq![p[(a + 1) as int]]);
    assert(unfolded(q, ms) == unfold_to(q, ms, a) + piece(q, ms, a));
    assert(patched(g).push(BFIsa::Ret(g.open.last().0)) =~= unfolded(q, ms));
}

/// A `]` that the folding parser makes `LoopMvData` of closes, in the
/// plain parser, the loop that `LoopMvData` is written out as.
proof fn lemma_mirror_transfer(f: Folding, g: Folding, ns: Seq<u8>)
    requires
        folding_ok(f),
        mirrors(f, g, ns),
        f.open.len() > 0,
        g.code.len() <= usize::MAX,
        ends_in_transfer(patched(f)),
    ensures
        mirrors(
            Folding {
                code: patched(f).take(f.code.len() - 5).push(
                    BFIsa::LoopMvData(f.code[f.code.len() - 3]->Mv_0),
                ),
                open: f.open.drop_last(),
            },
            Folding { code: patched(g).push(BFIsa::Ret(g.open.last().0)), open: g.open.drop_last() },
            ns.take(f.code.len() - 5).push(0),
        ),
{
    let p = f.code;
    let n = p.len();
    let a = (n - 5) as nat;
    lemma_tail_jmp_is_innermost(f, a as int);
    let x = BFIsa::LoopMvData(p[n - 3]->Mv_0);
    lemma_fold_front(f, g, ns, x, 0);
    let q = p.take(a as int).push(x);
    let ms = ns.take(a as int).push(0);
    assert(patched(f).take(a as int) =~= p.take(a as int));
    assert(p[a as int] == BFIsa::Jmp(0));
    let front = unfold_to(p, ns, a);
    assert(unfold_to(p, ns, a + 1) == front + piece(p, ns, a));
    assert(unfold_to(p, ns, a + 2) == unfold_to(p, ns, a + 1) + piece(p, ns, a + 1));
    assert(unfold_to(p, ns, a + 3) == unfold_to(p, ns, a + 2) + piece(p, ns, a + 2));
    assert(unfold_to(p, ns, a + 4) == unfold_to(p, ns, a + 3) + piece(p, ns, a + 3));
    assert(unfold_to(p, ns, n) == unfold_to(p, ns, a + 4) + piece(p, ns, a + 4));
    assert(piece(p, ns, a) == seq![BFIsa::Jmp(0)]);
    assert(piece(p, ns, a + 1) == seq![p[(a + 1) as int]]);
    assert(piece(p, ns, a + 2) == seq![p[(a + 2) as int]]);
    assert(piece(p, ns, a + 3) == seq![p[(a + 3) as int]]);
    assert(piece(p, ns, a + 4) == seq![p[(a + 4) as int]]);
    assert(unfolded(q, ms) == unfold_to(q, ms, a) + piece(q, ms, a));
    assert(patched(g).push(BFIsa::Ret(g.open.last().0)) =~= unfolded(q, ms));
}

/// What the byte `byte` makes of the plain parser's state `g` is what it
/// makes of the folding parser's state `f`, with the loop instructions
/// written out, the clearing loops with the changes `ms`; or both fail
/// alike.
pub open spec fn follows(f: Folding, g: Folding, at: usize, byte: u8, ms: Seq<u8>) -> bool {
    match feed(f, at, byte) {
        Ok(next) => feed_plain(g, at, byte) is Ok && mirrors(next, feed_plain(g, at, byte)->Ok_0, ms)
            && feed_plain(g, at, byte)->Ok_0.code.len() <= at + 1,
        Err(e) => feed_plain(g, at, byte) == Err::<Folding, NestingErr>(e),
    }
}

/// Both parsers read a `+` or a `-` alike.
proof fn lemma_feed_cell(f: Folding, g: Folding, ns: Seq<u8>, at: usize, byte: u8) -> (ms: Seq<u8>)
    requires
        folding_ok(f),
        mirrors(f, g, ns),
        g.code.len() <= at,
        byte == PLUS || byte == MINUS,
    ensures
        follows(f, g, at, byte, ms),
{
    lemma_mirror_last(f, g, ns);
    let delta: u8 = if byte == PLUS {
        1
    } else {
        255
    };
    if f.code.len() > 0 && f.code.last() is Incr {
        lemma_mirror_retail(f, g, ns, BFIsa::Incr(cell_add(f.code.last()->Incr_0, delta)));
        ns
    } else {
        lemma_mirror_push(f, g, ns, BFIsa::Incr(delta));
        ns.push(0)
    }
}

/// Both parsers read a `>` or a `<` alike.
proof fn lemma_feed_ptr(f: Folding, g: Folding, ns: Seq<u8>, at: usize, byte: u8) -> (ms: Seq<u8>)
    requires
        folding_ok(f),
        mirrors(f, g, ns),
        g.code.len() <= at,
        byte == RIGHT || byte == LEFT,
    ensures
        follows(f, g, at, byte, ms),
{
    lemma_mirror_last(f, g, ns);
    let delta: isize = if byte == RIGHT {
        1isize
    } else {
        -1isize
    };
    if f.code.len() > 0 && f.code.last() is Mv {
        lemma_mirror_retail(f, g, ns, BFIsa::Mv(f.code.last()->Mv_0.wrapping_add(delta)));
        ns
    } else {
        lemma_mirror_push(f, g, ns, BFIsa::Mv(delta));
        ns.push(0)
    }
}

/// Both parsers read a `.`, a `,`, a `[` and a byte that is no command
/// alike.
proof fn lemma_feed_other(f: Folding, g: Folding, ns: Seq<u8>, at: usize, byte: u8) -> (ms: Seq<u8>)
    requires
        folding_ok(f),
        mirrors(f, g, ns),
        g.code.len() <= at,
        byte != PLUS && byte != MINUS && byte != RIGHT && byte != LEFT && byte != CLOSE,
    ensures
        follows(f, g, at, byte, ms),
{
    if byte == DOT {
        lemma_mirror_push(f, g, ns, BFIsa::Out);
        ns.push(0)
    } else if byte == COMMA {
        lemma_mirror_push(f, g, ns, BFIsa::In);
        ns.push(0)
    } else if byte == OPEN {
        lemma_mirror_open(f, g, ns, at);
        ns.push(0)
    } else {
        ns
    }
}

/// A `]` adds one instruction to the plain parser's code.
proof fn lemma_plain_close_len(g: Folding, at: usize)
    requires
        g.open.len() > 0,
        g.open.last().0 < g.code.len(),
        g.code.len() <= at,
    ensures
        feed_plain(g, at, CLOSE) is Ok,
        feed_plain(g, at, CLOSE)->Ok_0.code.len() <= at + 1,
{
}

/// A `]` behind `[` and an odd change of the cell.
proof fn lemma_feed_close_clear(f: Folding, g: Folding, ns: Seq<u8>, at: usize) -> (ms: Seq<u8>)
    requires
        folding_ok(f),
        mirrors(f, g, ns),
        g.code.len() <= at,
        f.open.len() > 0,
        ends_in_clear(patched(f)),
    ensures
        follows(f, g, at, CLOSE, ms),
{
    let n = f.code.len();
    let mid = patched(f);
    assert(mid.len() == n);
    assert(f.open[f.open.len() - 1].0 < n);
    assert(g.open[g.open.len() - 1].0 == pos(f.code, f.open[f.open.len() - 1].0 as nat));
    lemma_pos_grows(f.code, f.open.last().0 as nat, n);
    lemma_unfold_len(f.code, ns, n);
    lemma_plain_close_len(g, at);
    assert(f.code[f.open.last().0 as int] == BFIsa::Jmp(0));
    lemma_mirror_clear(f, g, ns);
    let ms = ns.take(n - 2).push(f.code.last()->Incr_0);
    assert(feed(f, at, CLOSE) == Ok::<Folding, NestingErr>(
        Folding { code: close_loop(mid, f.open.last().0), open: f.open.drop_last() },
    ));
    ms
}

/// A `]` behind `[`, `-`, a move, `+`, and the move back.
proof fn lemma_feed_close_transfer(f: Folding, g: Folding, ns: Seq<u8>, at: usize) -> (ms: Seq<u8>)
    requires
        folding_ok(f),
        mirrors(f, g, ns),
        g.code.len() <= at,
        f.open.len() > 0,
        !ends_in_clear(patched(f)) && ends_in_transfer(patched(f)),
    ensures
        follows(f, g, at, CLOSE, ms),
{
    let n = f.code.len();
    let mid = patched(f);
    assert(mid.len() == n);
    assert(f.open[f.open.len() - 1].0 < n);
    assert(g.open[g.open.len() - 1].0 == pos(f.code, f.open[f.open.len() - 1].0 as nat));
    lemma_pos_grows(f.code, f.open.last().0 as nat, n);
    lemma_unfold_len(f.code, ns, n);
    lemma_plain_close_len(g, at);
    assert(f.code[f.open.last().0 as int] == BFIsa::Jmp(0));
    lemma_mirror_transfer(f, g, ns);
    let ms = ns.take(n - 5).push(0);
    assert(feed(f, at, CLOSE) == Ok::<Folding, NestingErr>(
        Folding { code: close_loop(mid, f.open.last().0), open: f.open.drop_last() },
    ));
    ms
}

/// A `]` behind `[` and a move.
proof fn lemma_feed_close_scan(f: Folding, g: Folding, ns: Seq<u8>, at: usize) -> (ms: Seq<u8>)
    requires
        folding_ok(f),
        mirrors(f, g, ns),
        g.code.len() <= at,
        f.open.len() > 0,
        !ends_in_clear(patched(f)) && !ends_in_transfer(patched(f)) && ends_in_scan(patched(f)),
    ensures
        follows(f, g, at, CLOSE, ms),
{
    let n = f.code.len();
    let mid = patched(f);
    assert(mid.len() == n);
    assert(f.open[f.open.len() - 1].0 < n);
    assert(g.open[g.open.len() - 1].0 == pos(f.code, f.open[f.open.len() - 1].0 as nat));
    lemma_pos_grows(f.code, f.open.last().0 as nat, n);
    lemma_unfold_len(f.code, ns, n);
    lemma_plain_close_len(g, at);
    assert(f.code[f.open.last().0 as int] == BFIsa::Jmp(0));
    lemma_mirror_scan(f, g, ns);
    let ms = ns.take(n - 2).push(0);
    assert(feed(f, at, CLOSE) == Ok::<Folding, NestingErr>(
        Folding { code: close_loop(mid, f.open.last().0), open: f.open.drop_last() },
    ));
    ms
}

/// A `]` behind anything else.
proof fn lemma_feed_close_ret(f: Folding, g: Folding, ns: Seq<u8>, at: usize) -> (ms: Seq<u8>)
    requires
        folding_ok(f),
        mirrors(f, g, ns),
        g.code.len() <= at,
        f.open.len() > 0,
        !ends_in_clear(patched(f)) && !ends_in_transfer(patched(f)) && !ends_in_scan(patched(f)),
    ensures
        follows(f, g, at, CLOSE, ms),
{
    let n = f.code.len();
    let mid = patched(f);
    assert(mid.len() == n);
    assert(f.open[f.open.len() - 1].0 < n);
    assert(g.open[g.open.len() - 1].0 == pos(f.code, f.open[f.open.len() - 1].0 as nat));
    lemma_pos_grows(f.code, f.open.last().0 as nat, n);
    lemma_unfold_len(f.code, ns, n);
    lemma_plain_close_len(g, at);
    assert(f.code[f.open.last().0 as int] == BFIsa::Jmp(0));
    lemma_mirror_ret(f, g, ns);
    let ms = ns.push(0);
    assert(feed(f, at, CLOSE) == Ok::<Folding, NestingErr>(
        Folding { code: close_loop(mid, f.open.last().0), open: f.open.drop_last() },
    ));
    ms
}

/// The plain parser closes with a `]` the loop that the folding parser's
/// instruction for it is written out as.
proof fn lemma_feed_close(f: Folding, g: Folding, ns: Seq<u8>, at: usize) -> (ms: Seq<u8>)
    requires
        folding_ok(f),
        mirrors(f, g, ns),
        g.code.len() <= at,
    ensures
        follows(f, g, at, CLOSE, ms),
{
    if f.open.len() == 0 {
        ns
    } else {
        let mid = patched(f);
        if ends_in_clear(mid) {
            lemma_feed_close_clear(f, g, ns, at)
        } else if ends_in_transfer(mid) {
            lemma_feed_close_transfer(f, g, ns, at)
        } else if ends_in_scan(mid) {
            lemma_feed_close_scan(f, g, ns, at)
        } else {
            lemma_feed_close_ret(f, g, ns, at)
        }
    }
}

/// What one byte makes of the plain parser's state is what it makes of
/// the folding parser's state, with the loop instructions written out.
proof fn lemma_feed_mirrors(f: Folding, g: Folding, ns: Seq<u8>, at: usize, byte: u8) -> (ms: Seq<u8>)
    requires
        folding_ok(f),
        mirrors(f, g, ns),
        g.code.len() <= at,
    ensures
        follows(f, g, at, byte, ms),
{
    if byte == PLUS || byte == MINUS {
        lemma_feed_cell(f, g, ns, at, byte)
    } else if byte == RIGHT || byte == LEFT {
        lemma_feed_ptr(f, g, ns, at, byte)
    } else if byte == CLOSE {
        lemma_feed_close(f, g, ns, at)
    } else {
        lemma_feed_other(f, g, ns, at, byte)
    }
}

/// After every prefix of the source, the plain parser's state is the
/// folding parser's state with the loop instructions written out, and both
/// fail alike.
proof fn lemma_scan_mirrors(src: Seq<u8>, n: nat) -> (ns: Seq<u8>)
    requires
        n <= src.len() <= usize::MAX,
    ensures
        match scan(src, n) {
            Ok(f) => scan_plain(src, n) is Ok && mirrors(f, scan_plain(src, n)->Ok_0, ns)
                && scan_plain(src, n)->Ok_0.code.len() <= n,
            Err(e) => scan_plain(src, n) == Err::<Folding, NestingErr>(e),
        },
    decreases n,
{
    if n == 0 {
        let ns = Seq::<u8>::empty();
        assert(unfolded(Seq::<BFIsa>::empty(), ns) =~= Seq::<BFIsa>::empty());
        ns
    } else {
        let before = lemma_scan_mirrors(src, (n - 1) as nat);
        match scan(src, (n - 1) as nat) {
            Ok(f) => {
                lemma_scan_keeps(src, (n - 1) as nat);
                lemma_feed_mirrors(
                    f,
                    scan_plain(src, (n - 1) as nat)->Ok_0,
                    before,
                    (n - 1) as usize,
                    src[n - 1],
                )
            },
            Err(_) => before,
        }
    }
}

/// The plain parser makes of a source the folding parser's program with
/// the loop instructions written out, each clearing loop with the change
/// of the cell that the source has; and both parsers fail alike.
pub proof fn lemma_parse_plain_unfolds(src: Seq<u8>) -> (ns: Seq<u8>)
    requires
        src.len() <= usize::MAX,
    ensures
        match parse_spec(src) {
            Ok(p) => parse_plain(src) == Ok::<Seq<BFIsa>, NestingErr>(unfolded(p, ns)),
            Err(e) => parse_plain(src) == Err::<Seq<BFIsa>, NestingErr>(e),
        },
{
    let ns = lemma_scan_mirrors(src, src.len());
    if scan(src, src.len()) is Ok {
        let f = scan(src, src.len())->Ok_0;
        let g = scan_plain(src, src.len())->Ok_0;
        if f.open.len() > 0 {
            assert(g.open[g.open.len() - 1].1 == f.open[f.open.len() - 1].1);
        }
    }
    ns
}

/// Folding keeps what a program does: where the program that the plain
/// parser makes of a source ends, on whatever pointer, tape and input it
/// was started from its first instruction, the program that the folding
/// parser makes of the source ends too, and has left the same pointer and
/// tape, written the same bytes, and read as many.
pub proof fn lemma_folding_keeps_runs(src: Seq<u8>, m: Machine, input: Seq<u8>, fuel: nat) -> (steps:
    nat)
    requires
        src.len() <= usize::MAX,
        parse_spec(src) is Ok,
        machine_ok(m),
        m.pc == 0,
        parse_plain(src) is Ok ==> run_spec(parse_plain(src)->Ok_0, m, input, fuel).exit
            == Exit::Halted,
    ensures
        parse_plain(src) is Ok,
        same_end(
            run_spec(parse_spec(src)->Ok_0, m, input, steps),
            run_spec(parse_plain(src)->Ok_0, m, input, fuel),
        ),
{
    let p = parse_spec(src)->Ok_0;
    let ns = lemma_parse_plain_unfolds(src);
    let again = lemma_scan_mirrors(src, src.len());
    lemma_parse_folds_and_pairs(src);
    lemma_scan_keeps(src, src.len());
    lemma_scan_replayable(src, src.len());
    lemma_unfold_len(p, ns, p.len());
    assert(placed(p, m) == m);
    lemma_unfolded_runs(p, ns, m, input, fuel)
}

/// A program that is written out and read again without folding does what
/// it did: where the program that the plain parser makes of the written
/// source ends, the program itself ends too, and has left the same pointer
/// and tape, written the same bytes, and read as many.
pub proof fn lemma_written_runs_alike(src: Seq<u8>, m: Machine, input: Seq<u8>, fuel: nat) -> (steps:
    nat)
    requires
        src.len() <= usize::MAX,
        parse_spec(src) is Ok,
        unparse_spec(parse_spec(src)->Ok_0).len() <= usize::MAX,
        machine_ok(m),
        m.pc == 0,
        parse_plain(unparse_spec(parse_spec(src)->Ok_0)) is Ok ==> run_spec(
            parse_plain(unparse_spec(parse_spec(src)->Ok_0))->Ok_0,
            m,
            input,
            fuel,
        ).exit == Exit::Halted,
    ensures
        parse_plain(unparse_spec(parse_spec(src)->Ok_0)) is Ok,
        same_end(
            run_spec(parse_spec(src)->Ok_0, m, input, steps),
            run_spec(parse_plain(unparse_spec(parse_spec(src)->Ok_0))->Ok_0, m, input, fuel),
        ),
{
    let written = unparse_spec(parse_spec(src)->Ok_0);
    lemma_parse_idempotent(src);
    lemma_folding_keeps_runs(written, m, input, fuel)
}

} // verus!
