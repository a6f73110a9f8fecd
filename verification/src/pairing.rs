//! What holds of every program that the parser builds: runs are merged,
//! and every branch that is left names its partner.

use vstd::prelude::*;
use crate::isa::BFIsa;
use crate::parse::{
    bump_cell, bump_ptr, close_loop, ends_in_clear, ends_in_scan, ends_in_transfer, feed,
    parse_spec, scan, Folding, Frame, NestingErr, CLOSE, COMMA, DOT, LEFT, MINUS, OPEN, PLUS,
    RIGHT,
};

verus! {

/// Two cell changes, or two pointer moves, stand side by side at `i`.
pub open spec fn run_at(code: Seq<BFIsa>, i: int) -> bool {
    ||| code[i] is Incr && code[i + 1] is Incr
    ||| code[i] is Mv && code[i + 1] is Mv
}

/// No two neighbours of `code` are both `Incr`, or both `Mv`.
pub open spec fn folded(code: Seq<BFIsa>) -> bool {
    forall|i: int| 0 <= i < code.len() - 1 ==> !#[trigger] run_at(code, i)
}

/// The `Jmp` at `i` points forward at the `Ret` that points back at it.
pub open spec fn closed_at(code: Seq<BFIsa>, i: int) -> bool {
    &&& code[i] is Jmp
    &&& i < code[i]->Jmp_0 < code.len()
    &&& code[code[i]->Jmp_0 as int] == BFIsa::Ret(i as usize)
}

/// Every `Ret` points back at the `Jmp` that points forward at it.
pub open spec fn rets_ok(code: Seq<BFIsa>) -> bool {
    forall|i: int|
        0 <= i < code.len() && (#[trigger] code[i]) is Ret ==> code[i]->Ret_0 < i
            && code[code[i]->Ret_0 as int] == BFIsa::Jmp(i as usize)
}

/// Every branch of `code` has its partner: a `Jmp(t)` at `i` has `Ret(i)`
/// at `t`, behind it, and a `Ret(t)` at `i` has `Jmp(i)` at `t`, before it.
pub open spec fn paired(code: Seq<BFIsa>) -> bool {
    &&& forall|i: int| 0 <= i < code.len() && (#[trigger] code[i]) is Jmp ==> closed_at(code, i)
    &&& rets_ok(code)
}

/// The number of loops that are open behind the first `n` instructions of
/// `code`: the `Jmp`s among them, less the `Ret`s.
pub open spec fn open_loops(code: Seq<BFIsa>, n: nat) -> int
    decreases n,
{
    if n == 0 {
        0
    } else {
        open_loops(code, (n - 1) as nat) + if code[n - 1] is Jmp {
            1int
        } else if code[n - 1] is Ret {
            -1int
        } else {
            0int
        }
    }
}

/// Some `Ret` of `code` closes no loop.
pub open spec fn stray_ret(code: Seq<BFIsa>) -> bool {
    exists|i: int| 0 <= i < code.len() && (#[trigger] code[i]) is Ret && open_loops(code, i as nat) <= 0
}

/// No `Ret` of `code` closes a loop that is not open, and no loop is left
/// open at the end.
pub open spec fn balanced(code: Seq<BFIsa>) -> bool {
    &&& forall|n: nat| n <= code.len() ==> 0 <= #[trigger] open_loops(code, n)
    &&& open_loops(code, code.len()) == 0
}

/// Some open bracket has its `Jmp` at `i`.
pub open spec fn is_open(open: Seq<Frame>, i: int) -> bool {
    exists|k: int| 0 <= k < open.len() && (#[trigger] open[k]).0 == i
}

/// The open brackets stand in the code, outermost first, each at a `Jmp`
/// that still waits for its target.
pub open spec fn frames_ok(code: Seq<BFIsa>, open: Seq<Frame>) -> bool {
    &&& forall|k: int|
        0 <= k < open.len() ==> (#[trigger] open[k]).0 < code.len() && code[open[k].0 as int]
            == BFIsa::Jmp(0)
    &&& forall|j: int, k: int|
        0 <= j < k < open.len() ==> (#[trigger] open[j]).0 < (#[trigger] open[k]).0
}

/// Every `Jmp` is open or closed.
pub open spec fn jumps_ok(code: Seq<BFIsa>, open: Seq<Frame>) -> bool {
    forall|i: int|
        0 <= i < code.len() && (#[trigger] code[i]) is Jmp ==> is_open(open, i) || closed_at(
            code,
            i,
        )
}

/// No open bracket stands inside a closed loop.
pub open spec fn nested(code: Seq<BFIsa>, open: Seq<Frame>) -> bool {
    forall|i: int, k: int|
        0 <= i < code.len() && 0 <= k < open.len() && #[trigger] closed_at(code, i) ==> (
        #[trigger] open[k]).0 < i || open[k].0 > code[i]->Jmp_0
}

/// The count of open loops agrees with the open brackets: it is never
/// negative, it is `k` in front of the `k`-th open bracket, and it is the
/// number of open brackets at the end.
pub open spec fn depths_ok(st: Folding) -> bool {
    &&& forall|n: nat| n <= st.code.len() ==> 0 <= #[trigger] open_loops(st.code, n)
    &&& open_loops(st.code, st.code.len()) == st.open.len()
    &&& forall|k: int|
        0 <= k < st.open.len() ==> open_loops(st.code, (#[trigger] st.open[k]).0 as nat) == k
}

/// What the parser keeps true of its state between two bytes.
pub open spec fn folding_ok(st: Folding) -> bool {
    &&& folded(st.code)
    &&& rets_ok(st.code)
    &&& frames_ok(st.code, st.open)
    &&& jumps_ok(st.code, st.open)
    &&& nested(st.code, st.open)
    &&& depths_ok(st)
}

/// The count of open loops looks at nothing but which instructions are
/// `Jmp` and which are `Ret`.
proof fn lemma_open_loops_agree(a: Seq<BFIsa>, b: Seq<BFIsa>, n: nat)
    requires
        n <= a.len(),
        n <= b.len(),
        forall|i: int|
            0 <= i < n ==> ((#[trigger] a[i]) is Jmp <==> b[i] is Jmp) && (a[i] is Ret <==> b[i] is Ret),
    ensures
        open_loops(a, n) == open_loops(b, n),
    decreases n,
{
    if n > 0 {
        lemma_open_loops_agree(a, b, (n - 1) as nat);
        assert(a[n - 1] is Jmp <==> b[n - 1] is Jmp);
    }
}

/// The counts stay in order where the code keeps its length and its
/// branches.
proof fn lemma_depths_same_kinds(st: Folding, next: Seq<BFIsa>)
    requires
        depths_ok(st),
        next.len() == st.code.len(),
        forall|i: int|
            0 <= i < next.len() ==> ((#[trigger] next[i]) is Jmp <==> st.code[i] is Jmp) && (
            next[i] is Ret <==> st.code[i] is Ret),
        forall|k: int| 0 <= k < st.open.len() ==> (#[trigger] st.open[k]).0 < st.code.len(),
    ensures
        depths_ok(Folding { code: next, open: st.open }),
{
    assert forall|n: nat| n <= next.len() implies open_loops(next, n) == open_loops(
        st.code,
        n,
    ) by {
        lemma_open_loops_agree(next, st.code, n);
    }
    assert forall|k: int| 0 <= k < st.open.len() implies open_loops(
        next,
        (#[trigger] st.open[k]).0 as nat,
    ) == k by {
        assert(open_loops(next, st.open[k].0 as nat) == open_loops(st.code, st.open[k].0 as nat));
    }
}

/// The counts stay in order where `tail` replaces the code from `keep` on,
/// and the open brackets `open` all stand in front of `keep`.
proof fn lemma_depths_new_tail(st: Folding, keep: nat, tail: BFIsa, open: Seq<Frame>)
    requires
        depths_ok(st),
        keep <= st.code.len(),
        forall|k: int| 0 <= k < open.len() ==> (#[trigger] open[k]).0 < keep && open[k] == st.open[k],
        open.len() <= st.open.len(),
        open.len() == open_loops(st.code, keep) + if tail is Jmp {
            1int
        } else if tail is Ret {
            -1int
        } else {
            0int
        },
    ensures
        depths_ok(Folding { code: st.code.take(keep as int).push(tail), open }),
{
    let next = st.code.take(keep as int).push(tail);
    assert forall|n: nat| n <= keep implies open_loops(next, n) == open_loops(st.code, n) by {
        lemma_open_loops_agree(next, st.code, n);
    }
    assert(open_loops(next, (keep + 1) as nat) == open_loops(next, keep) + if tail is Jmp {
        1int
    } else if tail is Ret {
        -1int
    } else {
        0int
    });
    assert forall|n: nat| n <= next.len() implies 0 <= #[trigger] open_loops(next, n) by {
        if n <= keep {
            assert(open_loops(next, n) == open_loops(st.code, n));
        }
    }
    assert forall|k: int| 0 <= k < open.len() implies open_loops(
        next,
        (#[trigger] open[k]).0 as nat,
    ) == k by {
        assert(open_loops(next, open[k].0 as nat) == open_loops(st.code, open[k].0 as nat));
        assert(st.open[k] == open[k]);
    }
}

/// Merging a cell change into the tail keeps the parser's state in order.
proof fn lemma_bump_cell_keeps(st: Folding, delta: u8)
    requires
        folding_ok(st),
    ensures
        folding_ok(Folding { code: bump_cell(st.code, delta), open: st.open }),
{
    let code = st.code;
    let next = bump_cell(code, delta);
    let n = code.len() as int;
    if n > 0 && code.last() is Incr {
        lemma_depths_same_kinds(st, next);
    } else {
        assert(code.take(n) =~= code);
        lemma_depths_new_tail(st, n as nat, BFIsa::Incr(delta), st.open);
    }
    assert forall|i: int| 0 <= i < next.len() - 1 implies !#[trigger] run_at(next, i) by {
        if i < n - 1 {
            assert(!run_at(code, i));
        }
    }
    assert forall|i: int| 0 <= i < next.len() && (#[trigger] next[i]) is Jmp implies is_open(
        st.open,
        i,
    ) || closed_at(next, i) by {
        assert(code[i] is Jmp);
        if closed_at(code, i) {
            assert(code[code[i]->Jmp_0 as int] is Ret);
        }
    }
    assert forall|i: int| 0 <= i < next.len() && (#[trigger] next[i]) is Ret implies next[i]->Ret_0
        < i && next[next[i]->Ret_0 as int] == BFIsa::Jmp(i as usize) by {
        assert(code[i] is Ret);
    }
    assert forall|i: int, k: int|
        0 <= i < next.len() && 0 <= k < st.open.len() && #[trigger] closed_at(next, i) implies (
    #[trigger] st.open[k]).0 < i || st.open[k].0 > next[i]->Jmp_0 by {
        assert(code[i] is Jmp);
        assert(code[code[i]->Jmp_0 as int] is Ret);
        assert(closed_at(code, i));
    }
}

/// Merging a pointer move into the tail keeps the parser's state in order.
proof fn lemma_bump_ptr_keeps(st: Folding, delta: isize)
    requires
        folding_ok(st),
    ensures
        folding_ok(Folding { code: bump_ptr(st.code, delta), open: st.open }),
{
    let code = st.code;
    let next = bump_ptr(code, delta);
    let n = code.len() as int;
    if n > 0 && code.last() is Mv {
        lemma_depths_same_kinds(st, next);
    } else {
        assert(code.take(n) =~= code);
        lemma_depths_new_tail(st, n as nat, BFIsa::Mv(delta), st.open);
    }
    assert forall|i: int| 0 <= i < next.len() - 1 implies !#[trigger] run_at(next, i) by {
        if i < n - 1 {
            assert(!run_at(code, i));
        }
    }
    assert forall|i: int| 0 <= i < next.len() && (#[trigger] next[i]) is Jmp implies is_open(
        st.open,
        i,
    ) || closed_at(next, i) by {
        assert(code[i] is Jmp);
        if closed_at(code, i) {
            assert(code[code[i]->Jmp_0 as int] is Ret);
        }
    }
    assert forall|i: int| 0 <= i < next.len() && (#[trigger] next[i]) is Ret implies next[i]->Ret_0
        < i && next[next[i]->Ret_0 as int] == BFIsa::Jmp(i as usize) by {
        assert(code[i] is Ret);
    }
    assert forall|i: int, k: int|
        0 <= i < next.len() && 0 <= k < st.open.len() && #[trigger] closed_at(next, i) implies (
    #[trigger] st.open[k]).0 < i || st.open[k].0 > next[i]->Jmp_0 by {
        assert(code[i] is Jmp);
        assert(code[code[i]->Jmp_0 as int] is Ret);
        assert(closed_at(code, i));
    }
}

/// Appending an instruction that is neither a branch nor part of a run
/// keeps the parser's state in order.
proof fn lemma_push_keeps(st: Folding, x: BFIsa)
    requires
        folding_ok(st),
        !(x is Jmp),
        !(x is Ret),
        !(x is Incr),
        !(x is Mv),
    ensures
        folding_ok(Folding { code: st.code.push(x), open: st.open }),
{
    let code = st.code;
    let next = code.push(x);
    assert(code.take(code.len() as int) =~= code);
    lemma_depths_new_tail(st, code.len(), x, st.open);
    assert forall|i: int| 0 <= i < next.len() - 1 implies !#[trigger] run_at(next, i) by {
        if i < code.len() - 1 {
            assert(!run_at(code, i));
        }
    }
    assert forall|i: int| 0 <= i < next.len() && (#[trigger] next[i]) is Jmp implies is_open(
        st.open,
        i,
    ) || closed_at(next, i) by {
        assert(code[i] is Jmp);
        if closed_at(code, i) {
            assert(closed_at(next, i));
        }
    }
    assert forall|i: int| 0 <= i < next.len() && (#[trigger] next[i]) is Ret implies next[i]->Ret_0
        < i && next[next[i]->Ret_0 as int] == BFIsa::Jmp(i as usize) by {
        assert(code[i] is Ret);
    }
    assert forall|i: int, k: int|
        0 <= i < next.len() && 0 <= k < st.open.len() && #[trigger] closed_at(next, i) implies (
    #[trigger] st.open[k]).0 < i || st.open[k].0 > next[i]->Jmp_0 by {
        assert(code[i] is Jmp);
        assert(next[i]->Jmp_0 != code.len()) by {
            assert(next[code.len() as int] == x);
        }
        assert(closed_at(code, i));
    }
}

/// Opening a bracket keeps the counts in order.
proof fn lemma_depths_open(st: Folding, pos: usize)
    requires
        depths_ok(st),
        st.code.len() <= usize::MAX,
        forall|k: int| 0 <= k < st.open.len() ==> (#[trigger] st.open[k]).0 < st.code.len(),
    ensures
        depths_ok(
            Folding {
                code: st.code.push(BFIsa::Jmp(0)),
                open: st.open.push((st.code.len() as usize, pos)),
            },
        ),
{
    let code = st.code;
    let n = code.len();
    let next = code.push(BFIsa::Jmp(0));
    let open = st.open.push((n as usize, pos));
    assert forall|m: nat| m <= n implies open_loops(next, m) == open_loops(code, m) by {
        lemma_open_loops_agree(next, code, m);
    }
    assert(open_loops(next, (n + 1) as nat) == open_loops(next, n) + 1);
    assert forall|m: nat| m <= next.len() implies 0 <= #[trigger] open_loops(next, m) by {
        if m <= n {
            assert(open_loops(next, m) == open_loops(code, m));
        }
    }
    assert forall|k: int| 0 <= k < open.len() implies open_loops(
        next,
        (#[trigger] open[k]).0 as nat,
    ) == k by {
        if k < st.open.len() {
            assert(open[k] == st.open[k]);
            assert(open_loops(next, st.open[k].0 as nat) == open_loops(code, st.open[k].0 as nat));
        } else {
            assert(open_loops(next, n) == open_loops(code, n));
        }
    }
}

/// Opening a bracket keeps the parser's state in order.
proof fn lemma_open_keeps(st: Folding, pos: usize)
    requires
        folding_ok(st),
        st.code.len() <= usize::MAX,
    ensures
        folding_ok(
            Folding {
                code: st.code.push(BFIsa::Jmp(0)),
                open: st.open.push((st.code.len() as usize, pos)),
            },
        ),
{
    let code = st.code;
    let next = code.push(BFIsa::Jmp(0));
    let open = st.open.push((code.len() as usize, pos));
    let n = code.len() as int;
    assert(code.take(n) =~= code);
    lemma_depths_open(st, pos);
    assert forall|i: int| 0 <= i < next.len() - 1 implies !#[trigger] run_at(next, i) by {
        if i < code.len() - 1 {
            assert(!run_at(code, i));
        }
    }
    assert forall|i: int| 0 <= i < next.len() && (#[trigger] next[i]) is Jmp implies is_open(
        open,
        i,
    ) || closed_at(next, i) by {
        if i == n {
            assert(open[st.open.len() as int].0 == i);
        } else {
            assert(code[i] is Jmp);
            if is_open(st.open, i) {
                let k = choose|k: int| 0 <= k < st.open.len() && (#[trigger] st.open[k]).0 == i;
                assert(open[k].0 == i);
            } else {
                assert(closed_at(code, i));
                assert(closed_at(next, i));
            }
        }
    }
    assert forall|i: int| 0 <= i < next.len() && (#[trigger] next[i]) is Ret implies next[i]->Ret_0
        < i && next[next[i]->Ret_0 as int] == BFIsa::Jmp(i as usize) by {
        assert(code[i] is Ret);
    }
    assert forall|k: int| 0 <= k < open.len() implies (#[trigger] open[k]).0 < next.len()
        && next[open[k].0 as int] == BFIsa::Jmp(0) by {
        if k < st.open.len() {
            assert(st.open[k].0 < code.len());
        }
    }
    assert forall|j: int, k: int| 0 <= j < k < open.len() implies (#[trigger] open[j]).0 < (
    #[trigger] open[k]).0 by {
        assert(st.open[j].0 < code.len());
        if k < st.open.len() {
            assert(st.open[j].0 < st.open[k].0);
        }
    }
    assert forall|i: int, k: int|
        0 <= i < next.len() && 0 <= k < open.len() && #[trigger] closed_at(next, i) implies (
    #[trigger] open[k]).0 < i || open[k].0 > next[i]->Jmp_0 by {
        assert(i != n);
        assert(code[i] is Jmp);
        assert(next[i]->Jmp_0 != n);
        assert(closed_at(code, i));
        if k < st.open.len() {
            assert(st.open[k].0 < i || st.open[k].0 > code[i]->Jmp_0);
        }
    }
}

/// The code of `st` once the innermost open `Jmp` has its target.
pub open spec fn patched(st: Folding) -> Seq<BFIsa> {
    st.code.update(st.open.last().0 as int, BFIsa::Jmp(st.code.len() as usize))
}

/// A `Jmp` that only cell changes and pointer moves follow is the innermost
/// open one.
pub proof fn lemma_tail_jmp_is_innermost(st: Folding, j: int)
    requires
        folding_ok(st),
        st.open.len() > 0,
        0 <= j < st.code.len(),
        patched(st)[j] is Jmp,
        forall|i: int|
            j < i < st.code.len() ==> !((#[trigger] patched(st)[i]) is Jmp) && !(patched(st)[i] is Ret),
    ensures
        j == st.open.last().0,
{
    let last = st.open.len() - 1;
    let addr = st.open[last].0 as int;
    assert(patched(st)[addr] is Jmp);
    if addr < j {
        assert(st.code[j] is Jmp);
        if is_open(st.open, j) {
            let k = choose|k: int| 0 <= k < st.open.len() && (#[trigger] st.open[k]).0 == j;
            if k < last {
                assert(st.open[k].0 < st.open[last].0);
            }
        } else {
            assert(closed_at(st.code, j));
            let t = st.code[j]->Jmp_0 as int;
            assert(patched(st)[t] is Ret);
        }
    }
}

/// Replacing the innermost open loop, whose body holds no branch, by one
/// loop instruction keeps the parser's state in order.
proof fn lemma_fold_keeps(st: Folding, x: BFIsa)
    requires
        folding_ok(st),
        st.open.len() > 0,
        x is LoopSetZero || x is LoopMvData || x is LoopMvPtr,
        forall|i: int|
            st.open.last().0 < i < st.code.len() ==> !((#[trigger] st.code[i]) is Jmp) && !(
            st.code[i] is Ret),
    ensures
        folding_ok(
            Folding { code: st.code.take(st.open.last().0 as int).push(x), open: st.open.drop_last() },
        ),
{
    let code = st.code;
    let last = st.open.len() - 1;
    let addr = st.open[last].0 as int;
    let next = code.take(addr).push(x);
    let open = st.open.drop_last();
    assert forall|k: int| 0 <= k < open.len() implies (#[trigger] open[k]).0 < addr && open[k]
        == st.open[k] by {
        assert(st.open[k].0 < st.open[last].0);
    }
    lemma_depths_new_tail(st, addr as nat, x, open);
    assert forall|i: int| 0 <= i < next.len() - 1 implies !#[trigger] run_at(next, i) by {
        if i < addr - 1 {
            assert(!run_at(code, i));
        }
    }
    assert forall|k: int| 0 <= k < open.len() implies (#[trigger] open[k]).0 < next.len()
        && next[open[k].0 as int] == BFIsa::Jmp(0) by {
        assert(st.open[k].0 < st.open[last].0);
    }
    assert forall|j: int, k: int| 0 <= j < k < open.len() implies (#[trigger] open[j]).0 < (
    #[trigger] open[k]).0 by {
        assert(st.open[j].0 < st.open[k].0);
    }
    assert forall|i: int| 0 <= i < addr && closed_at(code, i) implies code[i]->Jmp_0 < addr by {
        assert(st.open[last].0 < i || st.open[last].0 > code[i]->Jmp_0);
    }
    assert forall|i: int| 0 <= i < next.len() && (#[trigger] next[i]) is Jmp implies is_open(
        open,
        i,
    ) || closed_at(next, i) by {
        assert(code[i] is Jmp);
        if is_open(st.open, i) {
            let k = choose|k: int| 0 <= k < st.open.len() && (#[trigger] st.open[k]).0 == i;
            assert(open[k].0 == i);
        } else {
            assert(closed_at(code, i));
            assert(closed_at(next, i));
        }
    }
    assert forall|i: int| 0 <= i < next.len() && (#[trigger] next[i]) is Ret implies next[i]->Ret_0
        < i && next[next[i]->Ret_0 as int] == BFIsa::Jmp(i as usize) by {
        assert(code[i] is Ret);
    }
    assert forall|i: int, k: int|
        0 <= i < next.len() && 0 <= k < open.len() && #[trigger] closed_at(next, i) implies (
    #[trigger] open[k]).0 < i || open[k].0 > next[i]->Jmp_0 by {
        assert(code[i] is Jmp);
        assert(closed_at(code, i));
        assert(st.open[k].0 < i || st.open[k].0 > code[i]->Jmp_0);
    }
}

/// Closing the innermost open loop with a `Ret` keeps the parser's state in
/// order.
proof fn lemma_ret_keeps(st: Folding)
    requires
        folding_ok(st),
        st.open.len() > 0,
        st.code.len() <= usize::MAX,
    ensures
        folding_ok(
            Folding { code: patched(st).push(BFIsa::Ret(st.open.last().0)), open: st.open.drop_last() },
        ),
{
    let code = st.code;
    let n = code.len() as int;
    let last = st.open.len() - 1;
    let addr = st.open[last].0 as int;
    let mid = patched(st);
    let next = mid.push(BFIsa::Ret(addr as usize));
    let open = st.open.drop_last();
    lemma_depths_same_kinds(st, mid);
    assert forall|k: int| 0 <= k < open.len() implies (#[trigger] open[k]).0 < n && open[k]
        == st.open[k] by {
        assert(st.open[k].0 < st.open[last].0);
    }
    assert(mid.take(n) =~= mid);
    lemma_depths_new_tail(Folding { code: mid, open: st.open }, n as nat, BFIsa::Ret(addr as usize), open);
    assert forall|i: int| 0 <= i < next.len() - 1 implies !#[trigger] run_at(next, i) by {
        if i < n - 1 {
            assert(!run_at(code, i));
        }
    }
    assert forall|k: int| 0 <= k < open.len() implies (#[trigger] open[k]).0 < next.len()
        && next[open[k].0 as int] == BFIsa::Jmp(0) by {
        assert(st.open[k].0 < st.open[last].0);
    }
    assert forall|j: int, k: int| 0 <= j < k < open.len() implies (#[trigger] open[j]).0 < (
    #[trigger] open[k]).0 by {
        assert(st.open[j].0 < st.open[k].0);
    }
    assert forall|i: int| 0 <= i < n && closed_at(code, i) implies closed_at(next, i) && i != addr
        && code[i]->Jmp_0 != addr by {
        assert(code[code[i]->Jmp_0 as int] is Ret);
    }
    assert forall|i: int| 0 <= i < next.len() && (#[trigger] next[i]) is Jmp implies is_open(
        open,
        i,
    ) || closed_at(next, i) by {
        if i == addr {
            assert(closed_at(next, i));
        } else {
            assert(code[i] is Jmp);
            if is_open(st.open, i) {
                let k = choose|k: int| 0 <= k < st.open.len() && (#[trigger] st.open[k]).0 == i;
                assert(open[k].0 == i);
            } else {
                assert(closed_at(code, i));
            }
        }
    }
    assert forall|i: int| 0 <= i < next.len() && (#[trigger] next[i]) is Ret implies next[i]->Ret_0
        < i && next[next[i]->Ret_0 as int] == BFIsa::Jmp(i as usize) by {
        if i < n {
            assert(code[i] is Ret);
            let t = code[i]->Ret_0 as int;
            assert(code[t] == BFIsa::Jmp(i as usize));
            assert(t != addr);
        }
    }
    assert forall|i: int, k: int|
        0 <= i < next.len() && 0 <= k < open.len() && #[trigger] closed_at(next, i) implies (
    #[trigger] open[k]).0 < i || open[k].0 > next[i]->Jmp_0 by {
        assert(st.open[k].0 < st.open[last].0);
        if i != addr {
            assert(code[i] is Jmp);
            assert(next[i]->Jmp_0 != n);
            assert(closed_at(code, i));
            assert(st.open[k].0 < i || st.open[k].0 > code[i]->Jmp_0);
        }
    }
}

/// Reading a `]` keeps the parser's state in order.
proof fn lemma_close_keeps(st: Folding)
    requires
        folding_ok(st),
        st.open.len() > 0,
        st.code.len() <= usize::MAX,
    ensures
        folding_ok(
            Folding { code: close_loop(patched(st), st.open.last().0), open: st.open.drop_last() },
        ),
        close_loop(patched(st), st.open.last().0).len() <= st.code.len() + 1,
{
    let code = st.code;
    let n = code.len() as int;
    let addr = st.open.last().0 as int;
    let mid = patched(st);
    assert(st.open[st.open.len() - 1].0 < n);
    if ends_in_clear(mid) {
        lemma_tail_jmp_is_innermost(st, n - 2);
        assert(mid.take(n - 2) =~= code.take(addr));
        lemma_fold_keeps(st, BFIsa::LoopSetZero);
    } else if ends_in_transfer(mid) {
        lemma_tail_jmp_is_innermost(st, n - 5);
        assert(mid.take(n - 5) =~= code.take(addr));
        lemma_fold_keeps(st, BFIsa::LoopMvData(mid[n - 3]->Mv_0));
    } else if ends_in_scan(mid) {
        lemma_tail_jmp_is_innermost(st, n - 2);
        assert(mid.take(n - 2) =~= code.take(addr));
        lemma_fold_keeps(st, BFIsa::LoopMvPtr(mid[n - 1]->Mv_0));
    } else {
        lemma_ret_keeps(st);
    }
}

/// One byte keeps the parser's state in order, and adds at most one
/// instruction.
pub proof fn lemma_feed_keeps(st: Folding, pos: usize, byte: u8)
    requires
        folding_ok(st),
        st.code.len() <= pos,
        feed(st, pos, byte) is Ok,
    ensures
        folding_ok(feed(st, pos, byte)->Ok_0),
        feed(st, pos, byte)->Ok_0.code.len() <= pos + 1,
{
    if byte == PLUS {
        lemma_bump_cell_keeps(st, 1);
    } else if byte == MINUS {
        lemma_bump_cell_keeps(st, 255);
    } else if byte == RIGHT {
        lemma_bump_ptr_keeps(st, 1);
    } else if byte == LEFT {
        lemma_bump_ptr_keeps(st, -1isize);
    } else if byte == DOT {
        lemma_push_keeps(st, BFIsa::Out);
    } else if byte == COMMA {
        lemma_push_keeps(st, BFIsa::In);
    } else if byte == OPEN {
        lemma_open_keeps(st, pos);
    } else if byte == CLOSE {
        lemma_close_keeps(st);
    }
}

/// Once a `]` has failed, the rest of the source changes nothing.
pub proof fn lemma_scan_stays_failed(src: Seq<u8>, n: nat, m: nat)
    requires
        n <= m,
        scan(src, n) is Err,
    ensures
        scan(src, m) == scan(src, n),
    decreases m,
{
    if n < m {
        lemma_scan_stays_failed(src, n, (m - 1) as nat);
    }
}

/// The parser's state is in order after every prefix of the source.
pub proof fn lemma_scan_keeps(src: Seq<u8>, n: nat)
    requires
        n <= src.len() <= usize::MAX,
        scan(src, n) is Ok,
    ensures
        folding_ok(scan(src, n)->Ok_0),
        scan(src, n)->Ok_0.code.len() <= n,
    decreases n,
{
    if n > 0 {
        lemma_scan_keeps(src, (n - 1) as nat);
        lemma_feed_keeps(scan(src, (n - 1) as nat)->Ok_0, (n - 1) as usize, src[n - 1]);
    }
}

/// In every program that the parser returns, no two cell changes and no two
/// pointer moves stand side by side, every branch has its partner, and
/// every `Ret` closes an open loop.
pub proof fn lemma_parse_folds_and_pairs(src: Seq<u8>)
    requires
        src.len() <= usize::MAX,
        parse_spec(src) is Ok,
    ensures
        folded(parse_spec(src)->Ok_0),
        paired(parse_spec(src)->Ok_0),
        balanced(parse_spec(src)->Ok_0),
{
    lemma_scan_keeps(src, src.len());
    let st = scan(src, src.len())->Ok_0;
    assert(balanced(st.code));
    assert forall|i: int| 0 <= i < st.code.len() && (#[trigger] st.code[i]) is Jmp implies closed_at(
        st.code,
        i,
    ) by {
        assert(!is_open(st.open, i));
    }
}

/// `k` times the byte `byte`.
pub open spec fn run_of(byte: u8, k: nat) -> Seq<u8> {
    Seq::new(k, |i: int| byte)
}

/// The first `n` of `k` plus signs fold into one change of the cell by `n`
/// modulo 256.
proof fn lemma_scan_plus_run(k: nat, n: nat)
    requires
        1 <= n <= k,
    ensures
        scan(run_of(PLUS, k), n) == Ok::<Folding, NestingErr>(
            Folding { code: seq![BFIsa::Incr((n % 256) as u8)], open: Seq::empty() },
        ),
    decreases n,
{
    let src = run_of(PLUS, k);
    if n == 1 {
        assert(scan(src, 0) == Ok::<Folding, NestingErr>(
            Folding { code: Seq::empty(), open: Seq::empty() },
        ));
        assert(bump_cell(Seq::empty(), 1) =~= seq![BFIsa::Incr(1)]);
    } else {
        lemma_scan_plus_run(k, (n - 1) as nat);
        let before = seq![BFIsa::Incr(((n - 1) % 256) as u8)];
        assert(bump_cell(before, 1) =~= seq![BFIsa::Incr((n % 256) as u8)]);
    }
}

/// A run of `k` plus signs is one change of the cell by `k` modulo 256: a
/// run of 256 is a change by nothing.
pub proof fn lemma_plus_run_folds(k: nat)
    requires
        1 <= k,
    ensures
        parse_spec(run_of(PLUS, k)) == Ok::<Seq<BFIsa>, NestingErr>(
            seq![BFIsa::Incr((k % 256) as u8)],
        ),
        parse_spec(run_of(PLUS, 256)) == Ok::<Seq<BFIsa>, NestingErr>(seq![BFIsa::Incr(0)]),
{
    lemma_scan_plus_run(k, k);
    lemma_scan_plus_run(256, 256);
}

} // verus!
