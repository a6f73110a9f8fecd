//! A program with its loop instructions written out as the loops they
//! stand for runs as the program itself.

use vstd::prelude::*;
use vstd::arithmetic::div_mod::lemma_mod_bound;
use crate::isa::BFIsa;
use crate::machine::{after, apply, machine_ok, run_spec, seek, wrap, Event, Exit, Machine, Run};
use crate::pairing::{closed_at, paired};
use crate::peephole::{
    first_zero, hop, lemma_hop_none, lemma_hop_period, lemma_hop_shift, lemma_seek_finds,
    lemma_transfer_round_keeps, lemma_wrap_back, transfer_round, transferred,
};
use crate::unparse::transfers_turn;

verus! {

/// The number of instructions that `instr` is written out as.
pub open spec fn width(instr: BFIsa) -> nat {
    match instr {
        BFIsa::LoopSetZero => 3,
        BFIsa::LoopMvData(_) => 6,
        BFIsa::LoopMvPtr(_) => 3,
        _ => 1,
    }
}

/// Where instruction `i` of `p` stands once the instructions in front of
/// it are written out.
pub open spec fn pos(p: Seq<BFIsa>, i: nat) -> nat
    decreases i,
{
    if i == 0 {
        0
    } else {
        pos(p, (i - 1) as nat) + width(p[i - 1])
    }
}

/// Instruction `i` of `p`, written out: a loop instruction as a loop that
/// it stands for, a branch with its target moved along, and any other as
/// it is. The loop for `LoopSetZero` changes the cell by `ns[i]`.
pub open spec fn piece(p: Seq<BFIsa>, ns: Seq<u8>, i: nat) -> Seq<BFIsa> {
    let at = pos(p, i);
    match p[i as int] {
        BFIsa::LoopSetZero => seq![
            BFIsa::Jmp((at + 2) as usize),
            BFIsa::Incr(ns[i as int]),
            BFIsa::Ret(at as usize),
        ],
        BFIsa::LoopMvData(d) => seq![
            BFIsa::Jmp((at + 5) as usize),
            BFIsa::Incr(255),
            BFIsa::Mv(d),
            BFIsa::Incr(1),
            BFIsa::Mv((-d) as isize),
            BFIsa::Ret(at as usize),
        ],
        BFIsa::LoopMvPtr(d) => seq![BFIsa::Jmp((at + 2) as usize), BFIsa::Mv(d), BFIsa::Ret(at as usize)],
        BFIsa::Jmp(t) => seq![BFIsa::Jmp(pos(p, t as nat) as usize)],
        BFIsa::Ret(t) => seq![BFIsa::Ret(pos(p, t as nat) as usize)],
        other => seq![other],
    }
}

/// The first `n` instructions of `p`, written out.
pub open spec fn unfold_to(p: Seq<BFIsa>, ns: Seq<u8>, n: nat) -> Seq<BFIsa>
    decreases n,
{
    if n == 0 {
        Seq::empty()
    } else {
        unfold_to(p, ns, (n - 1) as nat) + piece(p, ns, (n - 1) as nat)
    }
}

/// The program `p` without loop instructions: each is written out as a
/// loop that it stands for, a `LoopSetZero` at `i` with the change `ns[i]`
/// of the cell.
pub open spec fn unfolded(p: Seq<BFIsa>, ns: Seq<u8>) -> Seq<BFIsa> {
    unfold_to(p, ns, p.len())
}

/// Later instructions stand behind earlier ones.
pub proof fn lemma_pos_grows(p: Seq<BFIsa>, i: nat, n: nat)
    requires
        i <= n,
    ensures
        pos(p, i) <= pos(p, n),
        i < n ==> pos(p, i) + width(p[i as int]) <= pos(p, n),
    decreases n,
{
    if i < n {
        lemma_pos_grows(p, i, (n - 1) as nat);
    }
}

/// The written-out program holds the written-out instructions, each at
/// its place.
pub proof fn lemma_unfold_index(p: Seq<BFIsa>, ns: Seq<u8>, n: nat, i: nat, k: nat)
    requires
        i < n <= p.len(),
        k < width(p[i as int]),
    ensures
        unfold_to(p, ns, n).len() == pos(p, n),
        pos(p, i) + k < pos(p, n),
        unfold_to(p, ns, n)[(pos(p, i) + k) as int] == piece(p, ns, i)[k as int],
        piece(p, ns, i).len() == width(p[i as int]),
    decreases n,
{
    let last = (n - 1) as nat;
    lemma_unfold_len(p, ns, last);
    lemma_pos_grows(p, i, n);
    if i < last {
        lemma_unfold_index(p, ns, last, i, k);
    }
}

/// The written-out program is as long as the places say.
pub proof fn lemma_unfold_len(p: Seq<BFIsa>, ns: Seq<u8>, n: nat)
    requires
        n <= p.len(),
    ensures
        unfold_to(p, ns, n).len() == pos(p, n),
    decreases n,
{
    if n > 0 {
        lemma_unfold_len(p, ns, (n - 1) as nat);
    }
}

/// One step of a run that neither reads nor writes.
pub proof fn lemma_silent_step(txt: Seq<BFIsa>, m: Machine, input: Seq<u8>, fuel: nat)
    requires
        m.pc < txt.len(),
        !(txt[m.pc as int] is In),
        !(txt[m.pc as int] is Out),
    ensures
        fuel > 0 ==> run_spec(txt, m, input, fuel) == run_spec(
            txt,
            apply(txt[m.pc as int], m, None).0,
            input,
            (fuel - 1) as nat,
        ),
        fuel == 0 ==> run_spec(txt, m, input, fuel).exit != Exit::Halted,
{
    if fuel > 0 {
        let next = apply(txt[m.pc as int], m, None);
        let rest = run_spec(txt, next.0, input, (fuel - 1) as nat);
        assert(!(next.1 is Output));
        assert(run_spec(txt, m, input, fuel).output == rest.output);
    }
}

/// `txt` holds at `base` the loop `[`, a change of the cell by `n`, `]`.
pub open spec fn clear_at(txt: Seq<BFIsa>, base: nat, n: u8) -> bool {
    &&& base + 3 <= txt.len()
    &&& base + 3 <= usize::MAX
    &&& txt[base as int] == BFIsa::Jmp((base + 2) as usize)
    &&& txt[(base + 1) as int] == BFIsa::Incr(n)
    &&& txt[(base + 2) as int] == BFIsa::Ret(base as usize)
}

/// A run through the body of a clearing loop inside a program, where it
/// ends, goes on behind the loop with the cell cleared.
proof fn lemma_clear_inside_body(txt: Seq<BFIsa>, base: nat, n: u8, m: Machine, input: Seq<u8>, fuel: nat)
    -> (k: nat)
    requires
        clear_at(txt, base, n),
        machine_ok(m),
        m.pc == base + 1,
        run_spec(txt, m, input, fuel).exit == Exit::Halted,
    ensures
        1 <= k <= fuel,
        run_spec(txt, m, input, fuel) == run_spec(
            txt,
            Machine { pc: base + 3, ptr: m.ptr, heap: m.heap.update(m.ptr as int, 0) },
            input,
            (fuel - k) as nat,
        ),
    decreases fuel,
{
    let m1 = apply(txt[(base + 1) as int], m, None).0;
    lemma_silent_step(txt, m, input, fuel);
    assert(m1.pc == base + 2 && m1.ptr == m.ptr);
    let m2 = apply(txt[(base + 2) as int], m1, None).0;
    lemma_silent_step(txt, m1, input, (fuel - 1) as nat);
    if m1.heap[m.ptr as int] != 0 {
        assert(m2.pc == base + 1 && m2.ptr == m.ptr && m2.heap == m1.heap);
        let k = lemma_clear_inside_body(txt, base, n, m2, input, (fuel - 2) as nat);
        assert(m2.heap.update(m.ptr as int, 0) =~= m.heap.update(m.ptr as int, 0));
        k + 2
    } else {
        assert(m2.heap =~= m.heap.update(m.ptr as int, 0));
        assert(m2 == Machine { pc: base + 3, ptr: m.ptr, heap: m.heap.update(m.ptr as int, 0) });
        2
    }
}

/// A run through a clearing loop inside a program, where it ends, goes on
/// behind the loop with the cell cleared.
pub proof fn lemma_clear_inside(txt: Seq<BFIsa>, base: nat, n: u8, m: Machine, input: Seq<u8>, fuel: nat)
    -> (k: nat)
    requires
        clear_at(txt, base, n),
        machine_ok(m),
        m.pc == base,
        run_spec(txt, m, input, fuel).exit == Exit::Halted,
    ensures
        1 <= k <= fuel,
        run_spec(txt, m, input, fuel) == run_spec(
            txt,
            Machine { pc: base + 3, ptr: m.ptr, heap: m.heap.update(m.ptr as int, 0) },
            input,
            (fuel - k) as nat,
        ),
{
    let m1 = apply(txt[base as int], m, None).0;
    lemma_silent_step(txt, m, input, fuel);
    if m.heap[m.ptr as int] != 0 {
        assert(m1.pc == base + 1 && m1.ptr == m.ptr && m1.heap == m.heap);
        lemma_clear_inside_body(txt, base, n, m1, input, (fuel - 1) as nat) + 1
    } else {
        assert(m.heap =~= m.heap.update(m.ptr as int, 0));
        assert(m1 == Machine { pc: base + 3, ptr: m.ptr, heap: m.heap.update(m.ptr as int, 0) });
        1
    }
}

/// `txt` holds at `base` the loop `[`, `-`, a move by `d`, `+`, the move
/// back, `]`.
pub open spec fn transfer_at(txt: Seq<BFIsa>, base: nat, d: isize) -> bool {
    &&& base + 6 <= txt.len()
    &&& base + 6 <= usize::MAX
    &&& d != isize::MIN
    &&& txt[base as int] == BFIsa::Jmp((base + 5) as usize)
    &&& txt[(base + 1) as int] == BFIsa::Incr(255)
    &&& txt[(base + 2) as int] == BFIsa::Mv(d)
    &&& txt[(base + 3) as int] == BFIsa::Incr(1)
    &&& txt[(base + 4) as int] == BFIsa::Mv((-d) as isize)
    &&& txt[(base + 5) as int] == BFIsa::Ret(base as usize)
}

/// A run from the body of a transfer loop inside a program goes through
/// one round of it.
proof fn lemma_transfer_inside_round(
    txt: Seq<BFIsa>,
    base: nat,
    d: isize,
    m: Machine,
    input: Seq<u8>,
    fuel: nat,
)
    requires
        transfer_at(txt, base, d),
        machine_ok(m),
        m.pc == base + 1,
    ensures
        fuel >= 5 ==> run_spec(txt, m, input, fuel) == run_spec(
            txt,
            Machine {
                pc: if transfer_round(d, m).pc == 1 {
                    base + 1
                } else {
                    base + 6
                },
                ptr: m.ptr,
                heap: transfer_round(d, m).heap,
            },
            input,
            (fuel - 5) as nat,
        ),
        fuel < 5 ==> run_spec(txt, m, input, fuel).exit != Exit::Halted,
        machine_ok(transfer_round(d, m)),
{
    let len = m.heap.len() as int;
    let p = m.ptr as int;
    lemma_wrap_back(p, d as int, len);
    lemma_mod_bound(p + d as int, len);
    let m1 = apply(txt[(base + 1) as int], m, None).0;
    lemma_silent_step(txt, m, input, fuel);
    assert(m1.pc == base + 2 && m1.ptr == m.ptr);
    let m2 = apply(txt[(base + 2) as int], m1, None).0;
    lemma_silent_step(txt, m1, input, (fuel - 1) as nat);
    assert(m2.pc == base + 3 && m2.ptr == wrap(p, d as int, len) && m2.heap == m1.heap);
    let m3 = apply(txt[(base + 3) as int], m2, None).0;
    lemma_silent_step(txt, m2, input, (fuel - 2) as nat);
    assert(m3.pc == base + 4 && m3.ptr == m2.ptr);
    let m4 = apply(txt[(base + 4) as int], m3, None).0;
    lemma_silent_step(txt, m3, input, (fuel - 3) as nat);
    assert(m4.pc == base + 5 && m4.ptr == p && m4.heap == m3.heap);
    let m5 = apply(txt[(base + 5) as int], m4, None).0;
    lemma_silent_step(txt, m4, input, (fuel - 4) as nat);
    assert(m4.heap == transfer_round(d, m).heap);
    assert(m5 == Machine {
        pc: if transfer_round(d, m).pc == 1 {
            base + 1
        } else {
            base + 6
        },
        ptr: m.ptr,
        heap: transfer_round(d, m).heap,
    });
}

/// A run through the body of a transfer loop inside a program, where it
/// ends, goes on behind the loop with the cell added to the other one and
/// cleared.
proof fn lemma_transfer_inside_body(
    txt: Seq<BFIsa>,
    base: nat,
    d: isize,
    m: Machine,
    input: Seq<u8>,
    fuel: nat,
) -> (k: nat)
    requires
        transfer_at(txt, base, d),
        machine_ok(m),
        m.pc == base + 1,
        run_spec(txt, m, input, fuel).exit == Exit::Halted,
    ensures
        1 <= k <= fuel,
        run_spec(txt, m, input, fuel) == run_spec(
            txt,
            Machine { pc: base + 6, ptr: m.ptr, heap: transferred(d, m) },
            input,
            (fuel - k) as nat,
        ),
    decreases fuel,
{
    let round = transfer_round(d, m);
    lemma_transfer_inside_round(txt, base, d, m, input, fuel);
    lemma_transfer_round_keeps(d, m);
    if round.pc == 1 {
        let next = Machine { pc: base + 1, ptr: m.ptr, heap: round.heap };
        assert(transferred(d, next) == transferred(d, round));
        lemma_transfer_inside_body(txt, base, d, next, input, (fuel - 5) as nat) + 5
    } else {
        5
    }
}

/// A run through a transfer loop inside a program, where it ends, goes on
/// behind the loop with the cell added to the other one and cleared.
pub proof fn lemma_transfer_inside(
    txt: Seq<BFIsa>,
    base: nat,
    d: isize,
    m: Machine,
    input: Seq<u8>,
    fuel: nat,
) -> (k: nat)
    requires
        transfer_at(txt, base, d),
        machine_ok(m),
        m.pc == base,
        run_spec(txt, m, input, fuel).exit == Exit::Halted,
    ensures
        1 <= k <= fuel,
        run_spec(txt, m, input, fuel) == run_spec(
            txt,
            Machine { pc: base + 6, ptr: m.ptr, heap: transferred(d, m) },
            input,
            (fuel - k) as nat,
        ),
{
    let m1 = apply(txt[base as int], m, None).0;
    lemma_silent_step(txt, m, input, fuel);
    lemma_mod_bound(m.ptr as int + d as int, m.heap.len() as int);
    if m.heap[m.ptr as int] != 0 {
        assert(m1.pc == base + 1 && m1.ptr == m.ptr && m1.heap == m.heap);
        assert(transferred(d, m1) == transferred(d, m));
        lemma_transfer_inside_body(txt, base, d, m1, input, (fuel - 1) as nat) + 1
    } else {
        assert(m.heap =~= transferred(d, m));
        assert(m1 == Machine { pc: base + 6, ptr: m.ptr, heap: transferred(d, m) });
        1
    }
}

/// `txt` holds at `base` the loop `[`, a move by `d`, `]`.
pub open spec fn scan_at(txt: Seq<BFIsa>, base: nat, d: isize) -> bool {
    &&& base + 3 <= txt.len()
    &&& base + 3 <= usize::MAX
    &&& txt[base as int] == BFIsa::Jmp((base + 2) as usize)
    &&& txt[(base + 1) as int] == BFIsa::Mv(d)
    &&& txt[(base + 2) as int] == BFIsa::Ret(base as usize)
}

/// A run through the body of a scanning loop inside a program, where it
/// ends, goes on behind the loop at the first zero cell that the pointer
/// reaches.
proof fn lemma_scan_inside_body(txt: Seq<BFIsa>, base: nat, d: isize, m: Machine, input: Seq<u8>, fuel: nat)
    -> (r: (nat, nat))
    requires
        scan_at(txt, base, d),
        machine_ok(m),
        m.pc == base + 1,
        run_spec(txt, m, input, fuel).exit == Exit::Halted,
    ensures
        1 <= r.0 <= fuel,
        first_zero(m.heap, m.ptr as int, d as int, 1, r.1),
        run_spec(txt, m, input, fuel) == run_spec(
            txt,
            Machine {
                pc: base + 3,
                ptr: hop(m.ptr as int, d as int, m.heap.len() as int, r.1) as nat,
                heap: m.heap,
            },
            input,
            (fuel - r.0) as nat,
        ),
    decreases fuel,
{
    let len = m.heap.len() as int;
    let p = m.ptr as int;
    lemma_mod_bound(p + d as int, len);
    lemma_hop_none(wrap(p, d as int, len), d as int, len);
    lemma_hop_shift(p, d as int, len, 0);
    let m1 = apply(txt[(base + 1) as int], m, None).0;
    lemma_silent_step(txt, m, input, fuel);
    assert(m1.pc == base + 2 && m1.ptr == wrap(p, d as int, len) && m1.heap == m.heap);
    let m2 = apply(txt[(base + 2) as int], m1, None).0;
    lemma_silent_step(txt, m1, input, (fuel - 1) as nat);
    if m.heap[m1.ptr as int] != 0 {
        assert(m2.pc == base + 1 && m2.ptr == m1.ptr && m2.heap == m.heap);
        let rest = lemma_scan_inside_body(txt, base, d, m2, input, (fuel - 2) as nat);
        let j = rest.1 + 1;
        lemma_hop_shift(p, d as int, len, rest.1);
        assert forall|i: nat| 1 <= i < j implies m.heap[#[trigger] hop(p, d as int, len, i)] != 0 by {
            lemma_hop_shift(p, d as int, len, (i - 1) as nat);
            if i > 1 {
                assert(m.heap[hop(m2.ptr as int, d as int, len, (i - 1) as nat)] != 0);
            }
        }
        (rest.0 + 2, j)
    } else {
        assert(m2 == Machine { pc: base + 3, ptr: hop(p, d as int, len, 1) as nat, heap: m.heap });
        (2, 1)
    }
}

/// A run through a scanning loop inside a program, where it ends, goes on
/// behind the loop at the zero cell that `LoopMvPtr` finds.
pub proof fn lemma_scan_inside(txt: Seq<BFIsa>, base: nat, d: isize, m: Machine, input: Seq<u8>, fuel: nat)
    -> (k: nat)
    requires
        scan_at(txt, base, d),
        machine_ok(m),
        m.pc == base,
        run_spec(txt, m, input, fuel).exit == Exit::Halted,
    ensures
        1 <= k <= fuel,
        seek(m.heap, m.ptr as int, d as int, m.heap.len()) is Some,
        0 <= seek(m.heap, m.ptr as int, d as int, m.heap.len())->0 < m.heap.len(),
        run_spec(txt, m, input, fuel) == run_spec(
            txt,
            Machine {
                pc: base + 3,
                ptr: seek(m.heap, m.ptr as int, d as int, m.heap.len())->0 as nat,
                heap: m.heap,
            },
            input,
            (fuel - k) as nat,
        ),
{
    let len = m.heap.len() as int;
    let p = m.ptr as int;
    let m1 = apply(txt[base as int], m, None).0;
    lemma_silent_step(txt, m, input, fuel);
    lemma_hop_none(p, d as int, len);
    if m.heap[p] != 0 {
        assert(m1.pc == base + 1 && m1.ptr == m.ptr && m1.heap == m.heap);
        let r = lemma_scan_inside_body(txt, base, d, m1, input, (fuel - 1) as nat);
        let j = r.1;
        lemma_hop_period(p, d as int, len, j);
        let short = (j as int % len) as nat;
        if short < j {
            if short >= 1 {
                assert(m.heap[hop(p, d as int, len, short)] != 0);
            }
        }
        assert(first_zero(m.heap, p, d as int, 0, j)) by {
            assert forall|i: nat| i < j implies m.heap[#[trigger] hop(p, d as int, len, i)] != 0 by {
                if i >= 1 {
                    assert(m.heap[hop(p, d as int, len, i)] != 0);
                }
            }
        }
        lemma_seek_finds(m.heap, p, d as int, len as nat, j);
        lemma_mod_bound(p + j * d as int, len);
        r.0 + 1
    } else {
        assert(m1 == Machine { pc: base + 3, ptr: m.ptr, heap: m.heap });
        1
    }
}

/// What lets `p` be written out: its branches are paired, its transfers
/// have a way back, and the written-out program is not too long to have
/// its places in branches.
pub open spec fn fit(p: Seq<BFIsa>) -> bool {
    &&& paired(p)
    &&& transfers_turn(p)
    &&& pos(p, p.len()) <= usize::MAX
}

/// The machine `m` of `p`, at the same instruction of the written-out
/// program.
pub open spec fn placed(p: Seq<BFIsa>, m: Machine) -> Machine {
    Machine { pc: pos(p, m.pc), ptr: m.ptr, heap: m.heap }
}

/// Two runs ended, and left the same pointer and tape, wrote the same
/// bytes, and read as many.
pub open spec fn same_end(a: Run, b: Run) -> bool {
    &&& a.exit == Exit::Halted
    &&& b.exit == Exit::Halted
    &&& a.machine.ptr == b.machine.ptr
    &&& a.machine.heap == b.machine.heap
    &&& a.output == b.output
    &&& a.consumed == b.consumed
}

/// A step that both programs take alike keeps their runs alike.
proof fn lemma_same_after(ev: Event, read: nat, a: Run, b: Run)
    requires
        same_end(a, b),
    ensures
        same_end(after(ev, read, a), after(ev, read, b)),
{
}

/// Where instruction `i` of `p` stands in the written-out program, and
/// what stands there.
proof fn lemma_place(p: Seq<BFIsa>, ns: Seq<u8>, i: nat)
    requires
        fit(p),
        i < p.len(),
    ensures
        unfolded(p, ns).len() == pos(p, p.len()),
        pos(p, i + 1) == pos(p, i) + width(p[i as int]),
        pos(p, i + 1) <= pos(p, p.len()),
        match p[i as int] {
            BFIsa::LoopSetZero => clear_at(unfolded(p, ns), pos(p, i), ns[i as int]),
            BFIsa::LoopMvData(d) => transfer_at(unfolded(p, ns), pos(p, i), d),
            BFIsa::LoopMvPtr(d) => scan_at(unfolded(p, ns), pos(p, i), d),
            BFIsa::Jmp(t) => {
                &&& t < p.len()
                &&& pos(p, (t + 1) as nat) == pos(p, t as nat) + 1
                &&& unfolded(p, ns)[pos(p, i) as int] == BFIsa::Jmp(pos(p, t as nat) as usize)
            },
            BFIsa::Ret(t) => {
                &&& t < p.len()
                &&& pos(p, (t + 1) as nat) == pos(p, t as nat) + 1
                &&& unfolded(p, ns)[pos(p, i) as int] == BFIsa::Ret(pos(p, t as nat) as usize)
            },
            other => unfolded(p, ns)[pos(p, i) as int] == other,
        },
{
    let n = p.len();
    lemma_unfold_len(p, ns, n);
    lemma_pos_grows(p, i + 1, n);
    lemma_unfold_index(p, ns, n, i, 0);
    match p[i as int] {
        BFIsa::LoopSetZero => {
            lemma_unfold_index(p, ns, n, i, 1);
            lemma_unfold_index(p, ns, n, i, 2);
        },
        BFIsa::LoopMvData(d) => {
            lemma_unfold_index(p, ns, n, i, 1);
            lemma_unfold_index(p, ns, n, i, 2);
            lemma_unfold_index(p, ns, n, i, 3);
            lemma_unfold_index(p, ns, n, i, 4);
            lemma_unfold_index(p, ns, n, i, 5);
        },
        BFIsa::LoopMvPtr(d) => {
            lemma_unfold_index(p, ns, n, i, 1);
            lemma_unfold_index(p, ns, n, i, 2);
        },
        BFIsa::Jmp(t) => {
            assert(closed_at(p, i as int));
            assert(p[t as int] is Ret);
        },
        BFIsa::Ret(t) => {
            assert(p[t as int] == BFIsa::Jmp(i as usize));
        },
        _ => {},
    }
}

/// The byte that is offered to `instr`.
pub open spec fn offered(instr: BFIsa, input: Seq<u8>) -> Option<u8> {
    if instr is In {
        Some(input[0])
    } else {
        None
    }
}

/// The input that `instr` leaves.
pub open spec fn left(instr: BFIsa, input: Seq<u8>) -> Seq<u8> {
    if instr is In {
        input.skip(1)
    } else {
        input
    }
}

/// The number of bytes that `instr` reads.
pub open spec fn reads(instr: BFIsa) -> nat {
    if instr is In {
        1
    } else {
        0
    }
}

/// The run of the written-out program from the instruction at which `m`
/// stands takes `k` steps for that instruction, and goes on from the
/// machine that the instruction leaves.
pub open spec fn advanced(p: Seq<BFIsa>, ns: Seq<u8>, m: Machine, input: Seq<u8>, fuel: nat, k: nat) -> bool {
    let instr = p[m.pc as int];
    let next = apply(instr, m, offered(instr, input));
    &&& 1 <= k <= fuel
    &&& instr is In ==> input.len() > 0
    &&& machine_ok(next.0)
    &&& next.0.pc <= p.len()
    &&& run_spec(unfolded(p, ns), placed(p, m), input, fuel) == after(
        next.1,
        reads(instr),
        run_spec(unfolded(p, ns), placed(p, next.0), left(instr, input), (fuel - k) as nat),
    )
}

/// A run equals itself behind a step that wrote and read nothing.
proof fn lemma_after_nothing(run: Run)
    ensures
        after(Event::Continue, 0, run) == run,
{
}

/// The written-out clearing loop takes the machine where `LoopSetZero`
/// takes it.
proof fn lemma_advance_clear(p: Seq<BFIsa>, ns: Seq<u8>, m: Machine, input: Seq<u8>, fuel: nat) -> (k: nat)
    requires
        fit(p),
        machine_ok(m),
        m.pc < p.len(),
        p[m.pc as int] is LoopSetZero,
        run_spec(unfolded(p, ns), placed(p, m), input, fuel).exit == Exit::Halted,
    ensures
        advanced(p, ns, m, input, fuel, k),
{
    lemma_place(p, ns, m.pc);
    let k = lemma_clear_inside(unfolded(p, ns), pos(p, m.pc), ns[m.pc as int], placed(p, m), input, fuel);
    let next = apply(p[m.pc as int], m, None).0;
    assert(placed(p, next) == Machine {
        pc: pos(p, m.pc) + 3,
        ptr: m.ptr,
        heap: m.heap.update(m.ptr as int, 0),
    });
    lemma_after_nothing(run_spec(unfolded(p, ns), placed(p, next), input, (fuel - k) as nat));
    k
}

/// The written-out transfer loop takes the machine where `LoopMvData`
/// takes it.
proof fn lemma_advance_transfer(p: Seq<BFIsa>, ns: Seq<u8>, m: Machine, input: Seq<u8>, fuel: nat) -> (k: nat)
    requires
        fit(p),
        machine_ok(m),
        m.pc < p.len(),
        p[m.pc as int] is LoopMvData,
        run_spec(unfolded(p, ns), placed(p, m), input, fuel).exit == Exit::Halted,
    ensures
        advanced(p, ns, m, input, fuel, k),
{
    let d = p[m.pc as int]->LoopMvData_0;
    lemma_place(p, ns, m.pc);
    let k = lemma_transfer_inside(unfolded(p, ns), pos(p, m.pc), d, placed(p, m), input, fuel);
    let next = apply(p[m.pc as int], m, None).0;
    lemma_mod_bound(m.ptr as int + d as int, m.heap.len() as int);
    assert(transferred(d, placed(p, m)) == transferred(d, m));
    assert(next.heap == transferred(d, m));
    assert(placed(p, next) == Machine { pc: pos(p, m.pc) + 6, ptr: m.ptr, heap: transferred(d, m) });
    lemma_after_nothing(run_spec(unfolded(p, ns), placed(p, next), input, (fuel - k) as nat));
    k
}

/// The written-out scanning loop takes the machine where `LoopMvPtr`
/// takes it.
proof fn lemma_advance_scan(p: Seq<BFIsa>, ns: Seq<u8>, m: Machine, input: Seq<u8>, fuel: nat) -> (k: nat)
    requires
        fit(p),
        machine_ok(m),
        m.pc < p.len(),
        p[m.pc as int] is LoopMvPtr,
        run_spec(unfolded(p, ns), placed(p, m), input, fuel).exit == Exit::Halted,
    ensures
        advanced(p, ns, m, input, fuel, k),
{
    let d = p[m.pc as int]->LoopMvPtr_0;
    lemma_place(p, ns, m.pc);
    let k = lemma_scan_inside(unfolded(p, ns), pos(p, m.pc), d, placed(p, m), input, fuel);
    let next = apply(p[m.pc as int], m, None).0;
    assert(placed(p, next) == Machine {
        pc: pos(p, m.pc) + 3,
        ptr: seek(m.heap, m.ptr as int, d as int, m.heap.len())->0 as nat,
        heap: m.heap,
    });
    lemma_after_nothing(run_spec(unfolded(p, ns), placed(p, next), input, (fuel - k) as nat));
    k
}

/// An instruction that is written out as itself takes one step in the
/// written-out program too.
proof fn lemma_advance_plain(p: Seq<BFIsa>, ns: Seq<u8>, m: Machine, input: Seq<u8>, fuel: nat)
    requires
        fit(p),
        machine_ok(m),
        m.pc < p.len(),
        width(p[m.pc as int]) == 1,
        run_spec(unfolded(p, ns), placed(p, m), input, fuel).exit == Exit::Halted,
    ensures
        advanced(p, ns, m, input, fuel, 1),
{
    let u = unfolded(p, ns);
    let mu = placed(p, m);
    let instr = p[m.pc as int];
    lemma_place(p, ns, m.pc);
    lemma_pos_grows(p, m.pc, p.len());
    let next = apply(instr, m, offered(instr, input));
    let next_u = apply(u[mu.pc as int], mu, offered(instr, input));
    if instr is Mv {
        lemma_mod_bound(m.ptr as int + instr->Mv_0 as int, m.heap.len() as int);
    }
    if instr is Jmp {
        lemma_pos_grows(p, (instr->Jmp_0 + 1) as nat, p.len());
    }
    if instr is Ret {
        lemma_pos_grows(p, (instr->Ret_0 + 1) as nat, p.len());
    }
    assert(fuel > 0);
    assert(instr is In ==> input.len() > 0);
    assert(u[mu.pc as int] is In <==> instr is In);
    assert(next_u.0 == placed(p, next.0));
    assert(next_u.1 == next.1);
}

/// A program with its loop instructions written out runs as the program
/// itself: where the written-out program ends, started at the same
/// instruction on the same pointer, tape and input, the program ends too,
/// and has left the same pointer and tape, written the same bytes, and
/// read as many.
pub proof fn lemma_unfolded_runs(p: Seq<BFIsa>, ns: Seq<u8>, m: Machine, input: Seq<u8>, fuel: nat) -> (steps: nat)
    requires
        fit(p),
        machine_ok(m),
        m.pc <= p.len(),
        run_spec(unfolded(p, ns), placed(p, m), input, fuel).exit == Exit::Halted,
    ensures
        same_end(
            run_spec(p, m, input, steps),
            run_spec(unfolded(p, ns), placed(p, m), input, fuel),
        ),
    decreases fuel,
{
    lemma_unfold_len(p, ns, p.len());
    if m.pc == p.len() {
        0
    } else {
        let instr = p[m.pc as int];
        let k = if instr is LoopSetZero {
            lemma_advance_clear(p, ns, m, input, fuel)
        } else if instr is LoopMvData {
            lemma_advance_transfer(p, ns, m, input, fuel)
        } else if instr is LoopMvPtr {
            lemma_advance_scan(p, ns, m, input, fuel)
        } else {
            lemma_advance_plain(p, ns, m, input, fuel);
            1
        };
        let next = apply(instr, m, offered(instr, input));
        let rest = lemma_unfolded_runs(p, ns, next.0, left(instr, input), (fuel - k) as nat);
        lemma_same_after(
            next.1,
            reads(instr),
            run_spec(p, next.0, left(instr, input), rest),
            run_spec(unfolded(p, ns), placed(p, next.0), left(instr, input), (fuel - k) as nat),
        );
        assert(run_spec(p, m, input, rest + 1) == after(
            next.1,
            reads(instr),
            run_spec(p, next.0, left(instr, input), rest),
        ));
        rest + 1
    }
}

} // verus!
