//! The three loop instructions do what the loops they replace do.

use vstd::prelude::*;
use vstd::arithmetic::div_mod::{
    lemma_add_mod_noop_right, lemma_fundamental_div_mod, lemma_mod_bound,
    lemma_mod_multiples_vanish, lemma_small_mod,
};
use crate::isa::BFIsa;
use crate::machine::{apply, at, cell_add, machine_ok, poke, run_spec, seek, wrap, Exit, Machine};

verus! {

/// The loop `[`, a change of the cell by `n`, `]`.
pub open spec fn clear_loop(n: u8) -> Seq<BFIsa> {
    seq![BFIsa::Jmp(2), BFIsa::Incr(n), BFIsa::Ret(0)]
}

/// The loop `[`, `-`, a move by `d`, `+`, a move back, `]`.
pub open spec fn transfer_loop(d: isize) -> Seq<BFIsa> {
    seq![
        BFIsa::Jmp(5),
        BFIsa::Incr(255),
        BFIsa::Mv(d),
        BFIsa::Incr(1),
        BFIsa::Mv((-d) as isize),
        BFIsa::Ret(0),
    ]
}

/// The loop `[`, a move by `d`, `]`.
pub open spec fn scan_loop(d: isize) -> Seq<BFIsa> {
    seq![BFIsa::Jmp(2), BFIsa::Mv(d), BFIsa::Ret(0)]
}

/// Within `fuel` steps the program `txt` runs from `m` to its end.
pub open spec fn ends(txt: Seq<BFIsa>, m: Machine, fuel: nat) -> bool {
    run_spec(txt, m, Seq::empty(), fuel).exit == Exit::Halted
}

/// The run of `txt` from `m` for `fuel` steps reads and writes nothing, and
/// leaves the pointer and the tape as `to` has them.
pub open spec fn leaves(txt: Seq<BFIsa>, m: Machine, fuel: nat, to: Machine) -> bool {
    let run = run_spec(txt, m, Seq::empty(), fuel);
    &&& run.machine.ptr == to.ptr
    &&& run.machine.heap == to.heap
    &&& run.output == Seq::<u8>::empty()
    &&& run.consumed == 0
}

/// The body of a clearing loop, where it ends, ends with the cell cleared.
proof fn lemma_clear_body(n: u8, m: Machine, fuel: nat)
    requires
        machine_ok(m),
        m.pc == 1,
        ends(clear_loop(n), m, fuel),
    ensures
        leaves(clear_loop(n), m, fuel, poke(m, 0)),
    decreases fuel,
{
    let txt = clear_loop(n);
    let empty = Seq::<u8>::empty();
    let m1 = apply(txt[1], m, None).0;
    assert(run_spec(txt, m, empty, fuel).exit == run_spec(txt, m1, empty, (fuel - 1) as nat).exit);
    let m2 = apply(txt[2], m1, None).0;
    assert(run_spec(txt, m1, empty, (fuel - 1) as nat).exit == run_spec(
        txt,
        m2,
        empty,
        (fuel - 2) as nat,
    ).exit);
    if m1.heap[m.ptr as int] != 0 {
        lemma_clear_body(n, m2, (fuel - 2) as nat);
        assert(poke(m2, 0).heap =~= poke(m, 0).heap);
    } else {
        assert(m2.heap =~= poke(m, 0).heap);
    }
}

/// Where the loop `[`, a change of the cell, `]` ends, it has done what
/// `LoopSetZero` does.
pub proof fn lemma_clear_loop_sound(n: u8, m: Machine, fuel: nat)
    requires
        machine_ok(m),
        m.pc == 0,
        ends(clear_loop(n), m, fuel),
    ensures
        leaves(clear_loop(n), m, fuel, apply(BFIsa::LoopSetZero, m, None).0),
{
    let txt = clear_loop(n);
    let empty = Seq::<u8>::empty();
    let m1 = apply(txt[0], m, None).0;
    assert(run_spec(txt, m, empty, fuel).exit == run_spec(txt, m1, empty, (fuel - 1) as nat).exit);
    if m.heap[m.ptr as int] != 0 {
        lemma_clear_body(n, m1, (fuel - 1) as nat);
    } else {
        assert(m.heap =~= poke(m, 0).heap);
    }
}

/// A move by `d` and a move by `-d` lead back.
pub proof fn lemma_wrap_back(ptr: int, d: int, len: int)
    requires
        0 <= ptr < len,
    ensures
        wrap(wrap(ptr, d, len), -d, len) == ptr,
{
    lemma_add_mod_noop_right(-d, ptr + d, len);
    lemma_small_mod(ptr as nat, len as nat);
}

/// The machine after one round of the body of a transfer loop: one is
/// taken from the cell and added to the other one.
pub open spec fn transfer_round(d: isize, m: Machine) -> Machine {
    let to = wrap(m.ptr as int, d as int, m.heap.len() as int);
    let taken = m.heap.update(m.ptr as int, cell_add(m.heap[m.ptr as int], 255));
    let given = taken.update(to, cell_add(taken[to], 1));
    Machine {
        pc: if given[m.ptr as int] != 0 {
            1
        } else {
            6
        },
        ptr: m.ptr,
        heap: given,
    }
}

/// One step of a run that neither reads nor writes.
proof fn lemma_quiet_step(txt: Seq<BFIsa>, m: Machine, fuel: nat)
    requires
        m.pc < txt.len(),
        !(txt[m.pc as int] is In),
        !(txt[m.pc as int] is Out),
    ensures
        fuel > 0 ==> run_spec(txt, m, Seq::empty(), fuel) == run_spec(
            txt,
            apply(txt[m.pc as int], m, None).0,
            Seq::empty(),
            (fuel - 1) as nat,
        ),
        fuel == 0 ==> !ends(txt, m, fuel),
{
    if fuel > 0 {
        let next = apply(txt[m.pc as int], m, None);
        let rest = run_spec(txt, next.0, Seq::empty(), (fuel - 1) as nat);
        assert(!(next.1 is Output));
        assert(run_spec(txt, m, Seq::empty(), fuel).output == rest.output);
    }
}

/// A run from the body of a transfer loop goes through one round of it.
proof fn lemma_transfer_round(d: isize, m: Machine, fuel: nat)
    requires
        machine_ok(m),
        m.pc == 1,
        d != isize::MIN,
    ensures
        fuel >= 5 ==> run_spec(transfer_loop(d), m, Seq::empty(), fuel) == run_spec(
            transfer_loop(d),
            transfer_round(d, m),
            Seq::empty(),
            (fuel - 5) as nat,
        ),
        fuel < 5 ==> !ends(transfer_loop(d), m, fuel),
        machine_ok(transfer_round(d, m)),
{
    let txt = transfer_loop(d);
    let len = m.heap.len() as int;
    let p = m.ptr as int;
    lemma_wrap_back(p, d as int, len);
    let m1 = apply(txt[1], m, None).0;
    lemma_quiet_step(txt, m, fuel);
    assert(m1.pc == 2 && m1.ptr == m.ptr);
    let m2 = apply(txt[2], m1, None).0;
    lemma_quiet_step(txt, m1, (fuel - 1) as nat);
    assert(m2.pc == 3 && m2.ptr == wrap(p, d as int, len) && m2.heap == m1.heap);
    let m3 = apply(txt[3], m2, None).0;
    lemma_quiet_step(txt, m2, (fuel - 2) as nat);
    assert(m3.pc == 4 && m3.ptr == m2.ptr);
    let m4 = apply(txt[4], m3, None).0;
    lemma_quiet_step(txt, m3, (fuel - 3) as nat);
    assert(m4.pc == 5 && m4.ptr == p && m4.heap == m3.heap);
    let m5 = apply(txt[5], m4, None).0;
    lemma_quiet_step(txt, m4, (fuel - 4) as nat);
    assert(m5 == transfer_round(d, m));
}

/// The tape after `LoopMvData(d)`.
pub open spec fn transferred(d: isize, m: Machine) -> Seq<u8> {
    let to = wrap(m.ptr as int, d as int, m.heap.len() as int);
    m.heap.update(to, cell_add(m.heap[to], m.heap[m.ptr as int])).update(m.ptr as int, 0)
}

/// One round of the body of a transfer loop changes nothing in what
/// `LoopMvData` makes of the tape, and makes just that of it where it
/// clears the cell.
pub proof fn lemma_transfer_round_keeps(d: isize, m: Machine)
    requires
        machine_ok(m),
    ensures
        transfer_round(d, m).pc == 1 ==> transferred(d, transfer_round(d, m)) == transferred(d, m),
        transfer_round(d, m).pc != 1 ==> transfer_round(d, m).heap == transferred(d, m),
{
    let len = m.heap.len() as int;
    let p = m.ptr as int;
    let to = wrap(p, d as int, len);
    let v = m.heap[p];
    let next = transfer_round(d, m);
    assert(0 <= to < len) by {
        lemma_mod_bound(p + d as int, len);
    }
    assert(next.heap.len() == len);
    if to == p {
        assert(next.heap =~= m.heap);
        if next.pc != 1 {
            assert(next.heap =~= transferred(d, m));
        }
    } else {
        assert(next.heap[p] == cell_add(v, 255));
        assert(next.heap[to] == cell_add(m.heap[to], 1));
        if next.pc == 1 {
            assert(cell_add(next.heap[to], next.heap[p]) == cell_add(m.heap[to], v));
            assert(transferred(d, next) =~= transferred(d, m));
        } else {
            assert(v == 1);
            assert(next.heap =~= transferred(d, m));
        }
    }
}

/// The body of a transfer loop, where it ends, ends with the cell added to
/// the other one and cleared.
proof fn lemma_transfer_body(d: isize, m: Machine, fuel: nat)
    requires
        machine_ok(m),
        m.pc == 1,
        d != isize::MIN,
        ends(transfer_loop(d), m, fuel),
    ensures
        leaves(
            transfer_loop(d),
            m,
            fuel,
            Machine { pc: 0, ptr: m.ptr, heap: transferred(d, m) },
        ),
    decreases fuel,
{
    let next = transfer_round(d, m);
    lemma_transfer_round(d, m, fuel);
    lemma_transfer_round_keeps(d, m);
    if next.pc == 1 {
        lemma_transfer_body(d, next, (fuel - 5) as nat);
    }
}

/// Where the loop `[`, `-`, a move, `+`, the move back, `]` ends, it has
/// done what `LoopMvData` does.
pub proof fn lemma_transfer_loop_sound(d: isize, m: Machine, fuel: nat)
    requires
        machine_ok(m),
        m.pc == 0,
        d != isize::MIN,
        ends(transfer_loop(d), m, fuel),
    ensures
        leaves(transfer_loop(d), m, fuel, apply(BFIsa::LoopMvData(d), m, None).0),
{
    let txt = transfer_loop(d);
    let m1 = apply(txt[0], m, None).0;
    lemma_quiet_step(txt, m, fuel);
    if m.heap[m.ptr as int] != 0 {
        lemma_transfer_body(d, m1, (fuel - 1) as nat);
    } else {
        assert(m.heap =~= apply(BFIsa::LoopMvData(d), m, None).0.heap);
    }
}

/// Where a pointer that starts at `ptr` stands after `k` moves by `d`.
pub open spec fn hop(ptr: int, d: int, len: int, k: nat) -> int {
    (ptr + k * d) % len
}

/// The cell that the pointer reaches with its `k`-th move is zero, and
/// those that it reaches with the moves from the `from`-th on are not.
pub open spec fn first_zero(heap: Seq<u8>, ptr: int, d: int, from: nat, k: nat) -> bool {
    &&& from <= k
    &&& heap[hop(ptr, d, heap.len() as int, k)] == 0
    &&& forall|j: nat| from <= j < k ==> heap[#[trigger] hop(ptr, d, heap.len() as int, j)] != 0
}

/// Without a move the pointer stays where it is.
pub proof fn lemma_hop_none(ptr: int, d: int, len: int)
    requires
        0 <= ptr < len,
    ensures
        hop(ptr, d, len, 0) == ptr,
{
    assert(0 * d == 0);
    lemma_small_mod(ptr as nat, len as nat);
}

/// `j` moves behind the first are `j + 1` moves.
pub proof fn lemma_hop_shift(ptr: int, d: int, len: int, j: nat)
    requires
        0 < len,
    ensures
        hop(wrap(ptr, d, len), d, len, j) == hop(ptr, d, len, j + 1),
        0 <= hop(ptr, d, len, j) < len,
{
    lemma_add_mod_noop_right(j * d, ptr + d, len);
    assert(j * d + (ptr + d) == ptr + (j + 1) * d) by (nonlinear_arith);
    lemma_mod_bound(ptr + j * d, len);
}

/// After as many moves as the tape has cells the pointer is back, so `k`
/// moves lead where `k` modulo the tape's length lead.
pub proof fn lemma_hop_period(ptr: int, d: int, len: int, k: nat)
    requires
        0 < len,
    ensures
        hop(ptr, d, len, k) == hop(ptr, d, len, (k as int % len) as nat),
        0 <= k as int % len < len,
        k as int % len <= k,
{
    let q = k as int / len;
    let r = k as int % len;
    lemma_fundamental_div_mod(k as int, len);
    lemma_mod_bound(k as int, len);
    assert(ptr + k * d == len * (q * d) + (ptr + r * d)) by (nonlinear_arith)
        requires
            k == len * q + r,
    ;
    lemma_mod_multiples_vanish(q * d, ptr + r * d, len);
    assert(r <= k) by (nonlinear_arith)
        requires
            k == len * q + r,
            0 <= r < len,
            0 <= k,
            0 < len,
    {
        if q < 0 {
            assert(len * q <= -len) by (nonlinear_arith)
                requires
                    q <= -1,
                    0 < len,
            ;
        }
    }
}

/// `seek` finds the first zero cell, where it lies within its reach.
pub proof fn lemma_seek_finds(heap: Seq<u8>, ptr: int, d: int, fuel: nat, k: nat)
    requires
        0 <= ptr < heap.len(),
        first_zero(heap, ptr, d, 0, k),
        k <= fuel,
    ensures
        seek(heap, ptr, d, fuel) == Some(hop(ptr, d, heap.len() as int, k)),
    decreases k,
{
    let len = heap.len() as int;
    lemma_hop_none(ptr, d, len);
    if k > 0 {
        assert(heap[hop(ptr, d, len, 0)] != 0);
        let next = wrap(ptr, d, len);
        lemma_mod_bound(ptr + d, len);
        lemma_hop_shift(ptr, d, len, (k - 1) as nat);
        assert forall|j: nat| j < k - 1 implies heap[#[trigger] hop(next, d, len, j)] != 0 by {
            lemma_hop_shift(ptr, d, len, j);
            assert(heap[hop(ptr, d, len, j + 1)] != 0);
        }
        lemma_seek_finds(heap, next, d, (fuel - 1) as nat, (k - 1) as nat);
    }
}

/// The body of a scanning loop, where it ends, ends at the first zero cell
/// that the pointer reaches, and leaves the tape alone.
proof fn lemma_scan_body(d: isize, m: Machine, fuel: nat) -> (k: nat)
    requires
        machine_ok(m),
        m.pc == 1,
        ends(scan_loop(d), m, fuel),
    ensures
        first_zero(m.heap, m.ptr as int, d as int, 1, k),
        leaves(
            scan_loop(d),
            m,
            fuel,
            Machine { pc: 0, ptr: hop(m.ptr as int, d as int, m.heap.len() as int, k) as nat, heap: m.heap },
        ),
    decreases fuel,
{
    let txt = scan_loop(d);
    let len = m.heap.len() as int;
    let p = m.ptr as int;
    lemma_mod_bound(p + d as int, len);
    lemma_hop_none(wrap(p, d as int, len), d as int, len);
    lemma_hop_shift(p, d as int, len, 0);
    let m1 = apply(txt[1], m, None).0;
    lemma_quiet_step(txt, m, fuel);
    assert(m1.pc == 2 && m1.ptr == wrap(p, d as int, len) && m1.heap == m.heap);
    let m2 = apply(txt[2], m1, None).0;
    lemma_quiet_step(txt, m1, (fuel - 1) as nat);
    if m.heap[m1.ptr as int] != 0 {
        assert(m2.pc == 1 && m2.ptr == m1.ptr && m2.heap == m.heap);
        let rest = lemma_scan_body(d, m2, (fuel - 2) as nat);
        let k = rest + 1;
        lemma_hop_shift(p, d as int, len, rest);
        assert forall|j: nat| 1 <= j < k implies m.heap[#[trigger] hop(p, d as int, len, j)] != 0 by {
            lemma_hop_shift(p, d as int, len, (j - 1) as nat);
            if j > 1 {
                assert(m.heap[hop(m2.ptr as int, d as int, len, (j - 1) as nat)] != 0);
            }
        }
        k
    } else {
        assert(m2.pc == 3);
        1
    }
}

/// Where the loop `[`, a move, `]` ends, it has done what `LoopMvPtr`
/// does, which then finds a zero cell too.
pub proof fn lemma_scan_loop_sound(d: isize, m: Machine, fuel: nat)
    requires
        machine_ok(m),
        m.pc == 0,
        ends(scan_loop(d), m, fuel),
    ensures
        seek(m.heap, m.ptr as int, d as int, m.heap.len()) is Some,
        leaves(scan_loop(d), m, fuel, apply(BFIsa::LoopMvPtr(d), m, None).0),
{
    let txt = scan_loop(d);
    let len = m.heap.len() as int;
    let p = m.ptr as int;
    let m1 = apply(txt[0], m, None).0;
    lemma_quiet_step(txt, m, fuel);
    lemma_hop_none(p, d as int, len);
    if m.heap[p] != 0 {
        let k = lemma_scan_body(d, m1, (fuel - 1) as nat);
        lemma_hop_period(p, d as int, len, k);
        let r = (k as int % len) as nat;
        if r < k {
            if r >= 1 {
                assert(m.heap[hop(p, d as int, len, r)] != 0);
            }
        }
        assert(first_zero(m.heap, p, d as int, 0, k)) by {
            assert forall|j: nat| j < k implies m.heap[#[trigger] hop(p, d as int, len, j)] != 0 by {
                if j >= 1 {
                    assert(m.heap[hop(p, d as int, len, j)] != 0);
                }
            }
        }
        lemma_seek_finds(m.heap, p, d as int, len as nat, k);
    }
}

/// The body of a scanning loop ends where a zero cell is in reach of the
/// pointer's next moves.
proof fn lemma_scan_body_ends(d: isize, m: Machine, reach: nat) -> (fuel: nat)
    requires
        machine_ok(m),
        m.pc == 1,
        seek(m.heap, wrap(m.ptr as int, d as int, m.heap.len() as int), d as int, reach) is Some,
    ensures
        ends(scan_loop(d), m, fuel),
    decreases reach,
{
    let txt = scan_loop(d);
    let len = m.heap.len() as int;
    let p = m.ptr as int;
    lemma_mod_bound(p + d as int, len);
    let m1 = apply(txt[1], m, None).0;
    let m2 = apply(txt[2], m1, None).0;
    assert(m1.pc == 2 && m1.ptr == wrap(p, d as int, len) && m1.heap == m.heap);
    let fuel = if m.heap[m1.ptr as int] != 0 {
        assert(m2.pc == 1 && m2.ptr == m1.ptr && m2.heap == m.heap);
        lemma_scan_body_ends(d, m2, (reach - 1) as nat) + 2
    } else {
        assert(m2.pc == 3);
        2
    };
    lemma_quiet_step(txt, m, fuel);
    lemma_quiet_step(txt, m1, (fuel - 1) as nat);
    fuel
}

/// The loop `[`, a move, `]` ends wherever `LoopMvPtr` finds a zero cell.
pub proof fn lemma_scan_loop_ends(d: isize, m: Machine) -> (fuel: nat)
    requires
        machine_ok(m),
        m.pc == 0,
        seek(m.heap, m.ptr as int, d as int, m.heap.len()) is Some,
    ensures
        ends(scan_loop(d), m, fuel),
{
    let txt = scan_loop(d);
    let m1 = apply(txt[0], m, None).0;
    let fuel = if m.heap[m.ptr as int] != 0 {
        lemma_scan_body_ends(d, m1, (m.heap.len() - 1) as nat) + 1
    } else {
        1
    };
    lemma_quiet_step(txt, m, fuel);
    fuel
}

/// The body of a transfer loop between two different cells ends.
proof fn lemma_transfer_body_ends(d: isize, m: Machine) -> (fuel: nat)
    requires
        machine_ok(m),
        m.pc == 1,
        d != isize::MIN,
        wrap(m.ptr as int, d as int, m.heap.len() as int) != m.ptr,
    ensures
        ends(transfer_loop(d), m, fuel),
    decreases cell_add(m.heap[m.ptr as int], 255),
{
    let next = transfer_round(d, m);
    lemma_mod_bound(m.ptr as int + d as int, m.heap.len() as int);
    assert(next.heap[m.ptr as int] == cell_add(m.heap[m.ptr as int], 255));
    let fuel = if next.pc == 1 {
        lemma_transfer_body_ends(d, next) + 5
    } else {
        5
    };
    lemma_transfer_round(d, m, fuel);
    fuel
}

/// The loop `[`, `-`, a move, `+`, the move back, `]` ends where the move
/// leads to another cell, or the cell is zero.
pub proof fn lemma_transfer_loop_ends(d: isize, m: Machine) -> (fuel: nat)
    requires
        machine_ok(m),
        m.pc == 0,
        d != isize::MIN,
        wrap(m.ptr as int, d as int, m.heap.len() as int) != m.ptr || m.heap[m.ptr as int] == 0,
    ensures
        ends(transfer_loop(d), m, fuel),
{
    let txt = transfer_loop(d);
    let m1 = apply(txt[0], m, None).0;
    let fuel = if m.heap[m.ptr as int] != 0 {
        lemma_transfer_body_ends(d, m1) + 1
    } else {
        1
    };
    lemma_quiet_step(txt, m, fuel);
    fuel
}

/// The number that, multiplied by an odd `n`, gives 1 modulo 256: two
/// steps of Newton's iteration from `n`, which is right modulo 8.
pub open spec fn inverse(n: u8) -> u8 {
    let x = ((n * (2 + 255 * n * n)) % 256) as u8;
    ((x * (2 + 255 * n * x)) % 256) as u8
}

/// The number of times that an odd `n` must be added to `v` to reach 0
/// modulo 256.
pub open spec fn rounds_to_zero(v: u8, n: u8) -> u8 {
    ((255 * v * inverse(n)) % 256) as u8
}

/// `inverse(n)` times an odd `n` is 1 modulo 256.
proof fn lemma_inverse(n: u8)
    requires
        n % 2 == 1,
    ensures
        (n * inverse(n)) % 256 == 1,
{
    let x = ((n * (2 + 255 * n * n)) % 256) as u8;
    let y = ((x * (2 + 255 * n * x)) % 256) as u8;
    assert(n % 2 == 1 && x == (n * (2 + 255 * n * n)) % 256 ==> (n * x) % 64 == 1) by (bit_vector);
    assert((n * x) % 64 == 1 && y == (x * (2 + 255 * n * x)) % 256 ==> (n * y) % 256 == 1)
        by (bit_vector);
}

/// Adding an odd `n` to a cell that is not zero brings it one round nearer
/// to zero.
proof fn lemma_rounds_to_zero(v: u8, n: u8)
    requires
        n % 2 == 1,
    ensures
        v != 0 ==> rounds_to_zero(v, n) != 0,
        rounds_to_zero(cell_add(v, n), n) == (rounds_to_zero(v, n) + 255) % 256,
{
    let i = inverse(n);
    let w = cell_add(v, n);
    lemma_inverse(n);
    assert((n * i) % 256 == 1 && v != 0 ==> (255 * v * i) % 256 != 0) by (bit_vector);
    assert((n * i) % 256 == 1 && w == (v + n) % 256 ==> (255 * w * i) % 256 == (((255 * v * i)
        % 256) + 255) % 256) by (bit_vector);
}

/// The rounds that the body of a clearing loop still has to make after
/// the next one.
pub open spec fn rounds_left(v: u8, n: u8) -> nat {
    rounds_to_zero(cell_add(v, n), n) as nat
}

/// The body of a clearing loop that changes the cell by an odd number
/// ends.
proof fn lemma_clear_body_ends(n: u8, m: Machine) -> (fuel: nat)
    requires
        machine_ok(m),
        m.pc == 1,
        n % 2 == 1,
    ensures
        ends(clear_loop(n), m, fuel),
    decreases rounds_left(m.heap[m.ptr as int], n),
{
    let txt = clear_loop(n);
    let v = m.heap[m.ptr as int];
    let m1 = apply(txt[1], m, None).0;
    let m2 = apply(txt[2], m1, None).0;
    assert(m1.pc == 2 && m1.ptr == m.ptr && m1.heap[m.ptr as int] == cell_add(v, n));
    let fuel = if cell_add(v, n) != 0 {
        lemma_rounds_to_zero(cell_add(v, n), n);
        assert(m2.pc == 1 && m2.ptr == m.ptr && m2.heap == m1.heap);
        lemma_clear_body_ends(n, m2) + 2
    } else {
        assert(m2.pc == 3);
        2
    };
    lemma_quiet_step(txt, m, fuel);
    lemma_quiet_step(txt, m1, (fuel - 1) as nat);
    fuel
}

/// The loop `[`, an odd change of the cell, `]` ends.
pub proof fn lemma_clear_loop_ends(n: u8, m: Machine) -> (fuel: nat)
    requires
        machine_ok(m),
        m.pc == 0,
        n % 2 == 1,
    ensures
        ends(clear_loop(n), m, fuel),
{
    let txt = clear_loop(n);
    let m1 = apply(txt[0], m, None).0;
    let fuel = if m.heap[m.ptr as int] != 0 {
        lemma_clear_body_ends(n, m1) + 1
    } else {
        1
    };
    lemma_quiet_step(txt, m, fuel);
    fuel
}

} // verus!
