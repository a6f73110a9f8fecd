//! What the instructions mean: a machine of a tape, a data pointer and a
//! program counter, stepped one instruction at a time.

use vstd::prelude::*;
use vstd::arithmetic::div_mod::lemma_fundamental_div_mod_converse;
use vstd::arithmetic::div_mod::lemma_fundamental_div_mod;
use vstd::arithmetic::div_mod::lemma_mod_multiples_vanish;
use vstd::arithmetic::div_mod::lemma_small_mod;
use crate::isa::BFIsa;

verus! {

/// The state that a program runs on.
pub struct Machine {
    /// The index of the next instruction; the program has ended when it
    /// equals the program's length.
    pub pc: nat,
    /// The index of the current cell.
    pub ptr: nat,
    /// The tape.
    pub heap: Seq<u8>,
}

/// What one step asks of, or tells, the world outside.
#[derive(PartialEq, Eq, Structural, Clone, Copy, Debug)]
pub enum Event {
    /// An instruction ran and nothing is to be done.
    Continue,
    /// An instruction ran and this byte is to be written.
    Output(u8),
    /// The next instruction reads a byte and none was offered; nothing ran.
    NeedInput,
    /// The program has ended; nothing ran.
    Halted,
}

/// The pointer `ptr` moved by `d` on a tape of `len` cells, around the ends.
pub open spec fn wrap(ptr: int, d: int, len: int) -> int {
    (ptr + d) % len
}

/// The sum of two cells, modulo 256.
pub open spec fn cell_add(a: u8, b: u8) -> u8 {
    ((a + b) % 256) as u8
}

/// The first zero cell among `ptr`, `ptr + d`, `ptr + 2d`, ... (around the
/// ends), looking at most `fuel` moves ahead.
pub open spec fn seek(heap: Seq<u8>, ptr: int, d: int, fuel: nat) -> Option<int>
    decreases fuel,
{
    if heap[ptr] == 0 {
        Some(ptr)
    } else if fuel == 0 {
        None
    } else {
        seek(heap, wrap(ptr, d, heap.len() as int), d, (fuel - 1) as nat)
    }
}

/// The machine is in order: the tape is not empty and the pointer is on it.
pub open spec fn machine_ok(m: Machine) -> bool {
    &&& m.heap.len() >= 1
    &&& m.ptr < m.heap.len()
}

/// `m` with the program counter moved to `pc`.
pub open spec fn at(m: Machine, pc: nat) -> Machine {
    Machine { pc, ..m }
}

/// `m` with the current cell set to `v`.
pub open spec fn poke(m: Machine, v: u8) -> Machine {
    Machine { heap: m.heap.update(m.ptr as int, v), ..m }
}

/// The effect of the instruction `instr`, standing at `m.pc`, on `m`, and
/// what it tells the world. `input` is the byte on offer to an `In`.
///
/// A pointer scan that finds no zero cell within one period of its moves
/// never will: it leaves the machine as it is, to be run again.
pub open spec fn apply(instr: BFIsa, m: Machine, input: Option<u8>) -> (Machine, Event) {
    let len = m.heap.len() as int;
    let cell = m.heap[m.ptr as int];
    let next = m.pc + 1;
    match instr {
        BFIsa::Incr(n) => (at(poke(m, cell_add(cell, n)), next), Event::Continue),
        BFIsa::Out => (at(m, next), Event::Output(cell)),
        BFIsa::In => match input {
            Some(b) => (at(poke(m, b), next), Event::Continue),
            None => (m, Event::NeedInput),
        },
        BFIsa::Mv(d) => (
            Machine { pc: next, ptr: wrap(m.ptr as int, d as int, len) as nat, heap: m.heap },
            Event::Continue,
        ),
        BFIsa::LoopSetZero => (at(poke(m, 0), next), Event::Continue),
        BFIsa::LoopMvData(d) => {
            let to = wrap(m.ptr as int, d as int, len);
            (
                Machine {
                    pc: next,
                    ptr: m.ptr,
                    heap: m.heap.update(to, cell_add(m.heap[to], cell)).update(m.ptr as int, 0),
                },
                Event::Continue,
            )
        },
        BFIsa::LoopMvPtr(d) => match seek(m.heap, m.ptr as int, d as int, len as nat) {
            Some(p) => (Machine { pc: next, ptr: p as nat, heap: m.heap }, Event::Continue),
            None => (m, Event::Continue),
        },
        BFIsa::Jmp(t) => (
            at(
                m,
                if cell == 0 {
                    (t + 1) as nat
                } else {
                    next
                },
            ),
            Event::Continue,
        ),
        BFIsa::Ret(t) => (
            at(
                m,
                if cell != 0 {
                    (t + 1) as nat
                } else {
                    next
                },
            ),
            Event::Continue,
        ),
    }
}

/// One step of the program `txt` on `m`.
pub open spec fn step_spec(txt: Seq<BFIsa>, m: Machine, input: Option<u8>) -> (Machine, Event) {
    if m.pc >= txt.len() {
        (m, Event::Halted)
    } else {
        apply(txt[m.pc as int], m, input)
    }
}

/// How a run ended.
#[derive(PartialEq, Eq, Structural, Clone, Copy, Debug)]
pub enum Exit {
    /// The program counter left the program.
    Halted,
    /// An `In` found the input used up.
    Starved,
    /// The step budget ran out first.
    Exhausted,
}

/// A run of several steps: where it left the machine, what it wrote, how
/// many bytes it read, and why it stopped.
pub struct Run {
    /// The machine after the last step.
    pub machine: Machine,
    /// The bytes written, in order.
    pub output: Seq<u8>,
    /// The number of input bytes read.
    pub consumed: nat,
    /// Why the run stopped.
    pub exit: Exit,
}

/// `run` behind a step that wrote `ev` and read `read` bytes.
pub open spec fn after(ev: Event, read: nat, run: Run) -> Run {
    Run {
        machine: run.machine,
        output: match ev {
            Event::Output(b) => seq![b] + run.output,
            _ => run.output,
        },
        consumed: read + run.consumed,
        exit: run.exit,
    }
}

/// The run of `txt` from `m` that reads from `input` and takes at most
/// `fuel` steps. An `In` reads the next byte of `input`, and ends the run
/// where there is none.
pub open spec fn run_spec(txt: Seq<BFIsa>, m: Machine, input: Seq<u8>, fuel: nat) -> Run
    decreases fuel,
{
    if m.pc >= txt.len() {
        Run { machine: m, output: Seq::empty(), consumed: 0, exit: Exit::Halted }
    } else if fuel == 0 {
        Run { machine: m, output: Seq::empty(), consumed: 0, exit: Exit::Exhausted }
    } else if txt[m.pc as int] is In {
        if input.len() == 0 {
            Run { machine: m, output: Seq::empty(), consumed: 0, exit: Exit::Starved }
        } else {
            let (next, ev) = apply(txt[m.pc as int], m, Some(input[0]));
            after(ev, 1, run_spec(txt, next, input.skip(1), (fuel - 1) as nat))
        }
    } else {
        let (next, ev) = apply(txt[m.pc as int], m, None);
        after(ev, 0, run_spec(txt, next, input, (fuel - 1) as nat))
    }
}

/// A move by whole turns of the tape more or less leads to the same cell.
pub proof fn lemma_wrap_turns(ptr: int, d: int, len: int, turns: int)
    requires
        0 < len,
    ensures
        wrap(ptr, d + turns * len, len) == wrap(ptr, d, len),
{
    assert(ptr + (d + turns * len) == len * turns + (ptr + d)) by (nonlinear_arith);
    lemma_mod_multiples_vanish(turns, ptr + d, len);
}

/// A move by the length of the tape is a move by nothing, which leaves the
/// pointer where it is.
pub proof fn lemma_mv_full_turn(m: Machine, input: Option<u8>)
    requires
        machine_ok(m),
        m.heap.len() <= isize::MAX,
    ensures
        apply(BFIsa::Mv(m.heap.len() as isize), m, input) == apply(BFIsa::Mv(0), m, input),
        apply(BFIsa::Mv(0), m, input) == (at(m, m.pc + 1), Event::Continue),
{
    let len = m.heap.len() as int;
    lemma_wrap_turns(m.ptr as int, 0, len, 1);
    assert(1 * len == len);
    lemma_small_mod(m.ptr, m.heap.len());
}

/// A change of the cell by nothing leaves the machine as it is, but for
/// the program counter.
pub proof fn lemma_incr_nothing(m: Machine, input: Option<u8>)
    requires
        machine_ok(m),
    ensures
        apply(BFIsa::Incr(0), m, input) == (at(m, m.pc + 1), Event::Continue),
{
    assert(poke(m, cell_add(m.heap[m.ptr as int], 0)).heap =~= m.heap);
}

/// `d` modulo `len`, for a tape of `len` cells.
pub fn reduce(d: isize, len: usize) -> (m: usize)
    requires
        len >= 1,
    ensures
        m == d as int % len as int,
{
    if d >= 0 {
        (d as usize) % len
    } else {
        let e: usize = (-(d + 1)) as usize;
        let q: usize = e % len;
        let ghost k = e as int / len as int;
        proof {
            lemma_fundamental_div_mod(e as int, len as int);
        }
        if q + 1 == len {
            proof {
                assert(d as int == (-k - 1) * len + 0) by (nonlinear_arith)
                    requires
                        e == len * k + q,
                        q + 1 == len,
                        e == -(d + 1),
                ;
                lemma_fundamental_div_mod_converse(d as int, len as int, -k - 1, 0);
            }
            0
        } else {
            proof {
                assert(d as int == (-k - 1) * len + (len - (q + 1))) by (nonlinear_arith)
                    requires
                        e == len * k + q,
                        e == -(d + 1),
                ;
                lemma_fundamental_div_mod_converse(
                    d as int,
                    len as int,
                    -k - 1,
                    len - (q + 1),
                );
            }
            len - (q + 1)
        }
    }
}

/// The pointer `ptr` moved by `d` on a tape of `len` cells.
pub fn wrap_ptr(ptr: usize, d: isize, len: usize) -> (r: usize)
    requires
        ptr < len,
    ensures
        r == wrap(ptr as int, d as int, len as int),
        r < len,
{
    let m = reduce(d, len);
    let ghost k = d as int / len as int;
    proof {
        lemma_fundamental_div_mod(d as int, len as int);
    }
    if ptr >= len - m {
        proof {
            assert(ptr + d == (k + 1) * len + (ptr - (len - m))) by (nonlinear_arith)
                requires
                    d == len * k + m,
            ;
            lemma_fundamental_div_mod_converse(
                ptr + d,
                len as int,
                k + 1,
                ptr - (len - m),
            );
        }
        ptr - (len - m)
    } else {
        proof {
            assert(ptr + d == k * len + (ptr + m)) by (nonlinear_arith)
                requires
                    d == len * k + m,
            ;
            lemma_fundamental_div_mod_converse(ptr + d, len as int, k, ptr + m);
        }
        ptr + m
    }
}

} // verus!
