//! The lowering: one walk over the program that emits, for each
//! instruction, the code generator's instructions for it, and opens and
//! closes basic blocks for the loops.

use vstd::prelude::*;
use vstd::arithmetic::div_mod::{
    lemma_add_mod_noop_right, lemma_mod_multiples_vanish, lemma_mod_twice, lemma_small_mod,
};
use cranelift::codegen::ir::{Block, Function, Inst, SigRef, Type, Value};
use cranelift::codegen::isa::CallConv;
use cranelift::frontend::{FunctionBuilderContext, Variable};
use crate::clif::{
    all_defined, appended, finished, function_params, grown, int_type, kept, pristine_context,
    pristine_function, signature_new, signature_param, signature_return, tidy, typed, var_index,
    variable_new, writable, Site,
};
use crate::record::{
    append_block_param, append_function_params, calls, create_block, declare_var, def_var,
    finish, first_block_param, first_result, import_signature, ins_brif, ins_call_indirect,
    ins_iadd, ins_iadd_imm, ins_iconst, ins_less_than_imm, ins_load, ins_return, ins_select,
    ins_store, seal_block, site, start, switch_to_block, use_var, Op, Recorder,
};
use crate::isa::BFIsa;
use crate::machine::{reduce, wrap};
use crate::pairing::{open_loops, stray_ret};

verus! {

/// What the walk holds on to from one instruction to the next.
pub struct Emit {
    /// The address of the tape.
    pub heap: Value,
    /// The constant 0, as wide as an address.
    pub zero: Value,
    /// The constant 0, as wide as a cell.
    pub zero_byte: Value,
    /// The signature of the routine that writes a byte.
    pub write_sig: SigRef,
    /// The address of the routine that writes a byte.
    pub write_address: Value,
    /// The signature of the routine that reads a byte.
    pub read_sig: SigRef,
    /// The address of the routine that reads a byte.
    pub read_address: Value,
    /// The variable that holds the data pointer, as an offset into the tape.
    pub ptr: Variable,
    /// The block that the function starts in.
    pub entry_block: Block,
    /// The block that returns an error to the caller.
    pub exit_block: Block,
    /// The parameter of the exit block: the error to return.
    pub exit_param: Value,
    /// The type of a cell.
    pub byte: Type,
    /// The type of an address.
    pub pointer: Type,
    /// The calling convention of the function and of the host's routines.
    pub conv: CallConv,
    /// The number of cells of the tape.
    pub len: usize,
}

/// The values, blocks and instructions that the code generator made for
/// one instruction of the program, in the order in which it made them.
pub struct Fresh {
    /// The values.
    pub v: Seq<Value>,
    /// The blocks.
    pub b: Seq<Block>,
    /// The instructions.
    pub i: Seq<Inst>,
}

/// The builder can take an instruction, and knows all that `e` names.
pub open spec fn ready(s: Site, e: Emit) -> bool {
    &&& writable(s)
    &&& s.types.contains_key(e.heap)
    &&& s.types.contains_key(e.zero)
    &&& s.types.contains_key(e.zero_byte)
    &&& s.types.contains_key(e.write_address)
    &&& s.types.contains_key(e.read_address)
    &&& s.types.contains_key(e.exit_param)
    &&& s.sigs.contains_key(e.write_sig)
    &&& s.sigs[e.write_sig] == seq![e.pointer]
    &&& s.sigs.contains_key(e.read_sig)
    &&& s.sigs[e.read_sig] == seq![e.pointer]
    &&& s.vars.contains_key(e.ptr)
    &&& s.vars[e.ptr] == e.pointer
    &&& int_type(e.byte)
    &&& s.blocks.contains(e.exit_block)
    &&& !s.sealed.contains(e.exit_block)
    &&& !s.filled.contains(e.exit_block)
    &&& s.cursor != Some(e.exit_block)
    &&& 1 <= e.len <= i64::MAX
}

/// An open loop: the block of its body and the block behind it.
pub type Nest = (Block, Block);

/// `blk` belongs to an open loop.
pub open spec fn pending(nest: Seq<Nest>, blk: Block) -> bool {
    exists|i: int| 0 <= i < nest.len() && ((#[trigger] nest[i]).0 == blk || nest[i].1 == blk)
}

/// The blocks of the open loops are distinct, unsealed, and other than the
/// exit block; the blocks behind the loops are untouched.
pub open spec fn nest_ok(s: Site, e: Emit, nest: Seq<Nest>) -> bool {
    &&& forall|i: int|
        0 <= i < nest.len() ==> {
            let (body, after) = #[trigger] nest[i];
            &&& s.blocks.contains(body)
            &&& s.blocks.contains(after)
            &&& !s.sealed.contains(body)
            &&& !s.sealed.contains(after)
            &&& !s.filled.contains(after)
            &&& body != after
            &&& body != e.exit_block
            &&& after != e.exit_block
            &&& s.cursor != Some(after)
            &&& (s.cursor == Some(body) || s.filled.contains(body))
        }
    &&& forall|i: int, j: int|
        0 <= i < j < nest.len() ==> {
            let (body, after) = #[trigger] nest[i];
            let (inner, behind) = #[trigger] nest[j];
            body != inner && body != behind && after != inner && after != behind
        }
}

/// What holds between two instructions of the walk: the builder is ready,
/// and every block is finished but the current one, the exit block, and
/// those of the open loops.
pub open spec fn shape(s: Site, e: Emit, nest: Seq<Nest>) -> bool {
    &&& ready(s, e)
    &&& nest_ok(s, e, nest)
    &&& forall|blk: Block| #[trigger]
        s.blocks.contains(blk) ==> s.cursor == Some(blk) || blk == e.exit_block || pending(
            nest,
            blk,
        ) || (s.filled.contains(blk) && s.sealed.contains(blk))
    &&& s.sealed.contains(s.cursor->0) || (nest.len() > 0 && s.cursor == Some(nest.last().0))
}

/// Instructions appended to the current block leave the walk in order.
proof fn lemma_shape_grown(pre: Site, post: Site, e: Emit, nest: Seq<Nest>)
    requires
        shape(pre, e, nest),
        grown(pre, post),
    ensures
        shape(post, e, nest),
{
}

/// Blocks created and instructions appended leave the builder ready and the
/// open loops as they were.
proof fn lemma_shape_step(pre: Site, post: Site, e: Emit, nest: Seq<Nest>)
    requires
        ready(pre, e),
        nest_ok(pre, e, nest),
        tidy(post),
        post.cursor == pre.cursor,
        pre.blocks.subset_of(post.blocks),
        post.filled == pre.filled,
        post.sealed == pre.sealed,
        post.vars == pre.vars,
        post.sigs == pre.sigs,
        kept(pre.types, post.types),
    ensures
        ready(post, e),
        nest_ok(post, e, nest),
{
}

/// The calls that find the current cell: its offset `off` is read, and its
/// address `addr` is the tape's address and the offset.
pub open spec fn address_ops(e: Emit, off: Value, addr: Value) -> Seq<Op> {
    seq![Op::UseVar(e.ptr, off), Op::Iadd(e.heap, off, addr)]
}

/// The calls that load the current cell into `val`.
pub open spec fn load_ops(e: Emit, off: Value, addr: Value, val: Value) -> Seq<Op> {
    address_ops(e, off, addr).push(Op::Load(e.byte, addr, val))
}

/// The calls that find the offset `d` cells from `off`, around the ends of
/// the tape: `tgt` is the sum with the move less whole turns, `wr` the sum
/// one turn back onto the tape, `c` the comparison that tells whether the
/// sum is on the tape, and `r` the one of the two that it selects.
pub open spec fn wrap_ops(e: Emit, off: Value, d: isize, tgt: Value, wr: Value, c: Value, r: Value)
    -> Seq<Op> {
    let n = turned(d as int, e.len as int);
    if n > 0 {
        seq![
            Op::IaddImm(off, n as i64, tgt),
            Op::IaddImm(off, (n - e.len) as i64, wr),
            Op::LessImm(tgt, e.len as i64, c),
            Op::Select(c, tgt, wr, r),
        ]
    } else {
        seq![
            Op::IaddImm(off, n as i64, tgt),
            Op::IaddImm(off, (n + e.len) as i64, wr),
            Op::LessImm(tgt, 0, c),
            Op::Select(c, wr, tgt, r),
        ]
    }
}

/// The calls behind a call of a host routine that gave `rv`: a branch to
/// the exit block with `rv` where it is not null, else to a new block
/// `bb`, which is sealed and gone on in.
pub open spec fn fan_ops(e: Emit, rv: Value, bb: Block) -> Seq<Op> {
    seq![Op::Block(bb), Op::Brif(rv, e.exit_block, seq![rv], bb), Op::Seal(bb), Op::Switch(bb)]
}

/// The calls for the instruction `instr`, where `nest` holds the open
/// loops and the code generator made `f`.
///
/// - `Incr(n)`: the cell is loaded, `n` is added, and the sum is stored.
/// - `Mv(d)`: the pointer is read, moved around the ends, and written.
/// - `Out`: the cell is loaded and handed to the routine that writes; its
///   result, where not null, leaves through the exit block.
/// - `In`: the cell's address is handed to the routine that reads; the
///   same.
/// - `Jmp`: two blocks are made; the cell is loaded; where it is not zero
///   the first is entered, else the second; the first is gone on in.
/// - `Ret`: the cell is loaded; where it is not zero the body of the
///   innermost open loop is entered again, else the block behind it; both
///   are sealed, and the block behind is gone on in.
/// - `LoopSetZero`: zero is stored in the cell.
/// - `LoopMvData(d)`: the cell `d` cells away, around the ends, gets the
///   sum of both cells, and the cell gets zero.
/// - `LoopMvPtr(d)`: a loop of its own, entered where the cell is not
///   zero, that moves the pointer by `d` and repeats while the cell it
///   reaches is not zero.
pub open spec fn chunk(instr: BFIsa, e: Emit, nest: Seq<Nest>, f: Fresh) -> Seq<Op> {
    let v = f.v;
    match instr {
        BFIsa::Incr(n) => load_ops(e, v[0], v[1], v[2]) + seq![
            Op::IaddImm(v[2], n as i64, v[3]),
            Op::Store(v[3], v[1]),
        ],
        BFIsa::Mv(d) => seq![Op::UseVar(e.ptr, v[0])] + wrap_ops(e, v[0], d, v[1], v[2], v[3], v[4])
            + seq![Op::DefVar(e.ptr, v[4])],
        BFIsa::Out => load_ops(e, v[0], v[1], v[2]) + seq![
            Op::Call(e.write_sig, e.write_address, v[2], f.i[0]),
            Op::Result(f.i[0], v[3]),
        ] + fan_ops(e, v[3], f.b[0]),
        BFIsa::In => address_ops(e, v[0], v[1]) + seq![
            Op::Call(e.read_sig, e.read_address, v[1], f.i[0]),
            Op::Result(f.i[0], v[2]),
        ] + fan_ops(e, v[2], f.b[0]),
        BFIsa::Jmp(_) => seq![Op::Block(f.b[0]), Op::Block(f.b[1])] + load_ops(e, v[0], v[1], v[2])
            + seq![Op::Brif(v[2], f.b[0], Seq::empty(), f.b[1]), Op::Switch(f.b[0])],
        BFIsa::Ret(_) => load_ops(e, v[0], v[1], v[2]) + seq![
            Op::Brif(v[2], nest.last().0, Seq::empty(), nest.last().1),
            Op::Seal(nest.last().0),
            Op::Seal(nest.last().1),
            Op::Switch(nest.last().1),
        ],
        BFIsa::LoopSetZero => address_ops(e, v[0], v[1]).push(Op::Store(e.zero_byte, v[1])),
        BFIsa::LoopMvData(d) => seq![Op::UseVar(e.ptr, v[0])] + wrap_ops(
            e,
            v[0],
            d,
            v[1],
            v[2],
            v[3],
            v[4],
        ) + seq![
            Op::Iadd(e.heap, v[0], v[5]),
            Op::Load(e.byte, v[5], v[6]),
            Op::Iadd(e.heap, v[4], v[7]),
            Op::Load(e.byte, v[7], v[8]),
            Op::Iadd(v[8], v[6], v[9]),
            Op::Store(v[9], v[7]),
            Op::Store(e.zero_byte, v[5]),
        ],
        BFIsa::LoopMvPtr(d) => seq![Op::Block(f.b[0]), Op::Block(f.b[1])] + load_ops(
            e,
            v[0],
            v[1],
            v[2],
        ) + seq![Op::Brif(v[2], f.b[0], Seq::empty(), f.b[1]), Op::Switch(f.b[0])] + address_ops(
            e,
            v[3],
            v[4],
        ) + wrap_ops(e, v[3], d, v[5], v[6], v[7], v[8]) + seq![
            Op::Iadd(e.heap, v[8], v[9]),
            Op::DefVar(e.ptr, v[8]),
            Op::Load(e.byte, v[9], v[10]),
            Op::Brif(v[10], f.b[0], Seq::empty(), f.b[1]),
            Op::Seal(f.b[0]),
            Op::Seal(f.b[1]),
            Op::Switch(f.b[1]),
        ],
    }
}

/// The offset of the current cell, and its address.
fn cell_address(b: &mut Recorder, e: &Emit) -> (r: (Value, Value))
    requires
        ready(site(old(b)), *e),
    ensures
        grown(site(old(b)), site(final(b))),
        typed(site(final(b)), r.0, e.pointer),
        site(final(b)).types.contains_key(r.1),
        calls(final(b)) == calls(old(b)) + address_ops(*e, r.0, r.1),
{
    let heap_offset = use_var(b, e.ptr);
    let heap_ptr = ins_iadd(b, e.heap, heap_offset);
    assert(calls(b) =~= calls(old(b)) + address_ops(*e, heap_offset, heap_ptr));
    (heap_offset, heap_ptr)
}

/// The offset of the current cell, its address, and its value.
fn load_cell(b: &mut Recorder, e: &Emit) -> (r: (Value, Value, Value))
    requires
        ready(site(old(b)), *e),
    ensures
        grown(site(old(b)), site(final(b))),
        site(final(b)).types.contains_key(r.1),
        site(final(b)).types.contains_key(r.2),
        calls(final(b)) == calls(old(b)) + load_ops(*e, r.0, r.1, r.2),
{
    let (heap_offset, heap_ptr) = cell_address(b, e);
    let val = ins_load(b, e.byte, heap_ptr);
    assert(calls(b) =~= calls(old(b)) + load_ops(*e, heap_offset, heap_ptr, val));
    (heap_offset, heap_ptr, val)
}

/// The move by `d` less whole turns of a tape of `len` cells, as a number.
pub open spec fn turned(d: int, len: int) -> int {
    if d < 0 && d % len != 0 {
        d % len - len
    } else {
        d % len
    }
}

/// The move by `d` less whole turns of a tape of `len` cells: a move to
/// the same side and the same cell that is shorter than the tape.
pub fn within_turn(d: isize, len: usize) -> (n: i64)
    requires
        1 <= len <= i64::MAX,
    ensures
        n == turned(d as int, len as int),
        -len < n < len,
        n as int % len as int == d as int % len as int,
        d >= 0 ==> n >= 0,
        d <= 0 ==> n <= 0,
{
    let m = reduce(d, len);
    if d < 0 && m != 0 {
        proof {
            lemma_mod_multiples_vanish(-1, m as int, len as int);
            lemma_small_mod(m as nat, len as nat);
            lemma_mod_twice(d as int, len as int);
        }
        m as i64 - len as i64
    } else {
        proof {
            lemma_small_mod(m as nat, len as nat);
            lemma_mod_twice(d as int, len as int);
            if d == 0 {
                lemma_small_mod(0, len as nat);
            }
        }
        m as i64
    }
}

/// What the compiled code makes of the offset `ptr` for a move by `n`
/// cells on a tape of `len` cells: the sum, or else the sum brought back
/// onto the tape by one turn, chosen by one comparison.
pub open spec fn selected(ptr: int, n: int, len: int) -> int {
    if n > 0 {
        if ptr + n < len {
            ptr + n
        } else {
            ptr + n - len
        }
    } else {
        if ptr + n < 0 {
            ptr + n + len
        } else {
            ptr + n
        }
    }
}

/// For a move that is shorter than the tape, the compiled code's one
/// comparison finds the cell that the interpreter's remainder finds; and
/// every move is made that short before it is compiled.
pub proof fn lemma_selected_wraps(ptr: int, d: int, n: int, len: int)
    requires
        0 <= ptr < len,
        -len < n < len,
        n % len == d % len,
    ensures
        selected(ptr, n, len) == wrap(ptr, d, len),
{
    let r = selected(ptr, n, len);
    assert(0 <= r < len);
    let turns: int = if ptr + n - r == 0 {
        0
    } else if ptr + n - r == len {
        1
    } else {
        -1
    };
    assert(ptr + n == len * turns + r) by {
        assert(len * 0 == 0);
        assert(len * 1 == len);
        assert(len * (-1) == -len);
    }
    lemma_mod_multiples_vanish(turns, r, len);
    lemma_small_mod(r as nat, len as nat);
    lemma_add_mod_noop_right(ptr, n, len);
    lemma_add_mod_noop_right(ptr, d, len);
}

/// The offset `d` cells from `heap_offset`, around the ends of the tape:
/// the move less whole turns, then one comparison and one selection. Gives
/// the sum, the sum one turn back, the comparison, and what is selected.
fn wrapped_target(b: &mut Recorder, e: &Emit, heap_offset: Value, d: isize) -> (r: (
    Value,
    Value,
    Value,
    Value,
))
    requires
        ready(site(old(b)), *e),
        site(old(b)).types.contains_key(heap_offset),
    ensures
        grown(site(old(b)), site(final(b))),
        typed(site(final(b)), r.3, site(old(b)).types[heap_offset]),
        calls(final(b)) == calls(old(b)) + wrap_ops(*e, heap_offset, d, r.0, r.1, r.2, r.3),
{
    let n = within_turn(d, e.len);
    let tgt_heap_offset = ins_iadd_imm(b, heap_offset, n);
    if n > 0 {
        let wrapped = ins_iadd_imm(b, heap_offset, n - e.len as i64);
        let below = ins_less_than_imm(b, tgt_heap_offset, e.len as i64);
        let chosen = ins_select(b, below, tgt_heap_offset, wrapped);
        assert(calls(b) =~= calls(old(b)) + wrap_ops(
            *e,
            heap_offset,
            d,
            tgt_heap_offset,
            wrapped,
            below,
            chosen,
        ));
        (tgt_heap_offset, wrapped, below, chosen)
    } else {
        let wrapped = ins_iadd_imm(b, heap_offset, n + e.len as i64);
        let below = ins_less_than_imm(b, tgt_heap_offset, 0);
        let chosen = ins_select(b, below, wrapped, tgt_heap_offset);
        assert(calls(b) =~= calls(old(b)) + wrap_ops(
            *e,
            heap_offset,
            d,
            tgt_heap_offset,
            wrapped,
            below,
            chosen,
        ));
        (tgt_heap_offset, wrapped, below, chosen)
    }
}

/// `Incr(n)`: loads the cell, adds `n`, and stores it.
fn lower_incr(b: &mut Recorder, e: &Emit, n: u8, Ghost(nest): Ghost<Seq<Nest>>) -> (f: Ghost<
    Fresh,
>)
    requires
        shape(site(old(b)), *e, nest),
    ensures
        shape(site(final(b)), *e, nest),
        calls(final(b)) == calls(old(b)) + chunk(BFIsa::Incr(n), *e, nest, f@),
{
    let (off, heap_ptr, val) = load_cell(b, e);
    let sum = ins_iadd_imm(b, val, n as i64);
    ins_store(b, sum, heap_ptr);
    let ghost f = Fresh { v: seq![off, heap_ptr, val, sum], b: Seq::empty(), i: Seq::empty() };
    proof {
        lemma_shape_grown(site(old(b)), site(b), *e, nest);
        assert(calls(b) =~= calls(old(b)) + chunk(BFIsa::Incr(n), *e, nest, f));
    }
    Ghost(f)
}

/// `Mv(d)`: moves the data pointer.
fn lower_mv(b: &mut Recorder, e: &Emit, d: isize, Ghost(nest): Ghost<Seq<Nest>>) -> (f: Ghost<
    Fresh,
>)
    requires
        shape(site(old(b)), *e, nest),
    ensures
        shape(site(final(b)), *e, nest),
        calls(final(b)) == calls(old(b)) + chunk(BFIsa::Mv(d), *e, nest, f@),
{
    let heap_offset = use_var(b, e.ptr);
    let (tgt, wr, c, new_heap_offset) = wrapped_target(b, e, heap_offset, d);
    proof {
        lemma_shape_grown(site(old(b)), site(b), *e, nest);
    }
    def_var(b, e.ptr, new_heap_offset);
    let ghost f = Fresh {
        v: seq![heap_offset, tgt, wr, c, new_heap_offset],
        b: Seq::empty(),
        i: Seq::empty(),
    };
    proof {
        assert(calls(b) =~= calls(old(b)) + chunk(BFIsa::Mv(d), *e, nest, f));
    }
    Ghost(f)
}

/// `LoopSetZero`: stores zero in the cell.
fn lower_set_zero(b: &mut Recorder, e: &Emit, Ghost(nest): Ghost<Seq<Nest>>) -> (f: Ghost<
    Fresh,
>)
    requires
        shape(site(old(b)), *e, nest),
    ensures
        shape(site(final(b)), *e, nest),
        calls(final(b)) == calls(old(b)) + chunk(BFIsa::LoopSetZero, *e, nest, f@),
{
    let (off, heap_ptr) = cell_address(b, e);
    ins_store(b, e.zero_byte, heap_ptr);
    let ghost f = Fresh { v: seq![off, heap_ptr], b: Seq::empty(), i: Seq::empty() };
    proof {
        lemma_shape_grown(site(old(b)), site(b), *e, nest);
        assert(calls(b) =~= calls(old(b)) + chunk(BFIsa::LoopSetZero, *e, nest, f));
    }
    Ghost(f)
}

/// `LoopMvData(d)`: adds the cell to the one `d` cells away, and clears it.
fn lower_mv_data(b: &mut Recorder, e: &Emit, d: isize, Ghost(nest): Ghost<Seq<Nest>>) -> (f:
    Ghost<Fresh>)
    requires
        shape(site(old(b)), *e, nest),
    ensures
        shape(site(final(b)), *e, nest),
        calls(final(b)) == calls(old(b)) + chunk(BFIsa::LoopMvData(d), *e, nest, f@),
{
    let heap_offset = use_var(b, e.ptr);
    let (tgt, wr, c, tgt_heap_offset) = wrapped_target(b, e, heap_offset, d);
    let ghost mid = site(b);
    let ghost mid_log = calls(b);
    proof {
        lemma_shape_grown(site(old(b)), mid, *e, nest);
    }
    let rhs_ptr = ins_iadd(b, e.heap, heap_offset);
    let rhs_val = ins_load(b, e.byte, rhs_ptr);
    let lhs_ptr = ins_iadd(b, e.heap, tgt_heap_offset);
    let lhs_val = ins_load(b, e.byte, lhs_ptr);
    let sum = ins_iadd(b, lhs_val, rhs_val);
    ins_store(b, sum, lhs_ptr);
    ins_store(b, e.zero_byte, rhs_ptr);
    let ghost f = Fresh {
        v: seq![
            heap_offset,
            tgt,
            wr,
            c,
            tgt_heap_offset,
            rhs_ptr,
            rhs_val,
            lhs_ptr,
            lhs_val,
            sum,
        ],
        b: Seq::empty(),
        i: Seq::empty(),
    };
    proof {
        lemma_shape_grown(mid, site(b), *e, nest);
        assert(calls(b) =~= mid_log + seq![
            Op::Iadd(e.heap, heap_offset, rhs_ptr),
            Op::Load(e.byte, rhs_ptr, rhs_val),
            Op::Iadd(e.heap, tgt_heap_offset, lhs_ptr),
            Op::Load(e.byte, lhs_ptr, lhs_val),
            Op::Iadd(lhs_val, rhs_val, sum),
            Op::Store(sum, lhs_ptr),
            Op::Store(e.zero_byte, rhs_ptr),
        ]);
        assert(calls(b) =~= calls(old(b)) + chunk(BFIsa::LoopMvData(d), *e, nest, f));
    }
    Ghost(f)
}

/// Behind a call of a host routine: leaves through the exit block with the
/// routine's result where that is not null, and goes on in a fresh block
/// where it is.
fn fan_out(b: &mut Recorder, e: &Emit, call_retval: Value, Ghost(nest): Ghost<Seq<Nest>>) -> (bb:
    Block)
    requires
        shape(site(old(b)), *e, nest),
        site(old(b)).types.contains_key(call_retval),
    ensures
        shape(site(final(b)), *e, nest),
        calls(final(b)) == calls(old(b)) + fan_ops(*e, call_retval, bb),
{
    let ghost s0 = site(b);
    let ghost s0_log = calls(b);
    let bb_ret = create_block(b);
    let args = [call_retval];
    assert(all_defined(site(b), args@));
    assert(args@ =~= seq![call_retval]);
    ins_brif(b, call_retval, e.exit_block, &args, bb_ret);
    seal_block(b, bb_ret);
    switch_to_block(b, bb_ret);
    assert(calls(b) =~= s0_log + fan_ops(*e, call_retval, bb_ret));
    proof {
        let s = site(b);
        assert(!pending(nest, bb_ret));
        assert forall|blk: Block| #[trigger] s.blocks.contains(blk) implies s.cursor == Some(blk)
            || blk == e.exit_block || pending(nest, blk) || (s.filled.contains(blk)
            && s.sealed.contains(blk)) by {
            if blk != bb_ret {
                assert(s0.blocks.contains(blk));
            }
        }
    }
    bb_ret
}

/// `Out`: hands the cell to the routine that writes.
fn lower_out(b: &mut Recorder, e: &Emit, Ghost(nest): Ghost<Seq<Nest>>) -> (f: Ghost<Fresh>)
    requires
        shape(site(old(b)), *e, nest),
    ensures
        shape(site(final(b)), *e, nest),
        calls(final(b)) == calls(old(b)) + chunk(BFIsa::Out, *e, nest, f@),
{
    let (off, heap_ptr, fn_arg_val) = load_cell(b, e);
    let call_writefn = ins_call_indirect(b, e.write_sig, e.write_address, fn_arg_val);
    let call_retval = first_result(b, call_writefn);
    let ghost mid = site(b);
    let ghost mid_log = calls(b);
    proof {
        lemma_shape_grown(site(old(b)), mid, *e, nest);
        assert(mid_log =~= calls(old(b)) + (load_ops(*e, off, heap_ptr, fn_arg_val) + seq![
            Op::Call(e.write_sig, e.write_address, fn_arg_val, call_writefn),
            Op::Result(call_writefn, call_retval),
        ]));
    }
    let bb = fan_out(b, e, call_retval, Ghost(nest));
    let ghost f = Fresh {
        v: seq![off, heap_ptr, fn_arg_val, call_retval],
        b: seq![bb],
        i: seq![call_writefn],
    };
    proof {
        assert(calls(b) =~= calls(old(b)) + chunk(BFIsa::Out, *e, nest, f));
    }
    Ghost(f)
}

/// `In`: hands the cell's address to the routine that reads.
fn lower_in(b: &mut Recorder, e: &Emit, Ghost(nest): Ghost<Seq<Nest>>) -> (f: Ghost<Fresh>)
    requires
        shape(site(old(b)), *e, nest),
    ensures
        shape(site(final(b)), *e, nest),
        calls(final(b)) == calls(old(b)) + chunk(BFIsa::In, *e, nest, f@),
{
    let (off, heap_ptr) = cell_address(b, e);
    let call_readfn = ins_call_indirect(b, e.read_sig, e.read_address, heap_ptr);
    let call_retval = first_result(b, call_readfn);
    let ghost mid = site(b);
    let ghost mid_log = calls(b);
    proof {
        lemma_shape_grown(site(old(b)), mid, *e, nest);
        assert(mid_log =~= calls(old(b)) + (address_ops(*e, off, heap_ptr) + seq![
            Op::Call(e.read_sig, e.read_address, heap_ptr, call_readfn),
            Op::Result(call_readfn, call_retval),
        ]));
    }
    let bb = fan_out(b, e, call_retval, Ghost(nest));
    let ghost f = Fresh { v: seq![off, heap_ptr, call_retval], b: seq![bb], i: seq![call_readfn] };
    proof {
        assert(calls(b) =~= calls(old(b)) + chunk(BFIsa::In, *e, nest, f));
    }
    Ghost(f)
}

/// `Jmp`: enters the body where the cell is not zero, and else goes behind
/// the loop. Both blocks stay unsealed until the loop is closed.
fn lower_jmp(b: &mut Recorder, e: &Emit, target: usize, nest: &mut Vec<Nest>) -> (f: Ghost<
    Fresh,
>)
    requires
        shape(site(old(b)), *e, old(nest)@),
    ensures
        shape(site(final(b)), *e, final(nest)@),
        final(nest)@ == old(nest)@.push((f@.b[0], f@.b[1])),
        calls(final(b)) == calls(old(b)) + chunk(BFIsa::Jmp(target), *e, old(nest)@, f@),
{
    let ghost s0 = site(b);
    let ghost s0_log = calls(b);
    let ghost open = nest@;
    let inner_bb = create_block(b);
    let inner_bb_exit = create_block(b);
    proof {
        lemma_shape_step(s0, site(b), *e, open);
    }
    let (off, heap_ptr, val_at_heap_ptr) = load_cell(b, e);
    ins_brif(b, val_at_heap_ptr, inner_bb, &[], inner_bb_exit);
    switch_to_block(b, inner_bb);
    nest.push((inner_bb, inner_bb_exit));
    let ghost f = Fresh {
        v: seq![off, heap_ptr, val_at_heap_ptr],
        b: seq![inner_bb, inner_bb_exit],
        i: Seq::empty(),
    };
    proof {
        let empty: [Value; 0] = [];
        assert(empty@ =~= Seq::<Value>::empty());
        assert(calls(b) =~= s0_log + chunk(BFIsa::Jmp(target), *e, open, f));
    }
    proof {
        let s = site(b);
        let last = open.len() as int;
        assert(!pending(open, inner_bb));
        assert(!pending(open, inner_bb_exit));
        assert forall|i: int| 0 <= i < nest@.len() implies {
            let (body, after) = #[trigger] nest@[i];
            &&& s.blocks.contains(body)
            &&& s.blocks.contains(after)
            &&& !s.sealed.contains(body)
            &&& !s.sealed.contains(after)
            &&& !s.filled.contains(after)
            &&& body != after
            &&& body != e.exit_block
            &&& after != e.exit_block
            &&& s.cursor != Some(after)
            &&& (s.cursor == Some(body) || s.filled.contains(body))
        } by {
            if i < last {
                assert(nest@[i] == open[i]);
                assert(pending(open, open[i].0));
                assert(pending(open, open[i].1));
            }
        }
        assert forall|i: int, j: int| 0 <= i < j < nest@.len() implies {
            let (body, after) = #[trigger] nest@[i];
            let (inner, behind) = #[trigger] nest@[j];
            body != inner && body != behind && after != inner && after != behind
        } by {
            assert(nest@[i] == open[i]);
            assert(pending(open, open[i].0));
            assert(pending(open, open[i].1));
            if j < last {
                assert(nest@[j] == open[j]);
            }
        }
        assert forall|blk: Block| #[trigger] s.blocks.contains(blk) implies s.cursor == Some(blk)
            || blk == e.exit_block || pending(nest@, blk) || (s.filled.contains(blk)
            && s.sealed.contains(blk)) by {
            if blk == inner_bb || blk == inner_bb_exit {
                assert(nest@[last] == (inner_bb, inner_bb_exit));
            } else {
                assert(s0.blocks.contains(blk));
                if pending(open, blk) {
                    let i = choose|i: int|
                        0 <= i < open.len() && ((#[trigger] open[i]).0 == blk || open[i].1 == blk);
                    assert(nest@[i] == open[i]);
                }
            }
        }
    }
    Ghost(f)
}

/// `Ret`: repeats the body where the cell is not zero, and else goes
/// behind the loop. The loop's two blocks have all their branches now, and
/// are sealed.
fn lower_ret(b: &mut Recorder, e: &Emit, target: usize, nest: &mut Vec<Nest>) -> (f: Ghost<
    Fresh,
>)
    requires
        shape(site(old(b)), *e, old(nest)@),
        old(nest)@.len() > 0,
    ensures
        shape(site(final(b)), *e, final(nest)@),
        final(nest)@ == old(nest)@.drop_last(),
        calls(final(b)) == calls(old(b)) + chunk(BFIsa::Ret(target), *e, old(nest)@, f@),
{
    let ghost s0 = site(b);
    let ghost s0_log = calls(b);
    let ghost open = nest@;
    let ghost last = open.len() - 1;
    let (curr_bb, exit_bb) = nest.pop().unwrap();
    assert(open[last] == (curr_bb, exit_bb));
    let (off, heap_ptr, val_at_heap_ptr) = load_cell(b, e);
    proof {
        lemma_shape_grown(s0, site(b), *e, open);
    }
    ins_brif(b, val_at_heap_ptr, curr_bb, &[], exit_bb);
    seal_block(b, curr_bb);
    seal_block(b, exit_bb);
    switch_to_block(b, exit_bb);
    let ghost f = Fresh { v: seq![off, heap_ptr, val_at_heap_ptr], b: Seq::empty(), i: Seq::empty() };
    proof {
        let empty: [Value; 0] = [];
        assert(empty@ =~= Seq::<Value>::empty());
        assert(calls(b) =~= s0_log + chunk(BFIsa::Ret(target), *e, open, f));
    }
    proof {
        let s = site(b);
        assert forall|i: int| 0 <= i < nest@.len() implies {
            let (body, after) = #[trigger] nest@[i];
            &&& s.blocks.contains(body)
            &&& s.blocks.contains(after)
            &&& !s.sealed.contains(body)
            &&& !s.sealed.contains(after)
            &&& !s.filled.contains(after)
            &&& body != after
            &&& body != e.exit_block
            &&& after != e.exit_block
            &&& s.cursor != Some(after)
            &&& (s.cursor == Some(body) || s.filled.contains(body))
        } by {
            assert(nest@[i] == open[i]);
            assert(open[i].0 != open[last].0 && open[i].1 != open[last].1);
        }
        assert forall|i: int, j: int| 0 <= i < j < nest@.len() implies {
            let (body, after) = #[trigger] nest@[i];
            let (inner, behind) = #[trigger] nest@[j];
            body != inner && body != behind && after != inner && after != behind
        } by {
            assert(nest@[i] == open[i]);
            assert(nest@[j] == open[j]);
        }
        assert forall|blk: Block| #[trigger] s.blocks.contains(blk) implies s.cursor == Some(blk)
            || blk == e.exit_block || pending(nest@, blk) || (s.filled.contains(blk)
            && s.sealed.contains(blk)) by {
            assert(s0.blocks.contains(blk));
            if pending(open, blk) && blk != curr_bb && blk != exit_bb {
                let i = choose|i: int|
                    0 <= i < open.len() && ((#[trigger] open[i]).0 == blk || open[i].1 == blk);
                assert(nest@[i] == open[i]);
            }
        }
    }
    Ghost(f)
}

/// `LoopMvPtr(d)`: a loop of its own, entered where the cell is not zero,
/// that moves the data pointer until it rests on a zero cell.
fn lower_mv_ptr(b: &mut Recorder, e: &Emit, d: isize, Ghost(nest): Ghost<Seq<Nest>>) -> (f:
    Ghost<Fresh>)
    requires
        shape(site(old(b)), *e, nest),
    ensures
        shape(site(final(b)), *e, nest),
        calls(final(b)) == calls(old(b)) + chunk(BFIsa::LoopMvPtr(d), *e, nest, f@),
{
    let ghost s0 = site(b);
    let ghost s0_log = calls(b);
    let loop_bb = create_block(b);
    let loop_bb_exit = create_block(b);
    proof {
        lemma_shape_step(s0, site(b), *e, nest);
    }
    let (off, heap_ptr, val_at_heap_ptr) = load_cell(b, e);
    ins_brif(b, val_at_heap_ptr, loop_bb, &[], loop_bb_exit);
    switch_to_block(b, loop_bb);
    let ghost s1 = site(b);
    let ghost s1_log = calls(b);
    proof {
        let empty: [Value; 0] = [];
        assert(empty@ =~= Seq::<Value>::empty());
        assert(s1_log =~= s0_log + (seq![Op::Block(loop_bb), Op::Block(loop_bb_exit)] + load_ops(
            *e,
            off,
            heap_ptr,
            val_at_heap_ptr,
        ) + seq![
            Op::Brif(val_at_heap_ptr, loop_bb, Seq::empty(), loop_bb_exit),
            Op::Switch(loop_bb),
        ]));
    }
    let (heap_offset, inner_ptr) = cell_address(b, e);
    let (tgt, wr, c, tgt_heap_offset) = wrapped_target(b, e, heap_offset, d);
    let ghost s2 = site(b);
    let ghost s2_log = calls(b);
    let loop_data_ptr = ins_iadd(b, e.heap, tgt_heap_offset);
    def_var(b, e.ptr, tgt_heap_offset);
    let loop_data_val = ins_load(b, e.byte, loop_data_ptr);
    ins_brif(b, loop_data_val, loop_bb, &[], loop_bb_exit);
    seal_block(b, loop_bb);
    seal_block(b, loop_bb_exit);
    switch_to_block(b, loop_bb_exit);
    let ghost f = Fresh {
        v: seq![
            off,
            heap_ptr,
            val_at_heap_ptr,
            heap_offset,
            inner_ptr,
            tgt,
            wr,
            c,
            tgt_heap_offset,
            loop_data_ptr,
            loop_data_val,
        ],
        b: seq![loop_bb, loop_bb_exit],
        i: Seq::empty(),
    };
    proof {
        assert(s2_log =~= s1_log + (address_ops(*e, heap_offset, inner_ptr) + wrap_ops(
            *e,
            heap_offset,
            d,
            tgt,
            wr,
            c,
            tgt_heap_offset,
        )));
        assert(calls(b) =~= s2_log + seq![
            Op::Iadd(e.heap, tgt_heap_offset, loop_data_ptr),
            Op::DefVar(e.ptr, tgt_heap_offset),
            Op::Load(e.byte, loop_data_ptr, loop_data_val),
            Op::Brif(loop_data_val, loop_bb, Seq::empty(), loop_bb_exit),
            Op::Seal(loop_bb),
            Op::Seal(loop_bb_exit),
            Op::Switch(loop_bb_exit),
        ]);
        assert(calls(b) =~= s0_log + chunk(BFIsa::LoopMvPtr(d), *e, nest, f));
    }
    proof {
        let s = site(b);
        assert(!pending(nest, loop_bb));
        assert(!pending(nest, loop_bb_exit));
        assert forall|i: int| 0 <= i < nest.len() implies {
            let (body, after) = #[trigger] nest[i];
            &&& s.blocks.contains(body)
            &&& s.blocks.contains(after)
            &&& !s.sealed.contains(body)
            &&& !s.sealed.contains(after)
            &&& !s.filled.contains(after)
            &&& body != after
            &&& body != e.exit_block
            &&& after != e.exit_block
            &&& s.cursor != Some(after)
            &&& (s.cursor == Some(body) || s.filled.contains(body))
        } by {
            assert(pending(nest, nest[i].0));
            assert(pending(nest, nest[i].1));
        }
        assert forall|blk: Block| #[trigger] s.blocks.contains(blk) implies s.cursor == Some(blk)
            || blk == e.exit_block || pending(nest, blk) || (s.filled.contains(blk)
            && s.sealed.contains(blk)) by {
            if blk != loop_bb && blk != loop_bb_exit {
                assert(s0.blocks.contains(blk));
            }
        }
    }
    Ghost(f)
}

/// Why a program was not compiled.
#[derive(Debug)]
pub struct JitErr(pub &'static str);

/// The addresses of the two routines that compiled code calls for its
/// input and output. Each takes one argument and returns a pointer, null
/// for success: the first takes the byte to write, the second the address
/// to read a byte into.
#[derive(Clone, Copy, Debug)]
pub struct HostIo {
    /// The address of the routine that writes a byte.
    pub write: i64,
    /// The address of the routine that reads a byte.
    pub read: i64,
}

/// The calls in front of the walk: the variable for the pointer; the exit
/// block with its parameter; the entry block, sealed, with the function's
/// parameters, of which the first is the tape's address; the two zeros;
/// the pointer at 0; and the signatures and addresses of the host's two
/// routines.
pub open spec fn prologue_ops(e: Emit, host: HostIo) -> Seq<Op> {
    seq![
        Op::DeclareVar(e.ptr, e.pointer),
        Op::Block(e.exit_block),
        Op::Param(e.exit_block, e.pointer, e.exit_param),
        Op::Block(e.entry_block),
        Op::Seal(e.entry_block),
        Op::FunctionParams(e.entry_block),
        Op::Switch(e.entry_block),
        Op::FirstParam(e.entry_block, e.heap),
        Op::Iconst(e.byte, 0, e.zero_byte),
        Op::Iconst(e.pointer, 0, e.zero),
        Op::DefVar(e.ptr, e.zero),
        Op::Import(seq![e.byte], seq![e.pointer], e.conv, e.write_sig),
        Op::Iconst(e.pointer, host.write, e.write_address),
        Op::Import(seq![e.pointer], seq![e.pointer], e.conv, e.read_sig),
        Op::Iconst(e.pointer, host.read, e.read_address),
    ]
}

/// The calls behind the walk: null is returned; the exit block is gone on
/// in and sealed, and returns its parameter.
pub open spec fn epilogue_ops(e: Emit) -> Seq<Op> {
    seq![
        Op::Return(e.zero),
        Op::Switch(e.exit_block),
        Op::Seal(e.exit_block),
        Op::Return(e.exit_param),
    ]
}

/// The loops that are open behind the first `n` instructions of `txt`, as
/// the blocks that the code generator made for them.
pub open spec fn nest_of(txt: Seq<BFIsa>, fs: Seq<Fresh>, n: nat) -> Seq<Nest>
    decreases n,
{
    if n == 0 {
        Seq::empty()
    } else {
        let before = nest_of(txt, fs, (n - 1) as nat);
        if txt[n - 1] is Jmp {
            before.push((fs[n - 1].b[0], fs[n - 1].b[1]))
        } else if txt[n - 1] is Ret {
            before.drop_last()
        } else {
            before
        }
    }
}

/// The calls for the first `n` instructions of `txt`, one `chunk` after
/// the other.
pub open spec fn body_ops(txt: Seq<BFIsa>, e: Emit, fs: Seq<Fresh>, n: nat) -> Seq<Op>
    decreases n,
{
    if n == 0 {
        Seq::empty()
    } else {
        body_ops(txt, e, fs, (n - 1) as nat) + chunk(
            txt[n - 1],
            e,
            nest_of(txt, fs, (n - 1) as nat),
            fs[n - 1],
        )
    }
}

/// The calls that lower the program `txt`.
pub open spec fn program_ops(txt: Seq<BFIsa>, host: HostIo, e: Emit, fs: Seq<Fresh>) -> Seq<Op> {
    prologue_ops(e, host) + body_ops(txt, e, fs, txt.len()) + epilogue_ops(e)
}

/// `log` holds the calls that lower the program `txt` for a tape of `len`
/// cells and the host's routines `host`, whatever values, blocks and
/// instructions the code generator made for them: the pointer is variable
/// 0, and cells and addresses are integers.
#[verifier::opaque]
pub open spec fn lowering(txt: Seq<BFIsa>, len: usize, host: HostIo, log: Seq<Op>) -> bool {
    exists|e: Emit, fs: Seq<Fresh>|
        {
            &&& e.len == len
            &&& var_index(e.ptr) == 0
            &&& int_type(e.byte)
            &&& int_type(e.pointer)
            &&& fs.len() == txt.len()
            &&& #[trigger] program_ops(txt, host, e, fs) == log
        }
}

/// What the code generator made for later instructions does not change the
/// calls for earlier ones.
proof fn lemma_body_prefix(txt: Seq<BFIsa>, e: Emit, fs: Seq<Fresh>, g: Fresh, n: nat)
    requires
        n <= fs.len(),
    ensures
        nest_of(txt, fs.push(g), n) == nest_of(txt, fs, n),
        body_ops(txt, e, fs.push(g), n) == body_ops(txt, e, fs, n),
    decreases n,
{
    if n > 0 {
        lemma_body_prefix(txt, e, fs, g, (n - 1) as nat);
        assert(fs.push(g)[n - 1] == fs[n - 1]);
    }
}

/// Builds a function that takes the address of a tape of `len` cells, runs
/// `txt` on it from cell 0, and returns null, or else the first pointer
/// that is not null among those the host's routines return. `func` is the
/// empty function with one parameter of the type of addresses.
///
/// Succeeds exactly where every `Ret` closes a loop, and else reports the
/// first `Ret` that closes none. A program in which every `Ret` closes a
/// loop must close every loop. With the function comes the record of the
/// calls that built it, which are those that `lowering` lists.
pub fn lower(
    txt: &Vec<BFIsa>,
    len: usize,
    host: HostIo,
    func: Function,
    ctx: FunctionBuilderContext,
    byte: Type,
    pointer_type: Type,
    call_conv: CallConv,
) -> (r: Result<(Function, Ghost<Seq<Op>>), JitErr>)
    requires
        pristine_function(&func),
        function_params(&func) == seq![pointer_type],
        pristine_context(&ctx),
        int_type(byte),
        int_type(pointer_type),
        1 <= len <= i64::MAX,
        !stray_ret(txt@) ==> open_loops(txt@, txt@.len()) == 0,
    ensures
        match r {
            Ok(made) => !stray_ret(txt@) && finished(&made.0) && lowering(txt@, len, host, made.1@),
            Err(e) => stray_ret(txt@) && e == JitErr("Nesting Err in byte code ]"),
        },
{
    let mut func = func;
    let mut ctx = ctx;
    let mut recorder = start(&mut func, &mut ctx);
    let b = &mut recorder;

    let ptr = variable_new(0);
    declare_var(b, ptr, pointer_type);

    let exit_block = create_block(b);
    let exit_param = append_block_param(b, exit_block, pointer_type);
    assert(site(b).types.contains_key(exit_param));

    let block = create_block(b);
    seal_block(b, block);
    append_function_params(b, block);
    assert(site(b).types.contains_key(exit_param));
    switch_to_block(b, block);

    let heap = first_block_param(b, block);
    let zero_byte = ins_iconst(b, byte, 0);
    assert(site(b).types.contains_key(exit_param));
    let zero = ins_iconst(b, pointer_type, 0);
    assert(site(b).types.contains_key(exit_param));
    def_var(b, ptr, zero);

    let mut write_sig = signature_new(call_conv);
    signature_param(&mut write_sig, byte);
    signature_return(&mut write_sig, pointer_type);
    let write_sig = import_signature(b, write_sig);
    let write_address = ins_iconst(b, pointer_type, host.write);
    assert(site(b).types.contains_key(exit_param));

    let mut read_sig = signature_new(call_conv);
    signature_param(&mut read_sig, pointer_type);
    signature_return(&mut read_sig, pointer_type);
    let read_sig = import_signature(b, read_sig);
    let read_address = ins_iconst(b, pointer_type, host.read);

    let e = Emit {
        heap,
        zero,
        zero_byte,
        write_sig,
        write_address,
        read_sig,
        read_address,
        ptr,
        entry_block: block,
        exit_block,
        exit_param,
        byte,
        pointer: pointer_type,
        conv: call_conv,
        len,
    };
    let mut nest_stk: Vec<Nest> = Vec::new();
    let mut idx: usize = 0;
    let ghost fs: Seq<Fresh> = Seq::empty();
    proof {
        assert(Seq::<Type>::empty().push(byte) =~= seq![byte]);
        assert(Seq::<Type>::empty().push(pointer_type) =~= seq![pointer_type]);
        assert(calls(b) =~= prologue_ops(e, host));
        assert(calls(b) =~= prologue_ops(e, host) + body_ops(txt@, e, fs, 0));
        assert(shape(site(b), e, nest_stk@));
    }
    while idx < txt.len()
        invariant
            idx <= txt.len(),
            shape(site(b), e, nest_stk@),
            fs.len() == idx,
            nest_stk@ == nest_of(txt@, fs, idx as nat),
            calls(b) == prologue_ops(e, host) + body_ops(txt@, e, fs, idx as nat),
            nest_stk@.len() == open_loops(txt@, idx as nat),
            forall|i: int|
                0 <= i < idx && (#[trigger] txt@[i]) is Ret ==> open_loops(txt@, i as nat) > 0,
        decreases txt.len() - idx,
    {
        assert(open_loops(txt@, (idx + 1) as nat) == open_loops(txt@, idx as nat) + if txt@[idx as int] is Jmp {
            1int
        } else if txt@[idx as int] is Ret {
            -1int
        } else {
            0int
        });
        let ghost before = calls(b);
        let ghost open = nest_stk@;
        let made = match txt[idx] {
            BFIsa::Incr(n) => lower_incr(b, &e, n, Ghost(nest_stk@)),
            BFIsa::Mv(d) => lower_mv(b, &e, d, Ghost(nest_stk@)),
            BFIsa::Out => lower_out(b, &e, Ghost(nest_stk@)),
            BFIsa::In => lower_in(b, &e, Ghost(nest_stk@)),
            BFIsa::Jmp(t) => lower_jmp(b, &e, t, &mut nest_stk),
            BFIsa::Ret(t) => {
                if nest_stk.len() == 0 {
                    return Err(JitErr("Nesting Err in byte code ]"));
                }
                lower_ret(b, &e, t, &mut nest_stk)
            },
            BFIsa::LoopSetZero => lower_set_zero(b, &e, Ghost(nest_stk@)),
            BFIsa::LoopMvData(d) => lower_mv_data(b, &e, d, Ghost(nest_stk@)),
            BFIsa::LoopMvPtr(d) => lower_mv_ptr(b, &e, d, Ghost(nest_stk@)),
        };
        proof {
            lemma_body_prefix(txt@, e, fs, made@, idx as nat);
            let grown = fs.push(made@);
            assert(grown[idx as int] == made@);
            assert(calls(b) == before + chunk(txt@[idx as int], e, open, made@));
            assert(calls(b) =~= prologue_ops(e, host) + body_ops(txt@, e, grown, (idx + 1) as nat));
            fs = grown;
        }
        idx = idx + 1;
    }
    ins_return(b, zero);
    switch_to_block(b, exit_block);
    seal_block(b, exit_block);
    ins_return(b, exit_param);
    proof {
        assert(calls(b) =~= program_ops(txt@, host, e, fs));
    }
    let made = finish(recorder);
    proof {
        reveal(lowering);
    }
    Ok(made)
}

} // verus!
