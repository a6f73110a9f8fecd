//! A function builder that keeps a record of the calls made on it: each
//! function here makes one call and appends it to the record, with what it
//! was given and what it gave back.

use vstd::prelude::*;
use cranelift::codegen::ir::{Block, Function, Inst, SigRef, Signature, Type, Value};
use cranelift::codegen::isa::CallConv;
use cranelift::frontend::{FunctionBuilder, FunctionBuilderContext, Variable};
use crate::clif::{
    all_defined, all_typed, appended, blank_site, finished, function_params, grown, int_type,
    pristine_context, pristine_function, sig_conv, sig_params, sig_returns, terminated, tidy,
    typed, writable, Site,
};

verus! {

/// One call into a function builder, with what it was given and what it
/// gave back.
pub enum Op {
    /// `declare_var` of a variable with its type.
    DeclareVar(Variable, Type),
    /// `create_block`, and the block it made.
    Block(Block),
    /// `append_block_param` on a block with a type, and the value it made.
    Param(Block, Type, Value),
    /// `append_block_params_for_function_params` on a block.
    FunctionParams(Block),
    /// `seal_block`.
    Seal(Block),
    /// `switch_to_block`.
    Switch(Block),
    /// `block_params` of a block, and its first value.
    FirstParam(Block, Value),
    /// `def_var` of a variable with a value.
    DefVar(Variable, Value),
    /// `use_var` of a variable, and the value it gave.
    UseVar(Variable, Value),
    /// `import_signature` of a signature with these parameters, results and
    /// calling convention, and the reference it gave.
    Import(Seq<Type>, Seq<Type>, CallConv, SigRef),
    /// `iconst` of a type and a number, and its result.
    Iconst(Type, i64, Value),
    /// `iadd` of two values, and its result.
    Iadd(Value, Value, Value),
    /// `iadd_imm` of a value and a number, and its result.
    IaddImm(Value, i64, Value),
    /// `load` of a type from an address, and its result.
    Load(Type, Value, Value),
    /// `store` of a value to an address.
    Store(Value, Value),
    /// `icmp_imm`, signed less than, of a value and a number, and its
    /// result.
    LessImm(Value, i64, Value),
    /// `select` by a condition between two values, and its result.
    Select(Value, Value, Value, Value),
    /// `call_indirect` through a signature of an address with one argument,
    /// and the instruction it made.
    Call(SigRef, Value, Value, Inst),
    /// `inst_results` of an instruction, and its first value.
    Result(Inst, Value),
    /// `brif` on a condition to a block with arguments, or else to another
    /// block without.
    Brif(Value, Block, Seq<Value>, Block),
    /// `return_` of one value.
    Return(Value),
}

/// A function builder and the record of the calls made on it. Only the
/// functions of this module reach either of them, so the record holds the
/// calls that were made on this builder, in their order, and nothing else.
pub struct Recorder<'a> {
    builder: FunctionBuilder<'a>,
    calls: Ghost<Seq<Op>>,
}

/// The bookkeeping of the builder.
pub closed spec fn site(r: &Recorder) -> Site {
    crate::clif::site(&r.builder)
}

/// The calls made on the builder so far.
pub closed spec fn calls(r: &Recorder) -> Seq<Op> {
    r.calls@
}

/// A builder on the empty function `func`, with no call made.
pub(crate) fn start<'a>(func: &'a mut Function, ctx: &'a mut FunctionBuilderContext) -> (r:
    Recorder<'a>)
    requires
        pristine_function(old(func)),
        pristine_context(old(ctx)),
    ensures
        site(&r) == blank_site(function_params(old(func))),
        calls(&r) == Seq::<Op>::empty(),
{
    Recorder { builder: crate::clif::builder_new(func, ctx), calls: Ghost(Seq::empty()) }
}

/// Ends the building: the function that was built, and the calls that
/// built it.
pub(crate) fn finish(r: Recorder) -> (made: (Function, Ghost<Seq<Op>>))
    requires
        tidy(site(&r)),
        site(&r).begun.subset_of(site(&r).filled),
        site(&r).begun.subset_of(site(&r).sealed),
    ensures
        finished(&made.0),
        made.1@ == calls(&r),
{
    let Recorder { builder, calls } = r;
    (crate::clif::finalize(builder), calls)
}

/// Declares the variable `var` with the type `ty`.
pub(crate) fn declare_var(b: &mut Recorder, var: Variable, ty: Type)
    requires
        !site(old(b)).vars.contains_key(var),
        int_type(ty),
    ensures
        site(final(b)) == (Site { vars: site(old(b)).vars.insert(var, ty), ..site(old(b)) }),
        calls(final(b)) == calls(old(b)).push(Op::DeclareVar(var, ty)),
{
    crate::clif::declare_var(&mut b.builder, var, ty);
    proof {
        b.calls = Ghost(b.calls@.push(Op::DeclareVar(var, ty)));
    }
}

/// Makes a block.
pub(crate) fn create_block(b: &mut Recorder) -> (r: Block)
    requires
        tidy(site(old(b))),
    ensures
        !site(old(b)).blocks.contains(r),
        site(final(b)) == (Site { blocks: site(old(b)).blocks.insert(r), ..site(old(b)) }),
        calls(final(b)) == calls(old(b)).push(Op::Block(r)),
{
    let r = crate::clif::create_block(&mut b.builder);
    proof {
        b.calls = Ghost(b.calls@.push(Op::Block(r)));
    }
    r
}

/// Gives the block `block` one more parameter, of the type `ty`.
pub(crate) fn append_block_param(b: &mut Recorder, block: Block, ty: Type) -> (r: Value)
    requires
        tidy(site(old(b))),
        site(old(b)).blocks.contains(block),
        !site(old(b)).begun.contains(block),
        int_type(ty),
    ensures
        site(final(b)) == (Site {
            types: site(old(b)).types.insert(r, ty),
            params: site(old(b)).params.insert(
                block,
                if site(old(b)).params.contains_key(block) {
                    site(old(b)).params[block].push(r)
                } else {
                    seq![r]
                },
            ),
            ..site(old(b))
        }),
        calls(final(b)) == calls(old(b)).push(Op::Param(block, ty, r)),
{
    let r = crate::clif::append_block_param(&mut b.builder, block, ty);
    proof {
        b.calls = Ghost(b.calls@.push(Op::Param(block, ty, r)));
    }
    r
}

/// Gives the block `block` the parameters of the function.
pub(crate) fn append_function_params(b: &mut Recorder, block: Block)
    requires
        tidy(site(old(b))),
        site(old(b)).blocks.contains(block),
        !site(old(b)).begun.contains(block),
        !site(old(b)).targeted.contains(block),
        !site(old(b)).params.contains_key(block),
    ensures
        grown(site(old(b)), site(final(b))),
        site(final(b)).begun == site(old(b)).begun,
        site(final(b)).params.contains_key(block),
        all_typed(site(final(b)), site(final(b)).params[block], site(old(b)).entry),
        calls(final(b)) == calls(old(b)).push(Op::FunctionParams(block)),
{
    crate::clif::append_function_params(&mut b.builder, block);
    proof {
        b.calls = Ghost(b.calls@.push(Op::FunctionParams(block)));
    }
}

/// Seals the block `block`.
pub(crate) fn seal_block(b: &mut Recorder, block: Block)
    requires
        tidy(site(old(b))),
        site(old(b)).blocks.contains(block),
        !site(old(b)).sealed.contains(block),
    ensures
        grown(
            Site { sealed: site(old(b)).sealed.insert(block), ..site(old(b)) },
            site(final(b)),
        ),
        !site(old(b)).begun.contains(block) ==> site(final(b)) == (Site {
            sealed: site(old(b)).sealed.insert(block),
            ..site(old(b))
        }),
        calls(final(b)) == calls(old(b)).push(Op::Seal(block)),
{
    crate::clif::seal_block(&mut b.builder, block);
    proof {
        b.calls = Ghost(b.calls@.push(Op::Seal(block)));
    }
}

/// Goes on in the block `block`.
pub(crate) fn switch_to_block(b: &mut Recorder, block: Block)
    requires
        tidy(site(old(b))),
        site(old(b)).blocks.contains(block),
        !site(old(b)).filled.contains(block),
        site(old(b)).cursor is Some ==> site(old(b)).filled.contains(site(old(b)).cursor->0)
            || !site(old(b)).begun.contains(site(old(b)).cursor->0),
    ensures
        site(final(b)) == (Site { cursor: Some(block), ..site(old(b)) }),
        calls(final(b)) == calls(old(b)).push(Op::Switch(block)),
{
    crate::clif::switch_to_block(&mut b.builder, block);
    proof {
        b.calls = Ghost(b.calls@.push(Op::Switch(block)));
    }
}

/// Reads the first parameter of the block `block`.
pub(crate) fn first_block_param(b: &mut Recorder, block: Block) -> (r: Value)
    requires
        site(old(b)).blocks.contains(block),
        site(old(b)).params.contains_key(block),
        site(old(b)).params[block].len() > 0,
    ensures
        r == site(old(b)).params[block][0],
        site(final(b)) == site(old(b)),
        calls(final(b)) == calls(old(b)).push(Op::FirstParam(block, r)),
{
    let r = crate::clif::first_block_param(&b.builder, block);
    proof {
        b.calls = Ghost(b.calls@.push(Op::FirstParam(block, r)));
    }
    r
}

/// Gives the variable `var` the value `val`.
pub(crate) fn def_var(b: &mut Recorder, var: Variable, val: Value)
    requires
        site(old(b)).cursor is Some,
        site(old(b)).vars.contains_key(var),
        typed(site(old(b)), val, site(old(b)).vars[var]),
    ensures
        site(final(b)) == site(old(b)),
        calls(final(b)) == calls(old(b)).push(Op::DefVar(var, val)),
{
    crate::clif::def_var(&mut b.builder, var, val);
    proof {
        b.calls = Ghost(b.calls@.push(Op::DefVar(var, val)));
    }
}

/// Reads the variable `var`.
pub(crate) fn use_var(b: &mut Recorder, var: Variable) -> (r: Value)
    requires
        writable(site(old(b))),
        site(old(b)).vars.contains_key(var),
    ensures
        appended(site(old(b)), site(final(b))),
        typed(site(final(b)), r, site(old(b)).vars[var]),
        calls(final(b)) == calls(old(b)).push(Op::UseVar(var, r)),
{
    let r = crate::clif::use_var(&mut b.builder, var);
    proof {
        b.calls = Ghost(b.calls@.push(Op::UseVar(var, r)));
    }
    r
}

/// Reads the first result of the instruction `inst`.
pub(crate) fn first_result(b: &mut Recorder, inst: Inst) -> (r: Value)
    requires
        site(old(b)).results.contains_key(inst),
        site(old(b)).results[inst].len() > 0,
    ensures
        r == site(old(b)).results[inst][0],
        site(final(b)) == site(old(b)),
        calls(final(b)) == calls(old(b)).push(Op::Result(inst, r)),
{
    let r = crate::clif::first_result(&b.builder, inst);
    proof {
        b.calls = Ghost(b.calls@.push(Op::Result(inst, r)));
    }
    r
}

/// A constant of the type `ty`.
pub(crate) fn ins_iconst(b: &mut Recorder, ty: Type, imm: i64) -> (r: Value)
    requires
        writable(site(old(b))),
        int_type(ty),
    ensures
        appended(site(old(b)), site(final(b))),
        typed(site(final(b)), r, ty),
        calls(final(b)) == calls(old(b)).push(Op::Iconst(ty, imm, r)),
{
    let r = crate::clif::ins_iconst(&mut b.builder, ty, imm);
    proof {
        b.calls = Ghost(b.calls@.push(Op::Iconst(ty, imm, r)));
    }
    r
}

/// The sum of two values.
pub(crate) fn ins_iadd(b: &mut Recorder, x: Value, y: Value) -> (r: Value)
    requires
        writable(site(old(b))),
        site(old(b)).types.contains_key(x),
        site(old(b)).types.contains_key(y),
    ensures
        appended(site(old(b)), site(final(b))),
        typed(site(final(b)), r, site(old(b)).types[x]),
        calls(final(b)) == calls(old(b)).push(Op::Iadd(x, y, r)),
{
    let r = crate::clif::ins_iadd(&mut b.builder, x, y);
    proof {
        b.calls = Ghost(b.calls@.push(Op::Iadd(x, y, r)));
    }
    r
}

/// The sum of a value and a constant.
pub(crate) fn ins_iadd_imm(b: &mut Recorder, x: Value, imm: i64) -> (r: Value)
    requires
        writable(site(old(b))),
        site(old(b)).types.contains_key(x),
    ensures
        appended(site(old(b)), site(final(b))),
        typed(site(final(b)), r, site(old(b)).types[x]),
        calls(final(b)) == calls(old(b)).push(Op::IaddImm(x, imm, r)),
{
    let r = crate::clif::ins_iadd_imm(&mut b.builder, x, imm);
    proof {
        b.calls = Ghost(b.calls@.push(Op::IaddImm(x, imm, r)));
    }
    r
}

/// The `ty` at the address `p`.
pub(crate) fn ins_load(b: &mut Recorder, ty: Type, p: Value) -> (r: Value)
    requires
        writable(site(old(b))),
        int_type(ty),
        site(old(b)).types.contains_key(p),
    ensures
        appended(site(old(b)), site(final(b))),
        typed(site(final(b)), r, ty),
        calls(final(b)) == calls(old(b)).push(Op::Load(ty, p, r)),
{
    let r = crate::clif::ins_load(&mut b.builder, ty, p);
    proof {
        b.calls = Ghost(b.calls@.push(Op::Load(ty, p, r)));
    }
    r
}

/// Writes `x` to the address `p`.
pub(crate) fn ins_store(b: &mut Recorder, x: Value, p: Value)
    requires
        writable(site(old(b))),
        site(old(b)).types.contains_key(x),
        site(old(b)).types.contains_key(p),
    ensures
        appended(site(old(b)), site(final(b))),
        calls(final(b)) == calls(old(b)).push(Op::Store(x, p)),
{
    crate::clif::ins_store(&mut b.builder, x, p);
    proof {
        b.calls = Ghost(b.calls@.push(Op::Store(x, p)));
    }
}

/// Whether `x` is less than the constant.
pub(crate) fn ins_less_than_imm(b: &mut Recorder, x: Value, imm: i64) -> (r: Value)
    requires
        writable(site(old(b))),
        site(old(b)).types.contains_key(x),
    ensures
        appended(site(old(b)), site(final(b))),
        site(final(b)).types.contains_key(r),
        calls(final(b)) == calls(old(b)).push(Op::LessImm(x, imm, r)),
{
    let r = crate::clif::ins_less_than_imm(&mut b.builder, x, imm);
    proof {
        b.calls = Ghost(b.calls@.push(Op::LessImm(x, imm, r)));
    }
    r
}

/// `x` where `c` is not zero, else `y`.
pub(crate) fn ins_select(b: &mut Recorder, c: Value, x: Value, y: Value) -> (r: Value)
    requires
        writable(site(old(b))),
        site(old(b)).types.contains_key(c),
        site(old(b)).types.contains_key(x),
        site(old(b)).types.contains_key(y),
    ensures
        appended(site(old(b)), site(final(b))),
        typed(site(final(b)), r, site(old(b)).types[x]),
        calls(final(b)) == calls(old(b)).push(Op::Select(c, x, y, r)),
{
    let r = crate::clif::ins_select(&mut b.builder, c, x, y);
    proof {
        b.calls = Ghost(b.calls@.push(Op::Select(c, x, y, r)));
    }
    r
}

/// A call of the function at the address `callee` with one argument.
pub(crate) fn ins_call_indirect(b: &mut Recorder, sig: SigRef, callee: Value, arg: Value) -> (r: Inst)
    requires
        writable(site(old(b))),
        site(old(b)).sigs.contains_key(sig),
        site(old(b)).types.contains_key(callee),
        site(old(b)).types.contains_key(arg),
    ensures
        appended(site(old(b)), site(final(b))),
        site(final(b)).results.contains_key(r),
        all_typed(site(final(b)), site(final(b)).results[r], site(old(b)).sigs[sig]),
        calls(final(b)) == calls(old(b)).push(Op::Call(sig, callee, arg, r)),
{
    let r = crate::clif::ins_call_indirect(&mut b.builder, sig, callee, arg);
    proof {
        b.calls = Ghost(b.calls@.push(Op::Call(sig, callee, arg, r)));
    }
    r
}

/// A branch to `then` with `then_args` where `c` is not zero, else to `other`.
pub(crate) fn ins_brif(b: &mut Recorder, c: Value, then: Block, then_args: &[Value], other: Block)
    requires
        writable(site(old(b))),
        site(old(b)).types.contains_key(c),
        all_defined(site(old(b)), then_args@),
        site(old(b)).blocks.contains(then),
        site(old(b)).blocks.contains(other),
        !site(old(b)).sealed.contains(then),
        !site(old(b)).sealed.contains(other),
    ensures
        terminated(site(old(b)), site(final(b)), set![then, other]),
        calls(final(b)) == calls(old(b)).push(Op::Brif(c, then, then_args@, other)),
{
    crate::clif::ins_brif(&mut b.builder, c, then, then_args, other);
    proof {
        b.calls = Ghost(b.calls@.push(Op::Brif(c, then, then_args@, other)));
    }
}

/// Returns `v`.
pub(crate) fn ins_return(b: &mut Recorder, v: Value)
    requires
        writable(site(old(b))),
        site(old(b)).types.contains_key(v),
    ensures
        terminated(site(old(b)), site(final(b)), Set::empty()),
        calls(final(b)) == calls(old(b)).push(Op::Return(v)),
{
    crate::clif::ins_return(&mut b.builder, v);
    proof {
        b.calls = Ghost(b.calls@.push(Op::Return(v)));
    }
}

/// Imports the signature `sig`.
pub(crate) fn import_signature(b: &mut Recorder, sig: Signature) -> (r: SigRef)
    ensures
        site(final(b)) == (Site { sigs: site(old(b)).sigs.insert(r, sig_returns(&sig)), ..site(old(b)) }),
        calls(final(b)) == calls(old(b)).push(
            Op::Import(sig_params(&sig), sig_returns(&sig), sig_conv(&sig), r),
        ),
{
    let ghost op_params = sig_params(&sig);
    let ghost op_returns = sig_returns(&sig);
    let ghost op_conv = sig_conv(&sig);
    let r = crate::clif::import_signature(&mut b.builder, sig);
    proof {
        b.calls = Ghost(b.calls@.push(Op::Import(op_params, op_returns, op_conv, r)));
    }
    r
}

} // verus!
