//! The code generator, as far as the lowering drives it: the types that are
//! carried through, a model of the function builder's bookkeeping, and one
//! function for each call. Nothing in this file is proved: each contract
//! restates what the code generator's source shows of the call.

use vstd::prelude::*;
use cranelift::codegen::ir::condcodes::IntCC;
use cranelift::codegen::ir::{
    types, AbiParam, Block, Function, Inst, InstBuilder, MemFlags, SigRef, Signature, Type,
    UserFuncName, Value,
};
use cranelift::codegen::isa::{CallConv, OwnedTargetIsa};
use cranelift::codegen::settings::{Builder, Configurable, Flags};
use cranelift::codegen::control::ControlPlane;
use cranelift::codegen::Context;
use cranelift::frontend::{FunctionBuilder, FunctionBuilderContext, Variable};
use target_lexicon::Triple;

verus! {

#[verifier::external_type_specification]
#[verifier::external_body]
pub struct ExFunction(Function);

#[verifier::external_type_specification]
#[verifier::external_body]
pub struct ExFunctionBuilderContext(FunctionBuilderContext);

#[verifier::external_type_specification]
#[verifier::external_body]
pub struct ExFunctionBuilder<'a>(FunctionBuilder<'a>);

#[verifier::external_type_specification]
#[verifier::external_body]
pub struct ExBlock(Block);

#[verifier::external_type_specification]
#[verifier::external_body]
pub struct ExValue(Value);

#[verifier::external_type_specification]
#[verifier::external_body]
pub struct ExInst(Inst);

#[verifier::external_type_specification]
#[verifier::external_body]
pub struct ExSigRef(SigRef);

#[verifier::external_type_specification]
#[verifier::external_body]
pub struct ExVariable(Variable);

#[verifier::external_type_specification]
#[verifier::external_body]
pub struct ExType(Type);

#[verifier::external_type_specification]
#[verifier::external_body]
pub struct ExSignature(Signature);

#[verifier::external_type_specification]
#[verifier::external_body]
pub struct ExCallConv(CallConv);

#[verifier::external_type_specification]
#[verifier::external_body]
pub struct ExFlags(Flags);

#[verifier::external_type_specification]
#[verifier::external_body]
pub struct ExBuilder(Builder);

#[verifier::external_type_specification]
#[verifier::external_body]
pub struct ExTriple(Triple);

#[verifier::external_type_specification]
#[verifier::external_body]
pub struct ExContext(Context);

/// A code generator for one machine. It holds the generator as a shared
/// trait object, which cannot be declared to the verifier as the other
/// outside types are.
#[verifier::external_body]
pub struct Target {
    isa: OwnedTargetIsa,
}

/// The bookkeeping of a function builder that decides whether a call is in
/// order.
pub struct Site {
    /// The block that instructions are appended to.
    pub cursor: Option<Block>,
    /// The blocks created so far.
    pub blocks: Set<Block>,
    /// The blocks that hold an instruction.
    pub begun: Set<Block>,
    /// The blocks that end in a terminator.
    pub filled: Set<Block>,
    /// The blocks whose predecessors are declared complete.
    pub sealed: Set<Block>,
    /// The blocks that some branch leads to.
    pub targeted: Set<Block>,
    /// The variables declared so far, each with its type.
    pub vars: Map<Variable, Type>,
    /// The values defined so far, each with its type.
    pub types: Map<Value, Type>,
    /// The parameters of the blocks that have any.
    pub params: Map<Block, Seq<Value>>,
    /// The types of the parameters of the function that is built.
    pub entry: Seq<Type>,
    /// The results of the instructions inserted so far.
    pub results: Map<Inst, Seq<Value>>,
    /// The signatures imported so far, each with the types of its results.
    pub sigs: Map<SigRef, Seq<Type>>,
}

/// The bookkeeping of `b`.
pub uninterp spec fn site(b: &FunctionBuilder) -> Site;

/// `f` is as `Function::with_name_signature` made it.
pub uninterp spec fn pristine_function(f: &Function) -> bool;

/// The types of the parameters of `f`.
pub uninterp spec fn function_params(f: &Function) -> Seq<Type>;

/// `f` is a function as a function builder held it when it was finalized.
/// It was built through the calls that this module wraps, which name types
/// of integers only.
pub uninterp spec fn finished(f: &Function) -> bool;

/// `f` passes the checks of the code generator `t`.
pub uninterp spec fn passes(f: &Function, t: &Target) -> bool;

/// The function that `cx` holds.
pub uninterp spec fn function_of(cx: &Context) -> Function;

/// The machine code that the code generator `t` makes of `f`, unless code
/// generation fails.
pub uninterp spec fn machine_code(f: &Function, t: &Target) -> Option<Seq<u8>>;

/// The function `f` as the code generator `t` leaves it when it has tried
/// to make code of it.
pub uninterp spec fn optimized(f: &Function, t: &Target) -> Function;

/// The function `f` as text.
pub uninterp spec fn display_of(f: &Function) -> Seq<char>;

/// What setting `name` to `value` makes of the settings `b`, where the
/// setting and the value are known.
pub uninterp spec fn set_result(b: &Builder, name: Seq<char>, value: Seq<char>) -> Option<Builder>;

/// The settings `b`, frozen.
pub uninterp spec fn frozen(b: &Builder) -> Flags;

/// The code generator for the machine `triple` with the settings `flags`,
/// where one is built in and takes them.
pub uninterp spec fn target_of(triple: &Triple, flags: &Flags) -> Option<Target>;

/// `c` is as `FunctionBuilderContext::new` made it.
pub uninterp spec fn pristine_context(c: &FunctionBuilderContext) -> bool;

/// `b` holds the settings that all targets share.
pub uninterp spec fn shared_settings(b: &Builder) -> bool;

/// `ty` is a type of integers.
pub uninterp spec fn int_type(ty: Type) -> bool;

/// The number of the variable `v`.
pub uninterp spec fn var_index(v: Variable) -> u32;

/// The types of the parameters of `s`.
pub uninterp spec fn sig_params(s: &Signature) -> Seq<Type>;

/// The types of the results of `s`.
pub uninterp spec fn sig_returns(s: &Signature) -> Seq<Type>;

/// The calling convention of `s`.
pub uninterp spec fn sig_conv(s: &Signature) -> CallConv;

/// The bookkeeping of a builder that nothing was done with, on a function
/// with parameters of the types `entry`.
pub open spec fn blank_site(entry: Seq<Type>) -> Site {
    Site {
        cursor: None,
        blocks: Set::empty(),
        begun: Set::empty(),
        filled: Set::empty(),
        sealed: Set::empty(),
        targeted: Set::empty(),
        vars: Map::empty(),
        types: Map::empty(),
        params: Map::empty(),
        entry,
        results: Map::empty(),
        sigs: Map::empty(),
    }
}

/// Everything that `pre` holds, `post` holds unchanged.
pub open spec fn kept<K, V>(pre: Map<K, V>, post: Map<K, V>) -> bool {
    forall|k: K| #[trigger] pre.contains_key(k) ==> post.contains_key(k) && post[k] == pre[k]
}

/// The bookkeeping speaks of created blocks only, and a filled block holds
/// an instruction.
pub open spec fn tidy(s: Site) -> bool {
    &&& s.begun.subset_of(s.blocks)
    &&& s.filled.subset_of(s.begun)
    &&& s.sealed.subset_of(s.blocks)
    &&& s.targeted.subset_of(s.blocks)
    &&& s.cursor is Some ==> s.blocks.contains(s.cursor->0)
    &&& forall|blk: Block| #[trigger] s.params.contains_key(blk) ==> s.blocks.contains(blk)
}

/// An instruction can be appended: there is a current block, and it has no
/// terminator yet.
pub open spec fn writable(s: Site) -> bool {
    &&& tidy(s)
    &&& s.cursor is Some
    &&& !s.filled.contains(s.cursor->0)
}

/// From `pre` to `post` nothing was taken back and no block was created,
/// filled, sealed or branched to: blocks may have received instructions
/// and parameters, and values and instructions may have been added.
pub open spec fn grown(pre: Site, post: Site) -> bool {
    &&& tidy(post)
    &&& post.cursor == pre.cursor
    &&& post.blocks == pre.blocks
    &&& post.filled == pre.filled
    &&& post.sealed == pre.sealed
    &&& post.targeted == pre.targeted
    &&& post.vars == pre.vars
    &&& post.sigs == pre.sigs
    &&& post.entry == pre.entry
    &&& pre.begun.subset_of(post.begun)
    &&& kept(pre.types, post.types)
    &&& kept(pre.results, post.results)
}

/// From `pre` to `post` an instruction that is no terminator was appended
/// to the current block.
pub open spec fn appended(pre: Site, post: Site) -> bool {
    &&& grown(pre, post)
    &&& post.begun.contains(pre.cursor->0)
}

/// From `pre` to `post` a terminator that leads to `targets` was appended
/// to the current block.
pub open spec fn terminated(pre: Site, post: Site, targets: Set<Block>) -> bool {
    &&& tidy(post)
    &&& post.cursor == pre.cursor
    &&& post.blocks == pre.blocks
    &&& post.filled == pre.filled.insert(pre.cursor->0)
    &&& post.sealed == pre.sealed
    &&& post.targeted == pre.targeted.union(targets)
    &&& post.vars == pre.vars
    &&& post.sigs == pre.sigs
    &&& post.entry == pre.entry
    &&& pre.begun.subset_of(post.begun)
    &&& kept(pre.types, post.types)
    &&& kept(pre.results, post.results)
}

/// `v` is defined in `s` with the type `ty`.
pub open spec fn typed(s: Site, v: Value, ty: Type) -> bool {
    s.types.contains_key(v) && s.types[v] == ty
}

/// Every value of `vs` is defined in `s`.
pub open spec fn all_defined(s: Site, vs: Seq<Value>) -> bool {
    forall|i: int| 0 <= i < vs.len() ==> s.types.contains_key(#[trigger] vs[i])
}

/// The values `vs` are defined in `s` with the types `tys`, one for one.
pub open spec fn all_typed(s: Site, vs: Seq<Value>, tys: Seq<Type>) -> bool {
    &&& vs.len() == tys.len()
    &&& forall|i: int| 0 <= i < vs.len() ==> typed(s, #[trigger] vs[i], tys[i])
}

/// `settings::builder`: the shared settings at their defaults.
#[verifier::external_body]
pub(crate) fn settings_builder() -> (b: Builder)
    ensures
        shared_settings(&b),
{
    cranelift::codegen::settings::builder()
}

/// `Configurable::set` on settings: whether the setting was accepted, in
/// which case the settings hold it, and else stay as they were. They stay
/// of their kind.
#[verifier::external_body]
pub(crate) fn settings_set(b: &mut Builder, name: &str, value: &str) -> (done: bool)
    ensures
        shared_settings(final(b)) == shared_settings(old(b)),
        done == set_result(old(b), name@, value@) is Some,
        *final(b) == if done {
            set_result(old(b), name@, value@)->0
        } else {
            *old(b)
        },
{
    b.set(name, value).is_ok()
}

/// `Flags::new`, which panics on settings of another kind: the shared
/// settings, frozen.
#[verifier::external_body]
pub(crate) fn flags_new(b: Builder) -> (flags: Flags)
    requires
        shared_settings(&b),
    ensures
        flags == frozen(&b),
{
    Flags::new(b)
}

/// `Triple::host`: the machine this library was built for.
#[verifier::external_body]
pub(crate) fn host_triple() -> Triple {
    Triple::host()
}

/// `isa::lookup`, then `IsaBuilder::finish`: the code generator for
/// `triple`, where one is built in and takes `flags`.
#[verifier::external_body]
pub(crate) fn target_for(triple: Triple, flags: Flags) -> (t: Option<Target>)
    ensures
        t == target_of(&triple, &flags),
{
    match cranelift::codegen::isa::lookup(triple) {
        Ok(made) => match made.finish(flags) {
            Ok(isa) => Some(Target { isa }),
            Err(_) => None,
        },
        Err(_) => None,
    }
}

/// `CallConv::triple_default` on the target's triple. It has a result for
/// every target that `isa::lookup` knows.
#[verifier::external_body]
pub(crate) fn target_call_conv(t: &Target) -> CallConv {
    CallConv::triple_default(t.isa.triple())
}

/// `TargetIsa::pointer_type`: the integer type as wide as an address.
#[verifier::external_body]
pub(crate) fn target_pointer_type(t: &Target) -> (ty: Type)
    ensures
        int_type(ty),
{
    t.isa.pointer_type()
}

/// `types::I8`: the type of a cell, an integer of 8 bits.
#[verifier::external_body]
pub(crate) fn byte_type() -> (ty: Type)
    ensures
        int_type(ty),
{
    types::I8
}

/// `Signature::new`: a signature without parameters or results.
#[verifier::external_body]
pub(crate) fn signature_new(cc: CallConv) -> (sig: Signature)
    ensures
        sig_params(&sig) == Seq::<Type>::empty(),
        sig_returns(&sig) == Seq::<Type>::empty(),
        sig_conv(&sig) == cc,
{
    Signature::new(cc)
}

/// `AbiParam::new`, appended to the parameters of `sig`.
#[verifier::external_body]
pub(crate) fn signature_param(sig: &mut Signature, ty: Type)
    requires
        int_type(ty),
    ensures
        sig_params(final(sig)) == sig_params(old(sig)).push(ty),
        sig_returns(final(sig)) == sig_returns(old(sig)),
        sig_conv(final(sig)) == sig_conv(old(sig)),
{
    sig.params.push(AbiParam::new(ty));
}

/// `AbiParam::new`, appended to the results of `sig`.
#[verifier::external_body]
pub(crate) fn signature_return(sig: &mut Signature, ty: Type)
    requires
        int_type(ty),
    ensures
        sig_params(final(sig)) == sig_params(old(sig)),
        sig_returns(final(sig)) == sig_returns(old(sig)).push(ty),
        sig_conv(final(sig)) == sig_conv(old(sig)),
{
    sig.returns.push(AbiParam::new(ty));
}

/// `Function::with_name_signature`: an empty function with the parameters
/// of the signature.
#[verifier::external_body]
pub(crate) fn function_new(sig: Signature) -> (f: Function)
    ensures
        pristine_function(&f),
        function_params(&f) == sig_params(&sig),
{
    Function::with_name_signature(UserFuncName::user(0, 0), sig)
}

/// `FunctionBuilderContext::new`: empty scratch space for a builder.
#[verifier::external_body]
pub(crate) fn context_new() -> (c: FunctionBuilderContext)
    ensures
        pristine_context(&c),
{
    FunctionBuilderContext::new()
}

/// `FunctionBuilder::new`: a builder on an empty function. It has no
/// current block, and nothing is created or declared.
#[verifier::external_body]
pub(crate) fn builder_new<'a>(func: &'a mut Function, ctx: &'a mut FunctionBuilderContext) -> (b:
    FunctionBuilder<'a>)
    requires
        pristine_function(old(func)),
        pristine_context(old(ctx)),
    ensures
        site(&b) == blank_site(function_params(old(func))),
{
    FunctionBuilder::new(func, ctx)
}

/// `Variable::from_u32`, which keeps the highest number for itself: the
/// variable of that number.
#[verifier::external_body]
pub(crate) fn variable_new(index: u32) -> (v: Variable)
    requires
        index < u32::MAX,
    ensures
        var_index(v) == index,
{
    Variable::from_u32(index)
}

/// `FunctionBuilder::declare_var`, which panics on a second declaration.
/// The type is one of integers, for which a variable that is read before
/// it is written has a value.
#[verifier::external_body]
pub(crate) fn declare_var(b: &mut FunctionBuilder, var: Variable, ty: Type)
    requires
        !site(old(b)).vars.contains_key(var),
        int_type(ty),
    ensures
        site(final(b)) == (Site {
            vars: site(old(b)).vars.insert(var, ty),
            ..site(old(b))
        }),
{
    b.declare_var(var, ty)
}

/// `FunctionBuilder::create_block`: a block that did not exist, empty,
/// unsealed, without parameters, and no branch's target.
#[verifier::external_body]
pub(crate) fn create_block(b: &mut FunctionBuilder) -> (r: Block)
    requires
        tidy(site(old(b))),
    ensures
        !site(old(b)).blocks.contains(r),
        site(final(b)) == (Site {
            blocks: site(old(b)).blocks.insert(r),
            ..site(old(b))
        }),
{
    b.create_block()
}

/// `FunctionBuilder::append_block_param`, which is refused once the block
/// holds an instruction: a new value of the type `ty`, behind the
/// parameters that the block has.
#[verifier::external_body]
pub(crate) fn append_block_param(b: &mut FunctionBuilder, block: Block, ty: Type) -> (r: Value)
    requires
        tidy(site(old(b))),
        site(old(b)).blocks.contains(block),
        !site(old(b)).begun.contains(block),
        int_type(ty),
    ensures
        site(final(b)) == (Site {
            types: site(old(b)).types.insert(r, ty),
            params: site(old(b)).params.insert(
                block,
                if site(old(b)).params.contains_key(block) {
                    site(old(b)).params[block].push(r)
                } else {
                    seq![r]
                },
            ),
            ..site(old(b))
        }),
{
    b.append_block_param(block, ty)
}

/// `FunctionBuilder::append_block_params_for_function_params`, which is
/// refused once the block holds an instruction or is a branch's target:
/// the block's parameters are new values of the types of the function's
/// parameters.
#[verifier::external_body]
pub(crate) fn append_function_params(b: &mut FunctionBuilder, block: Block)
    requires
        tidy(site(old(b))),
        site(old(b)).blocks.contains(block),
        !site(old(b)).begun.contains(block),
        !site(old(b)).targeted.contains(block),
        !site(old(b)).params.contains_key(block),
    ensures
        grown(site(old(b)), site(final(b))),
        site(final(b)).begun == site(old(b)).begun,
        site(final(b)).params.contains_key(block),
        all_typed(site(final(b)), site(final(b)).params[block], site(old(b)).entry),
{
    b.append_block_params_for_function_params(block)
}

/// `FunctionBuilder::seal_block`, which is refused on a sealed block. It
/// may insert instructions into other blocks, but does nothing else to a
/// block that holds no instruction: no variable was read there.
#[verifier::external_body]
pub(crate) fn seal_block(b: &mut FunctionBuilder, block: Block)
    requires
        tidy(site(old(b))),
        site(old(b)).blocks.contains(block),
        !site(old(b)).sealed.contains(block),
    ensures
        grown(
            Site { sealed: site(old(b)).sealed.insert(block), ..site(old(b)) },
            site(final(b)),
        ),
        !site(old(b)).begun.contains(block) ==> site(final(b)) == (Site {
            sealed: site(old(b)).sealed.insert(block),
            ..site(old(b))
        }),
{
    b.seal_block(block)
}

/// `FunctionBuilder::switch_to_block`, which is refused while the current
/// block holds instructions but no terminator, and on a filled block.
#[verifier::external_body]
pub(crate) fn switch_to_block(b: &mut FunctionBuilder, block: Block)
    requires
        tidy(site(old(b))),
        site(old(b)).blocks.contains(block),
        !site(old(b)).filled.contains(block),
        site(old(b)).cursor is Some ==> site(old(b)).filled.contains(site(old(b)).cursor->0)
            || !site(old(b)).begun.contains(site(old(b)).cursor->0),
    ensures
        site(final(b)) == (Site { cursor: Some(block), ..site(old(b)) }),
{
    b.switch_to_block(block)
}

/// `FunctionBuilder::block_params`: the first parameter of a block that
/// has one.
#[verifier::external_body]
pub(crate) fn first_block_param(b: &FunctionBuilder, block: Block) -> (r: Value)
    requires
        site(b).blocks.contains(block),
        site(b).params.contains_key(block),
        site(b).params[block].len() > 0,
    ensures
        r == site(b).params[block][0],
{
    b.block_params(block)[0]
}

/// `FunctionBuilder::def_var`, which panics where the variable is not
/// declared with the type of the value.
#[verifier::external_body]
pub(crate) fn def_var(b: &mut FunctionBuilder, var: Variable, val: Value)
    requires
        site(old(b)).cursor is Some,
        site(old(b)).vars.contains_key(var),
        typed(site(old(b)), val, site(old(b)).vars[var]),
    ensures
        site(final(b)) == site(old(b)),
{
    b.def_var(var, val)
}

/// `FunctionBuilder::use_var`: the value that the variable has here, of
/// the variable's type. It counts as an instruction of the current block,
/// and may insert others elsewhere.
#[verifier::external_body]
pub(crate) fn use_var(b: &mut FunctionBuilder, var: Variable) -> (r: Value)
    requires
        writable(site(old(b))),
        site(old(b)).vars.contains_key(var),
    ensures
        appended(site(old(b)), site(final(b))),
        typed(site(final(b)), r, site(old(b)).vars[var]),
{
    b.use_var(var)
}

/// `FunctionBuilder::import_signature`: a reference to the signature.
#[verifier::external_body]
pub(crate) fn import_signature(b: &mut FunctionBuilder, sig: Signature) -> (r: SigRef)
    ensures
        site(final(b)) == (Site {
            sigs: site(old(b)).sigs.insert(r, sig_returns(&sig)),
            ..site(old(b))
        }),
{
    b.import_signature(sig)
}

/// `FunctionBuilder::inst_results`: the first result of an instruction
/// that has one.
#[verifier::external_body]
pub(crate) fn first_result(b: &FunctionBuilder, inst: Inst) -> (r: Value)
    requires
        site(b).results.contains_key(inst),
        site(b).results[inst].len() > 0,
    ensures
        r == site(b).results[inst][0],
{
    b.inst_results(inst)[0]
}

/// `FunctionBuilder::finalize`, which is refused while a block that holds
/// an instruction is unsealed or has no terminator. The builder only
/// borrows its function and `finalize` hands nothing back, so the function
/// is copied, by `Function::clone`, just before the call: `finalize`
/// changes the function only for values that were declared to need a stack
/// map, which no call here does.
#[verifier::external_body]
pub(crate) fn finalize(b: FunctionBuilder) -> (f: Function)
    requires
        tidy(site(&b)),
        site(&b).begun.subset_of(site(&b).filled),
        site(&b).begun.subset_of(site(&b).sealed),
    ensures
        finished(&f),
{
    let f = b.func.clone();
    b.finalize();
    f
}

/// `InstBuilder::iconst`: a constant of the type `ty`.
#[verifier::external_body]
pub(crate) fn ins_iconst(b: &mut FunctionBuilder, ty: Type, imm: i64) -> (r: Value)
    requires
        writable(site(old(b))),
        int_type(ty),
    ensures
        appended(site(old(b)), site(final(b))),
        typed(site(final(b)), r, ty),
{
    b.ins().iconst(ty, imm)
}

/// `InstBuilder::iadd`: the sum of two values, of the type of the first.
#[verifier::external_body]
pub(crate) fn ins_iadd(b: &mut FunctionBuilder, x: Value, y: Value) -> (r: Value)
    requires
        writable(site(old(b))),
        site(old(b)).types.contains_key(x),
        site(old(b)).types.contains_key(y),
    ensures
        appended(site(old(b)), site(final(b))),
        typed(site(final(b)), r, site(old(b)).types[x]),
{
    b.ins().iadd(x, y)
}

/// `InstBuilder::iadd_imm`: the sum of a value and a constant, of the type
/// of the value.
#[verifier::external_body]
pub(crate) fn ins_iadd_imm(b: &mut FunctionBuilder, x: Value, imm: i64) -> (r: Value)
    requires
        writable(site(old(b))),
        site(old(b)).types.contains_key(x),
    ensures
        appended(site(old(b)), site(final(b))),
        typed(site(final(b)), r, site(old(b)).types[x]),
{
    b.ins().iadd_imm(x, imm)
}

/// `InstBuilder::load`, with plain flags and no offset: the `ty` at
/// address `p`.
#[verifier::external_body]
pub(crate) fn ins_load(b: &mut FunctionBuilder, ty: Type, p: Value) -> (r: Value)
    requires
        writable(site(old(b))),
        int_type(ty),
        site(old(b)).types.contains_key(p),
    ensures
        appended(site(old(b)), site(final(b))),
        typed(site(final(b)), r, ty),
{
    b.ins().load(ty, MemFlags::new(), p, 0)
}

/// `InstBuilder::store`, with plain flags and no offset: writes `x` to
/// address `p`.
#[verifier::external_body]
pub(crate) fn ins_store(b: &mut FunctionBuilder, x: Value, p: Value)
    requires
        writable(site(old(b))),
        site(old(b)).types.contains_key(x),
        site(old(b)).types.contains_key(p),
    ensures
        appended(site(old(b)), site(final(b))),
{
    b.ins().store(MemFlags::new(), x, p, 0);
}

/// `InstBuilder::icmp_imm` with `IntCC::SignedLessThan`: whether `x` is
/// less than the constant.
#[verifier::external_body]
pub(crate) fn ins_less_than_imm(b: &mut FunctionBuilder, x: Value, imm: i64) -> (r: Value)
    requires
        writable(site(old(b))),
        site(old(b)).types.contains_key(x),
    ensures
        appended(site(old(b)), site(final(b))),
        site(final(b)).types.contains_key(r),
{
    b.ins().icmp_imm(IntCC::SignedLessThan, x, imm)
}

/// `InstBuilder::select`: `x` where `c` is not zero, else `y`, of the type
/// of `x`.
#[verifier::external_body]
pub(crate) fn ins_select(b: &mut FunctionBuilder, c: Value, x: Value, y: Value) -> (r: Value)
    requires
        writable(site(old(b))),
        site(old(b)).types.contains_key(c),
        site(old(b)).types.contains_key(x),
        site(old(b)).types.contains_key(y),
    ensures
        appended(site(old(b)), site(final(b))),
        typed(site(final(b)), r, site(old(b)).types[x]),
{
    b.ins().select(c, x, y)
}

/// `InstBuilder::call_indirect`: a call of the function at address
/// `callee` with one argument. Its results are new values of the types of
/// the signature's results.
#[verifier::external_body]
pub(crate) fn ins_call_indirect(b: &mut FunctionBuilder, sig: SigRef, callee: Value, arg: Value) -> (r:
    Inst)
    requires
        writable(site(old(b))),
        site(old(b)).sigs.contains_key(sig),
        site(old(b)).types.contains_key(callee),
        site(old(b)).types.contains_key(arg),
    ensures
        appended(site(old(b)), site(final(b))),
        site(final(b)).results.contains_key(r),
        all_typed(site(final(b)), site(final(b)).results[r], site(old(b)).sigs[sig]),
{
    b.ins().call_indirect(sig, callee, &[arg])
}

/// `InstBuilder::brif`, which is refused where a target is sealed: a branch
/// to `then` where `c` is not zero, else to `other`. It ends the block.
#[verifier::external_body]
pub(crate) fn ins_brif(
    b: &mut FunctionBuilder,
    c: Value,
    then: Block,
    then_args: &[Value],
    other: Block,
)
    requires
        writable(site(old(b))),
        site(old(b)).types.contains_key(c),
        all_defined(site(old(b)), then_args@),
        site(old(b)).blocks.contains(then),
        site(old(b)).blocks.contains(other),
        !site(old(b)).sealed.contains(then),
        !site(old(b)).sealed.contains(other),
    ensures
        terminated(site(old(b)), site(final(b)), set![then, other]),
{
    b.ins().brif(c, then, then_args, other, &[]);
}

/// `InstBuilder::return_` of one value. It ends the block.
#[verifier::external_body]
pub(crate) fn ins_return(b: &mut FunctionBuilder, v: Value)
    requires
        writable(site(old(b))),
        site(old(b)).types.contains_key(v),
    ensures
        terminated(site(old(b)), site(final(b)), Set::empty()),
{
    b.ins().return_(&[v]);
}

/// `verify_function`, on a function that a builder finished: whether the
/// function passes the code generator's own checks.
#[verifier::external_body]
pub(crate) fn verify_function(func: &Function, t: &Target) -> (ok: bool)
    requires
        finished(func),
    ensures
        ok == passes(func, t),
{
    cranelift::codegen::verify_function(func, &*t.isa).is_ok()
}

/// `Context::for_function`: a compilation of `func`, not yet run.
#[verifier::external_body]
pub(crate) fn codegen_context(func: Function) -> (cx: Context)
    ensures
        function_of(&cx) == func,
{
    Context::for_function(func)
}

/// `Context::compile`, which panics on an instruction that the target has
/// no code for: the machine code of the function, unless code generation
/// fails; the context then holds the function as code generation left it.
/// The function is one that a builder finished, so it holds the
/// instructions that this module wraps on integers only, and it passed the
/// code generator's checks.
#[verifier::external_body]
pub(crate) fn compile(cx: &mut Context, t: &Target) -> (code: Option<Vec<u8>>)
    requires
        finished(&function_of(old(cx))),
        passes(&function_of(old(cx)), t),
    ensures
        match code {
            Some(bytes) => machine_code(&function_of(old(cx)), t) == Some(bytes@),
            None => machine_code(&function_of(old(cx)), t) is None,
        },
        function_of(final(cx)) == optimized(&function_of(old(cx)), t),
{
    match cx.compile(&*t.isa, &mut ControlPlane::default()) {
        Ok(code) => Some(code.code_buffer().to_vec()),
        Err(_) => None,
    }
}

/// `Function::display`: the function that the context holds, as text.
#[verifier::external_body]
pub(crate) fn listing(cx: &Context) -> (text: String)
    ensures
        text@ == display_of(&function_of(cx)),
{
    format!("{}", cx.func.display())
}

} // verus!
