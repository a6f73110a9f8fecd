//! A program together with the machine it runs on.

use vstd::prelude::*;
use vstd::pervasive::unreached;
use crate::isa::BFIsa;
use crate::machine::{
    apply, machine_ok, run_spec, seek, step_spec, wrap_ptr, Event, Exit, Machine,
};
use cranelift::codegen::ir::{Function, Type};
use cranelift::codegen::settings::Builder;
use target_lexicon::Triple;
use crate::clif::{
    byte_type, codegen_context, compile, context_new, display_of, finished, flags_new, frozen,
    function_new, host_triple, listing, machine_code, optimized, passes, set_result,
    settings_builder, settings_set, shared_settings, signature_new, signature_param,
    signature_return, target_call_conv, target_for, target_of, target_pointer_type,
    verify_function, Target,
};
use crate::lower::{lower, lowering, HostIo, JitErr};
use crate::record::Op;
use crate::pairing::{balanced, closed_at, open_loops, stray_ret};
use crate::parse::{parse, parse_spec, NestingErr};
use crate::profile::{no_tally, recorded, Profile, Tally};
use crate::unparse::canonical;

verus! {

/// A parsed program, its tape, and where it stands.
pub struct ProgramState {
    ptr: usize,
    pc: usize,
    heap: Vec<u8>,
    txt: Vec<BFIsa>,
    jit_txt: Option<Vec<u8>>,
    jit_ir: Option<String>,
    taken: usize,
    profile: Profile,
}

/// Another name for `ProgramState`.
#[allow(non_camel_case_types)]
pub type Program_State = ProgramState;

/// A tape of `len` zero cells.
pub open spec fn blank(len: nat) -> Seq<u8> {
    Seq::new(len, |i: int| 0u8)
}

impl View for ProgramState {
    type V = Machine;

    closed spec fn view(&self) -> Machine {
        Machine { pc: self.pc as nat, ptr: self.ptr as nat, heap: self.heap@ }
    }
}

impl ProgramState {
    /// The program.
    pub closed spec fn code(&self) -> Seq<BFIsa> {
        self.txt@
    }

    /// The machine code of the program, once it has been compiled.
    pub closed spec fn native(&self) -> Option<Seq<u8>> {
        match self.jit_txt {
            Some(bytes) => Some(bytes@),
            None => None,
        }
    }

    /// The number of input bytes that the last run by `interpret` read.
    pub closed spec fn taken(&self) -> nat {
        self.taken as nat
    }

    /// The number of cells of the tape.
    pub closed spec fn cells(&self) -> usize {
        self.heap.len()
    }

    /// The counts of what ran so far.
    pub closed spec fn tally(&self) -> Tally {
        self.profile@
    }

    /// The compiler's listing of the program, once it was asked for.
    pub closed spec fn listed(&self) -> Option<Seq<char>> {
        match self.jit_ir {
            Some(text) => Some(text@),
            None => None,
        }
    }

    /// What holds of every state: the pointer is on a tape that is not
    /// empty, the program counter is in or just behind the program, and the
    /// program is as the parser makes them: folded, paired, balanced, and
    /// fit to be written out and read again.
    #[verifier::opaque]
    pub open spec fn wf(&self) -> bool {
        &&& machine_ok(self@)
        &&& self@.heap.len() <= isize::MAX
        &&& self@.pc <= self.code().len()
        &&& parsed_code(self.code())
    }

    #[verifier::type_invariant]
    closed spec fn inv(&self) -> bool {
        self.wf()
    }

    /// Parses `src` and sets the program up on a zeroed tape of `heap_sz`
    /// cells.
    pub fn new(src: &[u8], heap_sz: usize) -> (r: Result<ProgramState, NestingErr>)
        requires
            1 <= heap_sz <= isize::MAX,
        ensures
            match r {
                Ok(p) => {
                    &&& parse_spec(src@) == Ok::<Seq<BFIsa>, NestingErr>(p.code())
                    &&& p@ == Machine { pc: 0, ptr: 0, heap: blank(heap_sz as nat) }
                    &&& p.native() is None
                    &&& p.listed() is None
                    &&& p.taken() == 0
                    &&& p.tally() == no_tally()
                    &&& p.wf()
                },
                Err(e) => parse_spec(src@) == Err::<Seq<BFIsa>, NestingErr>(e),
            },
    {
        match parse(src) {
            Err(e) => Err(e),
            Ok(code) => {
                proof {
                    reveal(ProgramState::wf);
                    reveal(parsed_code);
                }
                let heap = vec![0u8; heap_sz];
                assert(heap@ =~= blank(heap_sz as nat));
                Ok(
                    ProgramState {
                        ptr: 0,
                        pc: 0,
                        heap,
                        txt: code,
                        jit_txt: None,
                        jit_ir: None,
                        taken: 0,
                        profile: Profile::default(),
                    },
                )
            },
        }
    }

    /// The program.
    pub fn txt(&self) -> (code: &Vec<BFIsa>)
        ensures
            code@ == self.code(),
            self.wf(),
    {
        proof {
            use_type_invariant(self);
            reveal(ProgramState::wf);
        }
        &self.txt
    }

    /// The counts of what ran so far.
    pub fn profile(&self) -> (p: &Profile)
        ensures
            p@ == self.tally(),
    {
        &self.profile
    }

    /// Counts one run of the instruction `instr`, which stands at `pc`.
    fn count(&mut self, instr: BFIsa, pc: usize)
        requires
            pc < usize::MAX,
        ensures
            final(self)@ == old(self)@,
            final(self).code() == old(self).code(),
            final(self).native() == old(self).native(),
            final(self).listed() == old(self).listed(),
            final(self).taken() == old(self).taken(),
            final(self).tally() == recorded(old(self).tally(), instr, pc),
    {
        proof {
            use_type_invariant(&*self);
            reveal(ProgramState::wf);
        }
        let mut profile = Profile::default();
        std::mem::swap(&mut self.profile, &mut profile);
        profile.record(instr, pc);
        self.profile = profile;
    }

    /// The tape.
    pub fn heap(&self) -> (cells: &Vec<u8>)
        ensures
            cells@ == self@.heap,
            cells.len() == self.cells(),
    {
        &self.heap
    }

    /// The number of input bytes that the last run by `interpret` read.
    pub fn input_taken(&self) -> (n: usize)
        ensures
            n == self.taken(),
    {
        self.taken
    }

    /// The index of the current cell.
    pub fn ptr(&self) -> (p: usize)
        ensures
            p == self@.ptr,
    {
        self.ptr
    }

    /// The index of the next instruction.
    pub fn pc(&self) -> (p: usize)
        ensures
            p == self@.pc,
    {
        self.pc
    }

    /// The instruction that runs next, if the program has not ended.
    pub fn peek(&self) -> (instr: Option<BFIsa>)
        ensures
            instr == if self@.pc < self.code().len() {
                Some(self.code()[self@.pc as int])
            } else {
                None
            },
    {
        if self.pc < self.txt.len() {
            Some(self.txt[self.pc])
        } else {
            None
        }
    }

    /// Runs one instruction. `input` is the byte on offer in case the
    /// instruction reads one; an instruction that does not read leaves it
    /// alone.
    pub fn step(&mut self, input: Option<u8>) -> (ev: Event)
        ensures
            (final(self)@, ev) == step_spec(old(self).code(), old(self)@, input),
            final(self).code() == old(self).code(),
            final(self).native() == old(self).native(),
            final(self).listed() == old(self).listed(),
            final(self).taken() == old(self).taken(),
            final(self).tally() == if ev is Halted || ev is NeedInput {
                old(self).tally()
            } else {
                recorded(
                    old(self).tally(),
                    old(self).code()[old(self)@.pc as int],
                    old(self)@.pc as usize,
                )
            },
            old(self).wf(),
            final(self).wf(),
    {
        proof {
            use_type_invariant(&*self);
            reveal(ProgramState::wf);
        }
        if self.pc >= self.txt.len() {
            return Event::Halted;
        }
        let len = self.heap.len();
        let cell = self.heap[self.ptr];
        let ghost before = self@;
        let mut ev = Event::Continue;
        let instr = self.txt[self.pc];
        let was = self.pc;
        proof {
            lemma_targets_in(self.txt@);
        }
        match instr {
            BFIsa::Incr(n) => {
                self.heap[self.ptr] = cell.wrapping_add(n);
                self.pc = self.pc + 1;
            },
            BFIsa::Out => {
                ev = Event::Output(cell);
                self.pc = self.pc + 1;
            },
            BFIsa::In => match input {
                Some(b) => {
                    self.heap[self.ptr] = b;
                    self.pc = self.pc + 1;
                },
                None => {
                    ev = Event::NeedInput;
                },
            },
            BFIsa::Mv(d) => {
                self.ptr = wrap_ptr(self.ptr, d, len);
                self.pc = self.pc + 1;
            },
            BFIsa::LoopSetZero => {
                self.heap[self.ptr] = 0;
                self.pc = self.pc + 1;
            },
            BFIsa::LoopMvData(d) => {
                let to = wrap_ptr(self.ptr, d, len);
                let sum = self.heap[to].wrapping_add(cell);
                self.heap[to] = sum;
                self.heap[self.ptr] = 0;
                self.pc = self.pc + 1;
            },
            BFIsa::LoopMvPtr(d) => {
                let mut at = self.ptr;
                let mut left = len;
                while self.heap[at] != 0 && left > 0
                    invariant
                        at < len,
                        len == self.heap.len(),
                        seek(self.heap@, self.ptr as int, d as int, len as nat) == seek(
                            self.heap@,
                            at as int,
                            d as int,
                            left as nat,
                        ),
                    decreases left,
                {
                    at = wrap_ptr(at, d, len);
                    left = left - 1;
                }
                if self.heap[at] == 0 {
                    self.ptr = at;
                    self.pc = self.pc + 1;
                }
            },
            BFIsa::Jmp(t) => {
                proof {
                    lemma_targets_in(self.txt@);
                }
                self.pc = if cell == 0 {
                    t + 1
                } else {
                    self.pc + 1
                };
            },
            BFIsa::Ret(t) => {
                self.pc = if cell != 0 {
                    t + 1
                } else {
                    self.pc + 1
                };
            },
        }
        assert(self@.heap =~= apply(self.txt@[before.pc as int], before, input).0.heap);
        if ev != Event::NeedInput {
            self.count(instr, was);
        }
        ev
    }

    /// Runs the program from where it stands, for at most `fuel` steps,
    /// reading from `input` and appending what it writes to `output`. How
    /// many bytes of `input` were read is kept for `input_taken`.
    /// Returns `Ok(0)` when the program has ended, and an error when an
    /// `In` finds no input left or the budget runs out, in which cases the
    /// state is left where the run stopped.
    pub fn interpret(&mut self, input: &[u8], output: &mut Vec<u8>, fuel: usize) -> (r: Result<
        i32,
        &'static str,
    >)
        ensures
            final(self).code() == old(self).code(),
            final(self).native() == old(self).native(),
            final(self).listed() == old(self).listed(),
            final(self).taken() == run_spec(
                old(self).code(),
                old(self)@,
                input@,
                fuel as nat,
            ).consumed,
            final(self).wf(),
            final(self).tally() == run_tally(
                old(self).code(),
                old(self)@,
                input@,
                fuel as nat,
                old(self).tally(),
            ),
            final(self)@ == run_spec(old(self).code(), old(self)@, input@, fuel as nat).machine,
            final(output)@ == old(output)@ + run_spec(
                old(self).code(),
                old(self)@,
                input@,
                fuel as nat,
            ).output,
            r == interpret_result(
                run_spec(old(self).code(), old(self)@, input@, fuel as nat).exit,
            ),
    {
        let ghost txt = self.code();
        let ghost whole = run_spec(txt, self@, input@, fuel as nat);
        let ghost written = Seq::<u8>::empty();
        let mut taken: usize = 0;
        let mut left: usize = fuel;
        assert(input@.skip(0) =~= input@);
        loop
            invariant
                taken <= input.len(),
                self.code() == txt,
                self.native() == old(self).native(),
                self.listed() == old(self).listed(),
                run_tally(txt, old(self)@, input@, fuel as nat, old(self).tally()) == run_tally(
                    txt,
                    self@,
                    input@.skip(taken as int),
                    left as nat,
                    self.tally(),
                ),
                output@ == old(output)@ + written,
                txt == old(self).code(),
                whole == run_spec(txt, old(self)@, input@, fuel as nat),
                whole.machine == run_spec(
                    txt,
                    self@,
                    input@.skip(taken as int),
                    left as nat,
                ).machine,
                whole.exit == run_spec(txt, self@, input@.skip(taken as int), left as nat).exit,
                whole.consumed == taken + run_spec(
                    txt,
                    self@,
                    input@.skip(taken as int),
                    left as nat,
                ).consumed,
                whole.output =~= written + run_spec(
                    txt,
                    self@,
                    input@.skip(taken as int),
                    left as nat,
                ).output,
            decreases left,
        {
            let ghost here = self@;
            let ghost rest = run_spec(txt, here, input@.skip(taken as int), left as nat);
            match self.peek() {
                None => {
                    assert(old(output)@ + written =~= old(output)@ + whole.output);
                    proof {
                        use_type_invariant(&*self);
                        reveal(ProgramState::wf);
                    }
                    self.taken = taken;
                    return Ok(0);
                },
                Some(instr) => {
                    if left == 0 {
                        assert(old(output)@ + written =~= old(output)@ + whole.output);
                        proof {
                            use_type_invariant(&*self);
                            reveal(ProgramState::wf);
                        }
                        self.taken = taken;
                        return Err("Step budget exhausted");
                    }
                    let offered = if let BFIsa::In = instr {
                        if taken >= input.len() {
                            assert(old(output)@ + written =~= old(output)@ + whole.output);
                            proof {
                                use_type_invariant(&*self);
                                reveal(ProgramState::wf);
                            }
                            self.taken = taken;
                            return Err("Error reading from stdio");
                        }
                        proof {
                            lemma_run_unfolds(
                                txt,
                                here,
                                input@.skip(taken as int),
                                left as nat,
                                self.tally(),
                            );
                        }
                        let b = input[taken];
                        taken = taken + 1;
                        assert(input@.skip(taken - 1).skip(1) =~= input@.skip(taken as int));
                        Some(b)
                    } else {
                        proof {
                            lemma_run_unfolds(
                                txt,
                                here,
                                input@.skip(taken as int),
                                left as nat,
                                self.tally(),
                            );
                        }
                        None
                    };
                    let ev = self.step(offered);
                    left = left - 1;
                    if let Event::Output(b) = ev {
                        output.push(b);
                        proof {
                            let tail = run_spec(txt, self@, input@.skip(taken as int), left as nat);
                            assert(written.push(b) + tail.output =~= written + (seq![b]
                                + tail.output));
                            written = written.push(b);
                        }
                    }
                },
            }
        }
    }
}

impl ProgramState {
    /// The machine code of the program, once it has been compiled.
    pub fn jit_code(&self) -> (code: Option<&Vec<u8>>)
        ensures
            match code {
                Some(bytes) => self.native() == Some(bytes@),
                None => self.native() is None,
            },
    {
        self.jit_txt.as_ref()
    }

    /// The compiler's listing of the program, once it was asked for.
    pub fn jit_listing(&self) -> (text: Option<&String>)
        ensures
            match text {
                Some(t) => self.listed() == Some(t@),
                None => self.listed() is None,
            },
    {
        self.jit_ir.as_ref()
    }

    /// Puts `tape` in place of the tape, which it must match in length.
    pub fn load_tape(&mut self, tape: Vec<u8>)
        requires
            tape@.len() == old(self)@.heap.len(),
        ensures
            final(self)@ == (Machine { heap: tape@, ..old(self)@ }),
            final(self).wf(),
            final(self).tally() == old(self).tally(),
            final(self).code() == old(self).code(),
            final(self).native() == old(self).native(),
            final(self).listed() == old(self).listed(),
            final(self).taken() == old(self).taken(),
    {
        proof {
            use_type_invariant(&*self);
            reveal(ProgramState::wf);
        }
        self.heap = tape;
    }

    /// Takes in what the code generator made of the program: the machine
    /// code, if it made any, and the listing, if one was asked for. The
    /// listing is kept in either case. Returns `Ok(0)` where there is code.
    pub fn install(&mut self, code: Option<Vec<u8>>, text: Option<String>) -> (r: Result<
        i32,
        JitErr,
    >)
        ensures
            final(self)@ == old(self)@,
            final(self).wf(),
            final(self).tally() == old(self).tally(),
            final(self).code() == old(self).code(),
            final(self).taken() == old(self).taken(),
            final(self).listed() == match text {
                Some(t) => Some(t@),
                None => old(self).listed(),
            },
            match code {
                Some(bytes) => r == Ok::<i32, JitErr>(0) && final(self).native() == Some(bytes@),
                None => r == Err::<i32, JitErr>(JitErr("Code generation failed"))
                    && final(self).native() == old(self).native(),
            },
    {
        proof {
            use_type_invariant(&*self);
            reveal(ProgramState::wf);
        }
        if let Some(t) = text {
            self.jit_ir = Some(t);
        }
        match code {
            Some(bytes) => {
                self.jit_txt = Some(bytes);
                Ok(0)
            },
            None => Err(JitErr("Code generation failed")),
        }
    }

    /// The machine code and the listing of the state, as `compiled` takes
    /// them.
    pub open spec fn made(&self) -> Made {
        (self.native(), self.listed())
    }

    /// Compiles the program for this machine and keeps the machine code.
    /// Where `clir` asks for it, the compiler's listing is kept too, once
    /// code generation has been tried. `host` names the routines that the
    /// compiled code calls to read and to write.
    ///
    /// Fails at once where the code generator has no target for this
    /// machine, and else does what `jit_compile_for` does with that target.
    /// The program of a state is balanced, so no `Ret` is ever reported as
    /// closing no loop.
    pub fn jit_compile(&mut self, clir: bool, host: HostIo) -> (r: Result<i32, JitErr>)
        ensures
            final(self)@ == old(self)@,
            final(self).wf(),
            final(self).tally() == old(self).tally(),
            final(self).taken() == old(self).taken(),
            final(self).code() == old(self).code(),
            match r {
                Ok(v) => v == 0 && final(self).native() is Some,
                Err(e) => final(self).native() == old(self).native() && jit_failure(e),
            },
            exists|target: Option<Target>|
                host_chosen(target) && #[trigger] compiled_on(
                    target,
                    old(self).code(),
                    old(self).cells(),
                    host,
                    clir,
                    old(self).made(),
                    final(self).made(),
                    r,
                ),
    {
        proof {
            use_type_invariant(&*self);
        }
        let target = host_target();
        let r = match &target {
            Some(t) => self.jit_compile_for(clir, host, t),
            None => Err(JitErr("No code generator for this machine")),
        };
        assert(compiled_on(
            target,
            old(self).code(),
            old(self).cells(),
            host,
            clir,
            old(self).made(),
            self.made(),
            r,
        ));
        r
    }

    /// Compiles the program with the code generator `target` and keeps the
    /// machine code, and the compiler's listing where `clir` asks for it.
    ///
    /// The program is lowered by the calls that `lowering` lists, and what
    /// the code generator makes of the function that they built decides
    /// the rest, as `compiled` says.
    pub fn jit_compile_for(&mut self, clir: bool, host: HostIo, target: &Target) -> (r: Result<
        i32,
        JitErr,
    >)
        ensures
            final(self)@ == old(self)@,
            final(self).wf(),
            final(self).tally() == old(self).tally(),
            final(self).taken() == old(self).taken(),
            final(self).code() == old(self).code(),
            match r {
                Ok(v) => v == 0 && final(self).native() is Some,
                Err(e) => final(self).native() == old(self).native() && jit_failure(e),
            },
            compiled_for(
                target,
                old(self).code(),
                old(self).cells(),
                host,
                clir,
                old(self).made(),
                final(self).made(),
                r,
            ),
    {
        proof {
            use_type_invariant(&*self);
            reveal(ProgramState::wf);
            lemma_parsed_is_balanced(self.txt@);
        }
        let lowered = lower_for(&self.txt, self.heap.len(), host, target);
        let ghost f = lowered;
        let r = self.compile_function(lowered, clir, target);
        assert(finished(&f) && compiled(&f, target, clir, old(self).made(), self.made(), r));
        r
    }

    /// Hands the function `f`, which a builder has finished, to the code
    /// generator `target`, and keeps the machine code, and the compiler's
    /// listing where `clir` asks for it. What becomes of `f` there decides
    /// what is kept and returned, as `compiled` says.
    fn compile_function(&mut self, f: Function, clir: bool, target: &Target) -> (r: Result<
        i32,
        JitErr,
    >)
        requires
            finished(&f),
        ensures
            final(self)@ == old(self)@,
            final(self).wf(),
            final(self).tally() == old(self).tally(),
            final(self).taken() == old(self).taken(),
            final(self).code() == old(self).code(),
            compiled(&f, target, clir, old(self).made(), final(self).made(), r),
    {
        proof {
            use_type_invariant(&*self);
        }
        if !verify_function(&f, target) {
            return Err(JitErr("Generated function failed verification"));
        }
        let mut cx = codegen_context(f);
        let code = compile(&mut cx, target);
        let text = if clir {
            Some(listing(&cx))
        } else {
            None
        };
        self.install(code, text)
    }
}

/// The machine code and the listing that a state holds.
pub type Made = (Option<Seq<u8>>, Option<Seq<char>>);

/// What comes of handing the finished function `f` to the code generator
/// `target`, for a state that held `was` and now holds `now`, with the
/// result `r`.
///
/// Where the function does not pass the code generator's checks, that is
/// the error, and the state holds what it held. Else code generation is
/// tried: the listing, where `clir` asks for one, is that of the function
/// as code generation left it; and the machine code, where there is any,
/// is kept and the result is `Ok(0)`, while without any the state keeps the
/// code that it had and the result is the error of code generation.
pub open spec fn compiled(
    f: &Function,
    target: &Target,
    clir: bool,
    was: Made,
    now: Made,
    r: Result<i32, JitErr>,
) -> bool {
    if !passes(f, target) {
        r == Err::<i32, JitErr>(JitErr("Generated function failed verification")) && now == was
    } else {
        &&& now.1 == if clir {
            Some(display_of(&optimized(f, target)))
        } else {
            was.1
        }
        &&& match machine_code(f, target) {
            Some(bytes) => r == Ok::<i32, JitErr>(0) && now.0 == Some(bytes),
            None => r == Err::<i32, JitErr>(JitErr("Code generation failed")) && now.0 == was.0,
        }
    }
}

/// What comes of compiling the program `code` for a tape of `cells` cells
/// with the code generator `target`: the program is lowered by the calls
/// that `lowering` lists, and the function that was built is handed to the
/// code generator.
pub open spec fn compiled_for(
    target: &Target,
    code: Seq<BFIsa>,
    cells: usize,
    host: HostIo,
    clir: bool,
    was: Made,
    now: Made,
    r: Result<i32, JitErr>,
) -> bool {
    &&& lowered_by(code, cells, host)
    &&& exists|f: Function| finished(&f) && #[trigger] compiled(&f, target, clir, was, now, r)
}

/// What comes of compiling the program `code` on a machine for which the
/// code generator has the target `target`, or none: without one that is
/// the error, and the state holds what it held.
pub open spec fn compiled_on(
    target: Option<Target>,
    code: Seq<BFIsa>,
    cells: usize,
    host: HostIo,
    clir: bool,
    was: Made,
    now: Made,
    r: Result<i32, JitErr>,
) -> bool {
    match target {
        Some(t) => compiled_for(&t, code, cells, host, clir, was, now, r),
        None => r == Err::<i32, JitErr>(JitErr("No code generator for this machine")) && now
            == was,
    }
}

/// The code generator for the machine `triple` with the settings `b`, set
/// to optimise for speed and to keep no frame pointers; or none, where a
/// setting is refused or the code generator knows no such machine.
pub open spec fn host_choice(b: &Builder, triple: &Triple) -> Option<Target> {
    match set_result(b, "opt_level"@, "speed"@) {
        None => None,
        Some(fast) => match set_result(&fast, "preserve_frame_pointers"@, "false"@) {
            None => None,
            Some(lean) => target_of(triple, &frozen(&lean)),
        },
    }
}

/// `target` is the choice for some machine, from the settings that all
/// targets share.
pub open spec fn host_chosen(target: Option<Target>) -> bool {
    exists|b: Builder, triple: Triple|
        shared_settings(&b) && target == #[trigger] host_choice(&b, &triple)
}

/// The code generator for the machine that this library was built for,
/// set to optimise for speed and to keep no frame pointers; or none, where
/// the code generator knows no such machine or takes no such settings.
pub fn host_target() -> (target: Option<Target>)
    ensures
        host_chosen(target),
{
    let mut shared = settings_builder();
    let ghost fresh = shared;
    let triple = host_triple();
    let ghost machine = triple;
    if !settings_set(&mut shared, "opt_level", "speed") {
        assert(host_choice(&fresh, &machine) is None);
        return None;
    }
    if !settings_set(&mut shared, "preserve_frame_pointers", "false") {
        assert(host_choice(&fresh, &machine) is None);
        return None;
    }
    let target = target_for(triple, flags_new(shared));
    assert(target == host_choice(&fresh, &machine));
    target
}

/// Some calls lower the program `code` for a tape of `len` cells and the
/// host's routines `host`.
pub open spec fn lowered_by(code: Seq<BFIsa>, len: usize, host: HostIo) -> bool {
    exists|calls: Seq<Op>| #[trigger] lowering(code, len, host, calls)
}

/// Lowers the balanced program `txt` for the code generator `target`: a
/// function of one address that returns an address.
fn lower_for(txt: &Vec<BFIsa>, len: usize, host: HostIo, target: &Target) -> (f: Function)
    requires
        balanced(txt@),
        1 <= len <= i64::MAX,
    ensures
        finished(&f),
        lowered_by(txt@, len, host),
{
    proof {
        lemma_balanced_has_no_stray_ret(txt@);
    }
    let call_conv = target_call_conv(target);
    let pointer_type = target_pointer_type(target);
    let byte = byte_type();
    let mut sig = signature_new(call_conv);
    signature_param(&mut sig, pointer_type);
    signature_return(&mut sig, pointer_type);
    assert(Seq::<Type>::empty().push(pointer_type) =~= seq![pointer_type]);
    let func = function_new(sig);
    let func_ctx = context_new();
    match lower(txt, len, host, func, func_ctx, byte, pointer_type, call_conv) {
        Ok(made) => made.0,
        Err(_) => unreached(),
    }
}

/// The status that compiled code returned, as an exit code: 0 for null,
/// and else a number that is not 0, the low 31 bits of the status where
/// they are not all zero.
pub open spec fn exit_code_spec(status: usize) -> i32 {
    if status == 0 {
        0
    } else if status % 0x8000_0000 == 0 {
        1
    } else {
        (status % 0x8000_0000) as i32
    }
}

/// The exit code for the status that compiled code returned.
pub fn exit_code(status: usize) -> (code: i32)
    ensures
        code == exit_code_spec(status),
        code == 0 <==> status == 0,
{
    if status == 0 {
        0
    } else {
        let low = status % 0x8000_0000;
        if low == 0 {
            1
        } else {
            low as i32
        }
    }
}

/// The errors of `jit_compile` on a state: one for each step at which the
/// code generator can fail.
pub open spec fn jit_failure(e: JitErr) -> bool {
    ||| e == JitErr("No code generator for this machine")
    ||| e == JitErr("Generated function failed verification")
    ||| e == JitErr("Code generation failed")
}

/// The program `code` holds all that holds of the parser's programs: it is
/// folded, paired and balanced, and fit to be written out and read again.
#[verifier::opaque]
pub open spec fn parsed_code(code: Seq<BFIsa>) -> bool {
    canonical(code) && balanced(code)
}

/// Every branch of `code` leads into `code`.
pub open spec fn targets_in(code: Seq<BFIsa>) -> bool {
    forall|i: int|
        0 <= i < code.len() ==> match #[trigger] code[i] {
            BFIsa::Jmp(t) => t < code.len(),
            BFIsa::Ret(t) => t < code.len(),
            _ => true,
        }
}

/// Every branch of a parser's program leads into the program.
pub proof fn lemma_targets_in(code: Seq<BFIsa>)
    requires
        parsed_code(code),
    ensures
        targets_in(code),
        code.len() <= usize::MAX,
{
    reveal(parsed_code);
    assert forall|i: int| 0 <= i < code.len() implies match #[trigger] code[i] {
        BFIsa::Jmp(t) => t < code.len(),
        BFIsa::Ret(t) => t < code.len(),
        _ => true,
    } by {
        if code[i] is Jmp {
            assert(closed_at(code, i));
        }
    }
}

/// A parser's program is balanced.
pub proof fn lemma_parsed_is_balanced(code: Seq<BFIsa>)
    requires
        parsed_code(code),
    ensures
        balanced(code),
        canonical(code),
{
    reveal(parsed_code);
}

/// In a balanced program every `Ret` closes an open loop.
pub proof fn lemma_balanced_has_no_stray_ret(code: Seq<BFIsa>)
    requires
        balanced(code),
    ensures
        !stray_ret(code),
        open_loops(code, code.len()) == 0,
{
    assert forall|i: int| 0 <= i < code.len() && (#[trigger] code[i]) is Ret implies open_loops(
        code,
        i as nat,
    ) > 0 by {
        assert(open_loops(code, (i + 1) as nat) == open_loops(code, i as nat) - 1);
    }
}

/// The counts `t` after the run of `txt` from `m` that reads from `input`
/// and takes at most `fuel` steps: every instruction that ran is counted.
pub open spec fn run_tally(txt: Seq<BFIsa>, m: Machine, input: Seq<u8>, fuel: nat, t: Tally) -> Tally
    decreases fuel,
{
    if m.pc >= txt.len() || fuel == 0 {
        t
    } else if txt[m.pc as int] is In {
        if input.len() == 0 {
            t
        } else {
            run_tally(
                txt,
                apply(txt[m.pc as int], m, Some(input[0])).0,
                input.skip(1),
                (fuel - 1) as nat,
                recorded(t, txt[m.pc as int], m.pc as usize),
            )
        }
    } else {
        run_tally(
            txt,
            apply(txt[m.pc as int], m, None).0,
            input,
            (fuel - 1) as nat,
            recorded(t, txt[m.pc as int], m.pc as usize),
        )
    }
}

/// What one step contributes to a run that can take it: the run goes on
/// from the machine behind the step, with the input that is left, and
/// what the step writes comes first.
pub proof fn lemma_run_unfolds(txt: Seq<BFIsa>, m: Machine, input: Seq<u8>, fuel: nat, t: Tally)
    requires
        m.pc < txt.len(),
        fuel > 0,
        txt[m.pc as int] is In ==> input.len() > 0,
    ensures
        ({
            let instr = txt[m.pc as int];
            let offered = if instr is In {
                Some(input[0])
            } else {
                None
            };
            let left = if instr is In {
                input.skip(1)
            } else {
                input
            };
            let next = apply(instr, m, offered);
            let rest = run_spec(txt, next.0, left, (fuel - 1) as nat);
            let whole = run_spec(txt, m, input, fuel);
            &&& whole.machine == rest.machine
            &&& whole.exit == rest.exit
            &&& whole.consumed == rest.consumed + if instr is In {
                1nat
            } else {
                0nat
            }
            &&& whole.output == match next.1 {
                Event::Output(b) => seq![b] + rest.output,
                _ => rest.output,
            }
            &&& run_tally(txt, m, input, fuel, t) == run_tally(
                txt,
                next.0,
                left,
                (fuel - 1) as nat,
                recorded(t, instr, m.pc as usize),
            )
        }),
{
}

/// What `interpret` returns for each way a run can end.
pub open spec fn interpret_result(exit: Exit) -> Result<i32, &'static str> {
    match exit {
        Exit::Halted => Ok(0),
        Exit::Starved => Err("Error reading from stdio"),
        Exit::Exhausted => Err("Step budget exhausted"),
    }
}

} // verus!
