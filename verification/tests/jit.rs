use cranelift::codegen::control::ControlPlane;
use cranelift::codegen::ir::{types, AbiParam, Function, Signature, UserFuncName};
use cranelift::codegen::isa::{self, CallConv};
use cranelift::codegen::settings::{self, Configurable};
use cranelift::codegen::Context;
use cranelift::frontend::FunctionBuilderContext;
use target_lexicon::Triple;
use execute::isa::BFIsa;
use execute::lower::{lower, within_turn, HostIo, JitErr};
use execute::state::{exit_code, host_target, ProgramState};

const HOST: HostIo = HostIo { write: 0x1000, read: 0x2000 };

fn compiled(src: &str, clir: bool) -> ProgramState {
    let mut prog = ProgramState::new(src.as_bytes(), 2048).unwrap();
    let r = prog.jit_compile(clir, HOST);
    assert!(matches!(r, Ok(0)), "{:?}", r);
    prog
}

#[test]
fn nothing_is_compiled_before_it_is_asked_for() {
    let prog = ProgramState::new(b"+.", 2048).unwrap();
    assert!(prog.jit_code().is_none());
    assert!(prog.jit_listing().is_none());
}

#[test]
fn compiles_every_kind_of_instruction() {
    let prog = compiled("+>-<.,[.[-]>[>]<[->+<]+]", false);
    assert!(!prog.jit_code().unwrap().is_empty());
    assert!(prog.jit_listing().is_none());
}

#[test]
fn compiles_the_empty_program() {
    let prog = compiled("", false);
    assert!(!prog.jit_code().unwrap().is_empty());
}

#[test]
fn compiles_hello_world() {
    let src = "++++++++[>++++[>++>+++>+++>+<<<<-]>+>+>->>+[<]<-]>>.>---.+++++++..+++.>>.<-.<.+++.------.--------.>>+.>++.";
    let prog = compiled(src, false);
    assert!(!prog.jit_code().unwrap().is_empty());
}

#[test]
fn listing_is_kept_when_asked_for() {
    let prog = compiled("+[>+<-]", true);
    let text = prog.jit_listing().unwrap();
    assert!(text.contains("brif"), "{}", text);
    assert!(text.contains("return"), "{}", text);
}

#[test]
fn compiling_leaves_the_machine_alone() {
    let mut prog = ProgramState::new(b"+++.", 16).unwrap();
    prog.step(None);
    let r = prog.jit_compile(false, HOST);
    assert!(matches!(r, Ok(0)));
    assert_eq!(prog.pc(), 1);
    assert_eq!(prog.ptr(), 0);
    assert_eq!(prog.heap()[0], 3);
    assert_eq!(prog.heap().len(), 16);
}

#[test]
fn null_status_is_exit_code_zero() {
    assert_eq!(exit_code(0), 0);
}

#[test]
fn status_that_is_not_null_is_never_exit_code_zero() {
    assert_eq!(exit_code(0x7f12_3458), 0x7f12_3458);
    assert_eq!(exit_code(0x8000_0000), 1);
    assert_eq!(exit_code(0x8000_0010), 0x10);
    assert_eq!(exit_code(usize::MAX), 0x7fff_ffff);
}

#[test]
fn install_keeps_code_and_listing() {
    let mut prog = ProgramState::new(b"+", 4).unwrap();
    let r = prog.install(Some(vec![0xc3]), Some("listing".to_string()));
    assert!(matches!(r, Ok(0)));
    assert_eq!(prog.jit_code(), Some(&vec![0xc3]));
    assert_eq!(prog.jit_listing(), Some(&"listing".to_string()));
}

#[test]
fn install_without_code_fails_and_keeps_the_old_code() {
    let mut prog = ProgramState::new(b"+", 4).unwrap();
    assert!(matches!(prog.install(Some(vec![1, 2]), None), Ok(0)));
    let r = prog.install(None, Some("failed".to_string()));
    assert!(matches!(r, Err(execute::JitErr("Code generation failed"))));
    assert_eq!(prog.jit_code(), Some(&vec![1, 2]));
    assert_eq!(prog.jit_listing(), Some(&"failed".to_string()));
}

#[test]
fn compiled_code_differs_between_programs() {
    let a = compiled("+.", false);
    let b = compiled("+[>+<-]>.", false);
    assert_ne!(a.jit_code(), b.jit_code());
}

#[test]
fn compiled_code_is_the_same_for_the_same_program() {
    let a = compiled("+[>+<-]>.", false);
    let b = compiled("+[>+<-]>.", true);
    assert_eq!(a.jit_code(), b.jit_code());
}

#[test]
fn the_host_s_routines_are_part_of_the_code() {
    let a = compiled(",.", false);
    let mut prog = ProgramState::new(b",.", 2048).unwrap();
    let r = prog.jit_compile(false, HostIo { write: 0x3000, read: 0x4000 });
    assert!(matches!(r, Ok(0)));
    assert_ne!(a.jit_code(), prog.jit_code());
}

#[test]
fn the_tape_s_length_is_part_of_the_code() {
    let a = compiled("<+", false);
    let mut prog = ProgramState::new(b"<+", 4096).unwrap();
    assert!(matches!(prog.jit_compile(false, HOST), Ok(0)));
    assert_ne!(a.jit_code(), prog.jit_code());
}

#[test]
fn the_listing_shows_the_lowering() {
    let prog = compiled(".", true);
    let text = prog.jit_listing().unwrap();
    assert!(text.contains("call_indirect"), "{}", text);
    assert!(text.contains("brif"), "{}", text);
    let prog = compiled("[-]", true);
    let text = prog.jit_listing().unwrap();
    assert!(text.contains("store"), "{}", text);
    assert!(!text.contains("brif"), "{}", text);
}

#[test]
fn within_turn_keeps_the_side_and_the_cell() {
    assert_eq!(within_turn(0, 5), 0);
    assert_eq!(within_turn(3, 5), 3);
    assert_eq!(within_turn(-3, 5), -3);
    assert_eq!(within_turn(5, 5), 0);
    assert_eq!(within_turn(-5, 5), 0);
    assert_eq!(within_turn(7, 5), 2);
    assert_eq!(within_turn(-7, 5), -2);
    assert_eq!(within_turn(-1, 1), 0);
    assert_eq!(within_turn(isize::MAX, 2), 1);
    assert_eq!(within_turn(isize::MIN, 3), -(((1u128 << (isize::BITS - 1)) % 3) as i64));
}

#[test]
fn whole_turns_of_the_tape_are_left_out_of_the_code() {
    let code_of = |src: &str| {
        let mut prog = ProgramState::new(src.as_bytes(), 4).unwrap();
        assert!(matches!(prog.jit_compile(false, HOST), Ok(0)));
        prog.jit_code().unwrap().clone()
    };
    assert_eq!(code_of(",[>>>>>]"), code_of(",[>]"));
    assert_eq!(code_of(",[<<<<<<<]"), code_of(",[<<<]"));
    assert_eq!(code_of(",[->>>>>>+<<<<<<]"), code_of(",[->>+<<]"));
    assert_ne!(code_of(",[>>]"), code_of(",[>]"));
}

#[test]
fn a_loop_branches_at_its_start_and_at_its_end() {
    let prog = compiled(",[.-]", true);
    let text = prog.jit_listing().unwrap();
    assert_eq!(text.matches("brif").count(), 4, "{}", text);
    assert_eq!(text.matches("call_indirect sig1").count(), 1, "{}", text);
    assert_eq!(text.matches("call_indirect sig0").count(), 1, "{}", text);
    assert_eq!(text.matches("return").count(), 2, "{}", text);
    assert!(text.contains("sig0 = (i8) -> i64"), "{}", text);
    assert!(text.contains("sig1 = (i64) -> i64"), "{}", text);
    assert!(text.contains("iconst.i64 4096"), "{}", text);
    assert!(text.contains("iconst.i64 8192"), "{}", text);
    assert!(text.contains("iconst.i8 255"), "{}", text);
}

#[test]
fn a_scan_is_a_loop_of_its_own() {
    let prog = compiled(",[>]", true);
    let text = prog.jit_listing().unwrap();
    assert_eq!(text.matches("brif").count(), 3, "{}", text);
    assert!(text.contains("select"), "{}", text);
    assert!(text.contains("2048"), "{}", text);
}

#[test]
fn a_transfer_is_straight_line_code() {
    let prog = compiled(",[->>+<<]", true);
    let text = prog.jit_listing().unwrap();
    assert_eq!(text.matches("brif").count(), 1, "{}", text);
    assert_eq!(text.matches("store").count(), 2, "{}", text);
    assert_eq!(text.matches("load.i8").count(), 2, "{}", text);
}

fn lowered_with(txt: Vec<BFIsa>, pointer: types::Type, conv: CallConv) -> Result<Function, JitErr> {
    let mut sig = Signature::new(conv);
    sig.params.push(AbiParam::new(pointer));
    sig.returns.push(AbiParam::new(pointer));
    let func = Function::with_name_signature(UserFuncName::user(0, 0), sig);
    lower(&txt, 16, HOST, func, FunctionBuilderContext::new(), types::I8, pointer, conv)
        .map(|made| made.0)
}

fn lowered(txt: Vec<BFIsa>) -> Result<Function, JitErr> {
    lowered_with(txt, types::I64, CallConv::SystemV)
}

#[test]
fn a_ret_that_closes_no_loop_is_not_lowered() {
    let r = lowered(vec![BFIsa::Ret(0)]);
    assert!(matches!(r, Err(JitErr("Nesting Err in byte code ]"))));
    let r = lowered(vec![BFIsa::Incr(1), BFIsa::Ret(3), BFIsa::Out, BFIsa::Jmp(1)]);
    assert!(matches!(r, Err(JitErr("Nesting Err in byte code ]"))));
    let r = lowered(vec![BFIsa::Jmp(1), BFIsa::Ret(0), BFIsa::Ret(0)]);
    assert!(matches!(r, Err(JitErr("Nesting Err in byte code ]"))));
}

#[test]
fn a_program_whose_loops_close_is_lowered() {
    let f = lowered(vec![
        BFIsa::In,
        BFIsa::Jmp(5),
        BFIsa::Out,
        BFIsa::Incr(255),
        BFIsa::Mv(-3),
        BFIsa::Ret(1),
        BFIsa::LoopSetZero,
        BFIsa::LoopMvData(2),
        BFIsa::LoopMvPtr(-1),
    ])
    .unwrap();
    let text = f.display().to_string();
    assert_eq!(text.matches("call_indirect").count(), 2, "{}", text);
    assert_eq!(text.matches("brif").count(), 6, "{}", text);
    assert_eq!(text.matches("select").count(), 3, "{}", text);
    assert_eq!(text.matches("store").count(), 4, "{}", text);
    assert_eq!(text.matches("return").count(), 2, "{}", text);
}

#[test]
fn the_empty_program_returns_null() {
    let f = lowered(vec![]).unwrap();
    let text = f.display().to_string();
    assert_eq!(text.matches("return").count(), 2, "{}", text);
    assert!(!text.contains("brif"), "{}", text);
    assert!(!text.contains("store"), "{}", text);
}

#[test]
fn compiling_for_a_target_is_compiling() {
    let target = host_target().unwrap();
    let mut prog = ProgramState::new(b"+[>+<-]>.", 2048).unwrap();
    assert!(matches!(prog.jit_compile_for(false, HOST, &target), Ok(0)));
    let a = compiled("+[>+<-]>.", false);
    assert_eq!(prog.jit_code(), a.jit_code());
}

#[test]
fn the_code_kept_is_what_the_code_generator_makes_of_the_lowered_function() {
    let mut shared = settings::builder();
    shared.set("opt_level", "speed").unwrap();
    shared.set("preserve_frame_pointers", "false").unwrap();
    let target = isa::lookup(Triple::host()).unwrap().finish(settings::Flags::new(shared)).unwrap();
    let txt = vec![BFIsa::In, BFIsa::Jmp(4), BFIsa::Out, BFIsa::Mv(-3), BFIsa::Ret(1)];
    let f = lowered_with(txt, target.pointer_type(), CallConv::triple_default(target.triple()))
        .unwrap();
    let mut cx = Context::for_function(f);
    let code = cx.compile(&*target, &mut ControlPlane::default()).unwrap().code_buffer().to_vec();
    let text = cx.func.display().to_string();

    let mut prog = ProgramState::new(b",[.<<<]", 16).unwrap();
    assert!(matches!(prog.jit_compile(true, HOST), Ok(0)));
    assert_eq!(prog.jit_code(), Some(&code));
    assert_eq!(prog.jit_listing(), Some(&text));
}

#[test]
fn a_second_compilation_keeps_the_listing_of_the_first() {
    let mut prog = ProgramState::new(b"+[>+<-]", 16).unwrap();
    assert!(matches!(prog.jit_compile(true, HOST), Ok(0)));
    let text = prog.jit_listing().unwrap().clone();
    let code = prog.jit_code().unwrap().clone();
    assert!(matches!(prog.jit_compile(false, HOST), Ok(0)));
    assert_eq!(prog.jit_listing(), Some(&text));
    assert_eq!(prog.jit_code(), Some(&code));
}
