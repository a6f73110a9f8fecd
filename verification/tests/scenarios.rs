use execute::isa::BFIsa;
use execute::state::ProgramState;

fn run(src: &str, input: &[u8]) -> (Result<i32, &'static str>, Vec<u8>) {
    let mut prog = ProgramState::new(src.as_bytes(), 2048).unwrap();
    let mut out = Vec::new();
    let r = prog.interpret(input, &mut out, 10_000_000);
    (r, out)
}

#[test]
fn emits_capital_a() {
    let (r, out) = run("++++++++[>++++++++<-]>+.", &[]);
    assert_eq!(r, Ok(0));
    assert_eq!(out, vec![0x41]);
}

#[test]
fn echoes_successor_of_input() {
    let (r, out) = run(",+.", b"A");
    assert_eq!(r, Ok(0));
    assert_eq!(out, b"B".to_vec());
}

#[test]
fn nested_multiplication() {
    let (r, out) = run("+++++[>+++++[>++<-]<-]>>.", &[]);
    assert_eq!(r, Ok(0));
    assert_eq!(out, vec![0x32]);
}

#[test]
fn transfer_to_the_left() {
    let (r, out) = run(">+++++[<+++++>-]<.", &[]);
    assert_eq!(r, Ok(0));
    assert_eq!(out, vec![25]);
}

#[test]
fn hello_world() {
    let src = "++++++++[>++++[>++>+++>+++>+<<<<-]>+>+>->>+[<]<-]>>.>---.+++++++..+++.>>.<-.<.+++.------.--------.>>+.>++.";
    assert_eq!(src.len(), 106);
    let (r, out) = run(src, &[]);
    assert_eq!(r, Ok(0));
    assert_eq!(out, b"Hello World!\n".to_vec());
}

#[test]
fn endless_loop_is_left_to_the_budget() {
    let mut prog = ProgramState::new(b"+[]", 2048).unwrap();
    assert_eq!(prog.txt(), &vec![BFIsa::Incr(1), BFIsa::Jmp(2), BFIsa::Ret(1)]);
    let mut out = Vec::new();
    assert_eq!(prog.interpret(&[], &mut out, 1000), Err("Step budget exhausted"));
    assert!(out.is_empty());
}
