use execute::isa::BFIsa;
use execute::machine::{reduce, wrap_ptr, Event};
use execute::state::ProgramState;

fn state(src: &str, cells: usize) -> ProgramState {
    ProgramState::new(src.as_bytes(), cells).unwrap()
}

fn run(src: &str, cells: usize, input: &[u8]) -> (ProgramState, Vec<u8>, Result<i32, &'static str>) {
    let mut prog = state(src, cells);
    let mut out = Vec::new();
    let r = prog.interpret(input, &mut out, 1_000_000);
    (prog, out, r)
}

#[test]
fn reduce_is_the_remainder_that_is_never_negative() {
    assert_eq!(reduce(0, 5), 0);
    assert_eq!(reduce(3, 5), 3);
    assert_eq!(reduce(5, 5), 0);
    assert_eq!(reduce(12, 5), 2);
    assert_eq!(reduce(-1, 5), 4);
    assert_eq!(reduce(-5, 5), 0);
    assert_eq!(reduce(-6, 5), 4);
    assert_eq!(reduce(-12, 5), 3);
    assert_eq!(reduce(isize::MAX, 1), 0);
    assert_eq!(reduce(isize::MIN, 1), 0);
    assert_eq!(reduce(isize::MIN, 3), (3 - (1usize << (usize::BITS - 1)) % 3) % 3);
    assert_eq!(reduce(isize::MAX, usize::MAX), isize::MAX as usize);
    assert_eq!(reduce(-1, usize::MAX), usize::MAX - 1);
}

#[test]
fn pointer_wraps_at_both_ends() {
    assert_eq!(wrap_ptr(0, 1, 4), 1);
    assert_eq!(wrap_ptr(3, 1, 4), 0);
    assert_eq!(wrap_ptr(0, -1, 4), 3);
    assert_eq!(wrap_ptr(2, -3, 4), 3);
    assert_eq!(wrap_ptr(2, 7, 4), 1);
    assert_eq!(wrap_ptr(2, -9, 4), 1);
    assert_eq!(wrap_ptr(0, 0, 1), 0);
    assert_eq!(wrap_ptr(0, 17, 1), 0);
    assert_eq!(wrap_ptr(usize::MAX - 1, 2, usize::MAX), 1);
    assert_eq!(wrap_ptr(0, -1, usize::MAX), usize::MAX - 1);
}

#[test]
fn a_move_by_the_tape_s_length_is_a_move_by_nothing() {
    assert_eq!(wrap_ptr(5, 2048, 2048), wrap_ptr(5, 0, 2048));
    assert_eq!(wrap_ptr(5, 0, 2048), 5);
    assert_eq!(wrap_ptr(5, -2048, 2048), 5);
    let (prog, _, r) = run(&format!(">>>{}", ">".repeat(16)), 16, &[]);
    assert_eq!(r, Ok(0));
    assert_eq!(prog.ptr(), 3);
}

#[test]
fn a_change_by_256_is_a_change_by_nothing() {
    let (prog, _, r) = run(&format!("+++>{}", "+".repeat(256)), 4, &[]);
    assert_eq!(r, Ok(0));
    assert_eq!(prog.heap(), &vec![3, 0, 0, 0]);
}

#[test]
fn step_runs_one_instruction() {
    let mut prog = state("+++>-", 4);
    assert_eq!(prog.step(None), Event::Continue);
    assert_eq!((prog.pc(), prog.ptr()), (1, 0));
    assert_eq!(prog.heap(), &vec![3, 0, 0, 0]);
    assert_eq!(prog.step(None), Event::Continue);
    assert_eq!((prog.pc(), prog.ptr()), (2, 1));
    assert_eq!(prog.step(None), Event::Continue);
    assert_eq!((prog.pc(), prog.ptr()), (3, 1));
    assert_eq!(prog.heap(), &vec![3, 255, 0, 0]);
    assert_eq!(prog.peek(), None);
    assert_eq!(prog.step(None), Event::Halted);
    assert_eq!((prog.pc(), prog.ptr()), (3, 1));
    assert_eq!(prog.heap(), &vec![3, 255, 0, 0]);
}

#[test]
fn the_empty_program_has_ended() {
    let mut prog = state("", 1);
    assert_eq!(prog.step(None), Event::Halted);
    assert_eq!(prog.step(Some(7)), Event::Halted);
    let mut out = Vec::new();
    assert_eq!(prog.interpret(&[], &mut out, 0), Ok(0));
}

#[test]
fn cells_wrap_modulo_256() {
    let mut prog = state("-", 2);
    prog.step(None);
    assert_eq!(prog.heap(), &vec![255, 0]);
    let mut prog = state("-++", 2);
    prog.step(None);
    assert_eq!(prog.heap(), &vec![1, 0]);
}

#[test]
fn out_hands_over_the_cell() {
    let mut prog = state("+++.", 2);
    assert_eq!(prog.step(None), Event::Continue);
    assert_eq!(prog.step(None), Event::Output(3));
    assert_eq!(prog.pc(), 2);
    assert_eq!(prog.heap(), &vec![3, 0]);
}

#[test]
fn in_waits_for_a_byte() {
    let mut prog = state(",+", 2);
    assert_eq!(prog.step(None), Event::NeedInput);
    assert_eq!(prog.pc(), 0);
    assert_eq!(prog.heap(), &vec![0, 0]);
    assert_eq!(prog.step(Some(0x41)), Event::Continue);
    assert_eq!(prog.pc(), 1);
    assert_eq!(prog.heap(), &vec![0x41, 0]);
}

#[test]
fn a_byte_on_offer_is_left_alone_by_other_instructions() {
    let mut prog = state("+", 2);
    assert_eq!(prog.step(Some(9)), Event::Continue);
    assert_eq!(prog.heap(), &vec![1, 0]);
}

#[test]
fn jmp_skips_the_loop_on_a_zero_cell() {
    let mut prog = state("[.]+", 2);
    assert_eq!(prog.txt()[0], BFIsa::Jmp(2));
    assert_eq!(prog.step(None), Event::Continue);
    assert_eq!(prog.pc(), 3);
}

#[test]
fn jmp_enters_the_loop_on_another_cell() {
    let mut prog = state("+[.-]", 2);
    prog.step(None);
    assert_eq!(prog.step(None), Event::Continue);
    assert_eq!(prog.pc(), 2);
}

#[test]
fn ret_repeats_the_loop_on_a_cell_that_is_not_zero() {
    let mut prog = state("++[.-]", 2);
    for _ in 0..4 {
        prog.step(None);
    }
    assert_eq!(prog.pc(), 4);
    assert_eq!(prog.peek(), Some(BFIsa::Ret(1)));
    assert_eq!(prog.step(None), Event::Continue);
    assert_eq!(prog.pc(), 2);
    prog.step(None);
    prog.step(None);
    assert_eq!(prog.peek(), Some(BFIsa::Ret(1)));
    assert_eq!(prog.step(None), Event::Continue);
    assert_eq!(prog.pc(), 5);
}

#[test]
fn loop_set_zero_clears_the_cell() {
    let (prog, _, r) = run("+++++>++<[-]", 3, &[]);
    assert_eq!(r, Ok(0));
    assert_eq!(prog.heap(), &vec![0, 2, 0]);
    assert_eq!(prog.ptr(), 0);
}

#[test]
fn loop_mv_data_adds_and_clears() {
    let (prog, _, r) = run("+++>>++<<[->>+<<]", 4, &[]);
    assert_eq!(r, Ok(0));
    assert_eq!(prog.heap(), &vec![0, 0, 5, 0]);
    assert_eq!(prog.ptr(), 0);
}

#[test]
fn loop_mv_data_wraps_the_cell_and_the_pointer() {
    let (prog, _, r) = run("-<--->[-<+>]", 4, &[]);
    assert_eq!(prog.txt().last(), Some(&BFIsa::LoopMvData(-1)));
    assert_eq!(r, Ok(0));
    assert_eq!(prog.heap(), &vec![0, 0, 0, 252]);
    assert_eq!(prog.ptr(), 0);
}

#[test]
fn loop_mv_data_onto_the_same_cell_clears_it() {
    let mut prog = state("+++[-><+><]", 4);
    assert_eq!(prog.txt(), &vec![BFIsa::Incr(3), BFIsa::LoopMvData(0)]);
    prog.step(None);
    assert_eq!(prog.step(None), Event::Continue);
    assert_eq!(prog.heap(), &vec![0, 0, 0, 0]);
    assert_eq!(prog.pc(), 2);
}

#[test]
fn loop_mv_ptr_stops_on_the_first_zero_cell() {
    let (prog, _, r) = run("+>+>+>>+<<<<[>]", 8, &[]);
    assert_eq!(r, Ok(0));
    assert_eq!(prog.ptr(), 3);
    assert_eq!(prog.heap(), &vec![1, 1, 1, 0, 1, 0, 0, 0]);
}

#[test]
fn loop_mv_ptr_stays_on_a_zero_cell() {
    let (prog, _, r) = run(">+<[>]", 4, &[]);
    assert_eq!(r, Ok(0));
    assert_eq!(prog.ptr(), 0);
}

#[test]
fn loop_mv_ptr_wraps_around_the_tape() {
    let (prog, _, r) = run("+>+>+>>+[>]", 5, &[]);
    assert_eq!(r, Ok(0));
    assert_eq!(prog.heap(), &vec![1, 1, 1, 0, 1]);
    assert_eq!(prog.ptr(), 3);
    let (prog, _, r) = run("+>>+[<<]", 5, &[]);
    assert_eq!(r, Ok(0));
    assert_eq!(prog.heap(), &vec![1, 0, 1, 0, 0]);
    assert_eq!(prog.ptr(), 3);
}

#[test]
fn loop_mv_ptr_without_a_zero_cell_in_reach_runs_on() {
    let mut prog = state("+>+>+>+[>>]", 4);
    let mut out = Vec::new();
    assert_eq!(prog.interpret(&[], &mut out, 100), Err("Step budget exhausted"));
    assert_eq!(prog.peek(), Some(BFIsa::LoopMvPtr(2)));
    assert_eq!(prog.ptr(), 3);
    assert_eq!(prog.heap(), &vec![1, 1, 1, 1]);
    assert_eq!(prog.step(None), Event::Continue);
    assert_eq!(prog.peek(), Some(BFIsa::LoopMvPtr(2)));
    assert_eq!(prog.ptr(), 3);
}

#[test]
fn interpret_reads_its_input_in_order() {
    let (_, out, r) = run(",>,>,<<.>.>.", 3, b"xyz");
    assert_eq!(r, Ok(0));
    assert_eq!(out, b"xyz".to_vec());
}

#[test]
fn interpret_fails_where_the_input_is_used_up() {
    let (prog, out, r) = run(",.,.", 3, b"x");
    assert_eq!(r, Err("Error reading from stdio"));
    assert_eq!(out, b"x".to_vec());
    assert_eq!(prog.pc(), 2);
    assert_eq!(prog.heap(), &vec![b'x', 0, 0]);
}

#[test]
fn interpret_appends_to_the_output() {
    let mut prog = state("+.+.", 2);
    let mut out = vec![9u8];
    assert_eq!(prog.interpret(&[], &mut out, 100), Ok(0));
    assert_eq!(out, vec![9, 1, 2]);
}

#[test]
fn interpret_stops_when_the_budget_is_used_up_and_can_go_on() {
    let mut prog = state("+.+.+.", 2);
    let mut out = Vec::new();
    assert_eq!(prog.interpret(&[], &mut out, 3), Err("Step budget exhausted"));
    assert_eq!(out, vec![1]);
    assert_eq!(prog.pc(), 3);
    assert_eq!(prog.interpret(&[], &mut out, 3), Ok(0));
    assert_eq!(out, vec![1, 2, 3]);
    assert_eq!(prog.pc(), 6);
}

#[test]
fn a_budget_of_exactly_the_run_s_length_is_enough() {
    let mut prog = state("+>+", 2);
    let mut out = Vec::new();
    assert_eq!(prog.interpret(&[], &mut out, 3), Ok(0));
    let mut prog = state("+>+", 2);
    assert_eq!(prog.interpret(&[], &mut out, 2), Err("Step budget exhausted"));
}

#[test]
fn a_tape_of_one_cell_works() {
    let (prog, out, r) = run("+>+>+<<<.", 1, &[]);
    assert_eq!(r, Ok(0));
    assert_eq!(out, vec![3]);
    assert_eq!(prog.ptr(), 0);
}

#[test]
fn folded_loops_do_what_the_plain_loops_do() {
    let cases: [(&str, &str); 7] = [
        ("[-]", "[-.]"),
        ("[+]", "[+.]"),
        ("[+++]", "[+++.]"),
        ("[-----]", "[-----.]"),
        ("[->>+<<]", "[->>+<<.]"),
        ("[-<+>]", "[-<+>.]"),
        ("[>]", "[>.]"),
    ];
    for (folded, plain) in cases {
        for setup in ["", "+", "+++++>++>+>>+<<<<", "->->-<<"] {
            let (a, _, ra) = run(&format!("{}{}", setup, folded), 6, &[]);
            let (b, _, rb) = run(&format!("{}{}", setup, plain), 6, &[]);
            assert!(a.txt().len() < b.txt().len());
            assert_eq!(ra, Ok(0));
            assert_eq!(rb, Ok(0));
            assert_eq!(a.heap(), b.heap(), "{} after {}", folded, setup);
            assert_eq!(a.ptr(), b.ptr(), "{} after {}", folded, setup);
        }
    }
}

#[test]
fn load_tape_puts_a_tape_in_place() {
    let mut prog = state(">.", 3);
    prog.load_tape(vec![7, 8, 9]);
    let mut out = Vec::new();
    assert_eq!(prog.interpret(&[], &mut out, 10), Ok(0));
    assert_eq!(out, vec![8]);
    assert_eq!(prog.heap(), &vec![7, 8, 9]);
}

#[test]
fn interpret_keeps_the_count_of_bytes_read() {
    let mut prog = state(",.,.,.", 2);
    assert_eq!(prog.input_taken(), 0);
    let mut out = Vec::new();
    assert_eq!(prog.interpret(b"ab", &mut out, 100), Err("Error reading from stdio"));
    assert_eq!(prog.input_taken(), 2);
    assert_eq!(out, b"ab".to_vec());
    assert_eq!(prog.interpret(b"c", &mut out, 100), Ok(0));
    assert_eq!(prog.input_taken(), 1);
    assert_eq!(out, b"abc".to_vec());
}

#[test]
fn a_run_that_stops_for_its_budget_can_go_on_with_the_input_that_is_left() {
    let input = b"xyz";
    let mut prog = state(",.,.,.", 2);
    let mut out = Vec::new();
    assert_eq!(prog.interpret(input, &mut out, 3), Err("Step budget exhausted"));
    assert_eq!(prog.input_taken(), 2);
    let left = &input[prog.input_taken()..];
    assert_eq!(left, b"z");
    assert_eq!(prog.interpret(left, &mut out, 100), Ok(0));
    assert_eq!(prog.input_taken(), 1);
    assert_eq!(out, b"xyz".to_vec());
}

#[test]
fn a_run_without_in_reads_nothing() {
    let mut prog = state("+.", 2);
    let mut out = Vec::new();
    assert_eq!(prog.interpret(b"abc", &mut out, 100), Ok(0));
    assert_eq!(prog.input_taken(), 0);
}
