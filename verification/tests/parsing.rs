use execute::isa::BFIsa;
use execute::parse::{parse, NestingErr};
use execute::state::ProgramState;

fn code(src: &str) -> Vec<BFIsa> {
    parse(src.as_bytes()).unwrap()
}

fn refused(src: &str) -> NestingErr {
    match parse(src.as_bytes()) {
        Ok(code) => panic!("parsed as {:?}", code),
        Err(e) => e,
    }
}

#[test]
fn empty_source_is_the_empty_program() {
    assert_eq!(code(""), vec![]);
}

#[test]
fn bytes_that_are_no_commands_are_skipped() {
    assert_eq!(code("a + b\n- c"), vec![BFIsa::Incr(0)]);
    assert_eq!(code("hello, world."), vec![BFIsa::In, BFIsa::Out]);
}

#[test]
fn each_command_has_its_instruction() {
    assert_eq!(
        code("+>.,<-"),
        vec![
            BFIsa::Incr(1),
            BFIsa::Mv(1),
            BFIsa::Out,
            BFIsa::In,
            BFIsa::Mv(-1),
            BFIsa::Incr(255),
        ]
    );
}

#[test]
fn runs_of_cell_changes_fold() {
    assert_eq!(code("+++"), vec![BFIsa::Incr(3)]);
    assert_eq!(code("---"), vec![BFIsa::Incr(253)]);
    assert_eq!(code("++-"), vec![BFIsa::Incr(1)]);
    assert_eq!(code("+-"), vec![BFIsa::Incr(0)]);
}

#[test]
fn runs_of_pointer_moves_fold() {
    assert_eq!(code(">>>"), vec![BFIsa::Mv(3)]);
    assert_eq!(code("<<"), vec![BFIsa::Mv(-2)]);
    assert_eq!(code("><<"), vec![BFIsa::Mv(-1)]);
    assert_eq!(code("><"), vec![BFIsa::Mv(0)]);
}

#[test]
fn a_run_of_256_plus_signs_is_a_change_by_nothing() {
    assert_eq!(code(&"+".repeat(256)), vec![BFIsa::Incr(0)]);
    assert_eq!(code(&"+".repeat(257)), vec![BFIsa::Incr(1)]);
    assert_eq!(code(&"-".repeat(256)), vec![BFIsa::Incr(0)]);
}

#[test]
fn runs_do_not_fold_across_other_instructions() {
    assert_eq!(
        code("+.+>,>"),
        vec![
            BFIsa::Incr(1),
            BFIsa::Out,
            BFIsa::Incr(1),
            BFIsa::Mv(1),
            BFIsa::In,
            BFIsa::Mv(1),
        ]
    );
}

#[test]
fn no_two_neighbours_are_both_changes_or_both_moves() {
    let src = "++[>+<-]--..>><<,[[-]+>]<<+-+-[><]";
    let txt = code(src);
    for pair in txt.windows(2) {
        assert!(!matches!(pair, [BFIsa::Incr(_), BFIsa::Incr(_)]), "{:?}", txt);
        assert!(!matches!(pair, [BFIsa::Mv(_), BFIsa::Mv(_)]), "{:?}", txt);
    }
}

#[test]
fn plain_loop_keeps_its_branches() {
    assert_eq!(code("+[]"), vec![BFIsa::Incr(1), BFIsa::Jmp(2), BFIsa::Ret(1)]);
    assert_eq!(
        code("[.]"),
        vec![BFIsa::Jmp(2), BFIsa::Out, BFIsa::Ret(0)]
    );
}

#[test]
fn nested_loops_point_at_each_other() {
    assert_eq!(
        code("[.[,]+]"),
        vec![
            BFIsa::Jmp(6),
            BFIsa::Out,
            BFIsa::Jmp(4),
            BFIsa::In,
            BFIsa::Ret(2),
            BFIsa::Incr(1),
            BFIsa::Ret(0),
        ]
    );
}

#[test]
fn every_branch_names_its_partner() {
    let src = "+[>[-]+[>,.<[->>+<<]]<[.[>]+].]";
    let txt = code(src);
    let mut branches = 0;
    for (i, instr) in txt.iter().enumerate() {
        match instr {
            BFIsa::Jmp(t) => {
                assert!(*t > i);
                assert_eq!(txt[*t], BFIsa::Ret(i));
                branches += 1;
            }
            BFIsa::Ret(t) => {
                assert!(*t < i);
                assert_eq!(txt[*t], BFIsa::Jmp(i));
                branches += 1;
            }
            _ => {}
        }
    }
    assert_eq!(branches, 6);
}

#[test]
fn odd_change_in_a_loop_clears_the_cell() {
    assert_eq!(code("[-]"), vec![BFIsa::LoopSetZero]);
    assert_eq!(code("[+]"), vec![BFIsa::LoopSetZero]);
    assert_eq!(code("[+++]"), vec![BFIsa::LoopSetZero]);
    assert_eq!(code("[---]"), vec![BFIsa::LoopSetZero]);
    assert_eq!(code("+[-]+"), vec![BFIsa::Incr(1), BFIsa::LoopSetZero, BFIsa::Incr(1)]);
}

#[test]
fn even_change_in_a_loop_stays_a_loop() {
    assert_eq!(code("[--]"), vec![BFIsa::Jmp(2), BFIsa::Incr(254), BFIsa::Ret(0)]);
    assert_eq!(code("[+-]"), vec![BFIsa::Jmp(2), BFIsa::Incr(0), BFIsa::Ret(0)]);
}

#[test]
fn transfer_loop_becomes_one_instruction() {
    assert_eq!(code("[->+<]"), vec![BFIsa::LoopMvData(1)]);
    assert_eq!(code("[-<+>]"), vec![BFIsa::LoopMvData(-1)]);
    assert_eq!(code("[->>>+<<<]"), vec![BFIsa::LoopMvData(3)]);
    assert_eq!(code("[-<<+>>]"), vec![BFIsa::LoopMvData(-2)]);
    assert_eq!(code("[-><+><]"), vec![BFIsa::LoopMvData(0)]);
}

#[test]
fn transfer_that_does_not_come_back_stays_a_loop() {
    assert_eq!(
        code("[->+>]"),
        vec![
            BFIsa::Jmp(5),
            BFIsa::Incr(255),
            BFIsa::Mv(1),
            BFIsa::Incr(1),
            BFIsa::Mv(1),
            BFIsa::Ret(0),
        ]
    );
    assert_eq!(
        code("[->+<<]"),
        vec![
            BFIsa::Jmp(5),
            BFIsa::Incr(255),
            BFIsa::Mv(1),
            BFIsa::Incr(1),
            BFIsa::Mv(-2),
            BFIsa::Ret(0),
        ]
    );
}

#[test]
fn transfer_with_other_changes_stays_a_loop() {
    assert_eq!(
        code("[+>-<]"),
        vec![
            BFIsa::Jmp(5),
            BFIsa::Incr(1),
            BFIsa::Mv(1),
            BFIsa::Incr(255),
            BFIsa::Mv(-1),
            BFIsa::Ret(0),
        ]
    );
    assert_eq!(
        code("[->++<]"),
        vec![
            BFIsa::Jmp(5),
            BFIsa::Incr(255),
            BFIsa::Mv(1),
            BFIsa::Incr(2),
            BFIsa::Mv(-1),
            BFIsa::Ret(0),
        ]
    );
}

#[test]
fn move_in_a_loop_becomes_a_scan() {
    assert_eq!(code("[>]"), vec![BFIsa::LoopMvPtr(1)]);
    assert_eq!(code("[<]"), vec![BFIsa::LoopMvPtr(-1)]);
    assert_eq!(code("[>>>>]"), vec![BFIsa::LoopMvPtr(4)]);
    assert_eq!(code("[><]"), vec![BFIsa::LoopMvPtr(0)]);
}

#[test]
fn idioms_are_not_matched_across_a_loop_s_start() {
    assert_eq!(
        code("-[>+<]"),
        vec![
            BFIsa::Incr(255),
            BFIsa::Jmp(5),
            BFIsa::Mv(1),
            BFIsa::Incr(1),
            BFIsa::Mv(-1),
            BFIsa::Ret(1),
        ]
    );
    assert_eq!(
        code("[[-]]"),
        vec![BFIsa::Jmp(2), BFIsa::LoopSetZero, BFIsa::Ret(0)]
    );
    assert_eq!(
        code("[.>]"),
        vec![BFIsa::Jmp(3), BFIsa::Out, BFIsa::Mv(1), BFIsa::Ret(0)]
    );
}

#[test]
fn inner_idiom_shortens_the_outer_loop() {
    assert_eq!(
        code("+[>[-]<-]"),
        vec![
            BFIsa::Incr(1),
            BFIsa::Jmp(6),
            BFIsa::Mv(1),
            BFIsa::LoopSetZero,
            BFIsa::Mv(-1),
            BFIsa::Incr(255),
            BFIsa::Ret(1),
        ]
    );
}

#[test]
fn closing_bracket_without_an_opening_one() {
    let NestingErr(msg, pos) = refused("]");
    assert_eq!(msg, "] @");
    assert_eq!(pos, 0);
    let NestingErr(msg, pos) = refused("+[-]>]<[");
    assert_eq!(msg, "] @");
    assert_eq!(pos, 5);
}

#[test]
fn opening_bracket_without_a_closing_one() {
    let NestingErr(msg, pos) = refused("[[]");
    assert_eq!(msg, "[ @");
    assert_eq!(pos, 0);
    let NestingErr(msg, pos) = refused("[][");
    assert_eq!(msg, "[ @");
    assert_eq!(pos, 2);
    let NestingErr(msg, pos) = refused("+[>[<");
    assert_eq!(msg, "[ @");
    assert_eq!(pos, 3);
}

#[test]
fn the_first_stray_closing_bracket_is_reported() {
    let NestingErr(msg, pos) = refused("[]]]");
    assert_eq!(msg, "] @");
    assert_eq!(pos, 2);
    let NestingErr(msg, pos) = refused("[ ] x ] [");
    assert_eq!(msg, "] @");
    assert_eq!(pos, 6);
}

#[test]
fn new_state_starts_at_the_beginning_of_a_zeroed_tape() {
    let prog = ProgramState::new(b"+[-]", 7).unwrap();
    assert_eq!(prog.txt(), &vec![BFIsa::Incr(1), BFIsa::LoopSetZero]);
    assert_eq!(prog.heap(), &vec![0u8; 7]);
    assert_eq!(prog.ptr(), 0);
    assert_eq!(prog.pc(), 0);
    assert_eq!(prog.peek(), Some(BFIsa::Incr(1)));
}

#[test]
fn new_state_reports_the_bracket_without_partner() {
    match ProgramState::new(b"+]", 8) {
        Err(NestingErr(msg, pos)) => {
            assert_eq!(msg, "] @");
            assert_eq!(pos, 1);
        }
        Ok(_) => panic!("parsed"),
    }
    match execute::new_program(b"[", 8) {
        Err(NestingErr(msg, pos)) => {
            assert_eq!(msg, "[ @");
            assert_eq!(pos, 0);
        }
        Ok(_) => panic!("parsed"),
    }
}

#[test]
fn both_spellings_name_the_same_types() {
    let prog = execute::Program_State::new(b"-", 4).unwrap();
    assert_eq!(prog.txt(), &vec![execute::BF_ISA::Incr(255)]);
}
