use execute::isa::BFIsa;
use execute::parse::parse;
use execute::unparse::unparse;

fn text(code: Vec<BFIsa>) -> String {
    String::from_utf8(unparse(&code)).unwrap()
}

#[test]
fn each_instruction_has_its_source() {
    assert_eq!(text(vec![]), "");
    assert_eq!(text(vec![BFIsa::Incr(3)]), "+++");
    assert_eq!(text(vec![BFIsa::Incr(0)]), "+-");
    assert_eq!(text(vec![BFIsa::Incr(255)]), "+".repeat(255));
    assert_eq!(text(vec![BFIsa::Mv(2)]), ">>");
    assert_eq!(text(vec![BFIsa::Mv(-3)]), "<<<");
    assert_eq!(text(vec![BFIsa::Mv(0)]), "><");
    assert_eq!(text(vec![BFIsa::Out]), ".");
    assert_eq!(text(vec![BFIsa::In]), ",");
    assert_eq!(text(vec![BFIsa::Jmp(2), BFIsa::Out, BFIsa::Ret(0)]), "[.]");
    assert_eq!(text(vec![BFIsa::LoopSetZero]), "[-]");
    assert_eq!(text(vec![BFIsa::LoopMvData(2)]), "[->>+<<]");
    assert_eq!(text(vec![BFIsa::LoopMvData(-1)]), "[-<+>]");
    assert_eq!(text(vec![BFIsa::LoopMvData(0)]), "[-><+><]");
    assert_eq!(text(vec![BFIsa::LoopMvPtr(1)]), "[>]");
    assert_eq!(text(vec![BFIsa::LoopMvPtr(-3)]), "[<<<]");
    assert_eq!(text(vec![BFIsa::LoopMvPtr(0)]), "[><]");
}

#[test]
fn instructions_are_written_one_after_the_other() {
    assert_eq!(
        text(vec![
            BFIsa::Incr(2),
            BFIsa::Jmp(5),
            BFIsa::Mv(1),
            BFIsa::LoopSetZero,
            BFIsa::Out,
            BFIsa::Ret(1),
            BFIsa::In,
        ]),
        "++[>[-].],"
    );
}

#[test]
fn what_is_written_is_read_again() {
    let sources = [
        "",
        "+",
        "+-",
        "><",
        "-<->",
        "+[]",
        "++++++++[>++++++++<-]>+.",
        "+++++[>+++++[>++<-]<-]>>.",
        ",[.,]",
        "[+++][---][--][>>][<][-><+><][->+<][-<<+>>][->+>][+>-<]",
        "+[>[-]+[>,.<[->>+<<]]<[.[>]+].]",
        "a[b[c+-d]e>]<f-[[[[-]]]]",
        "++++++++[>++++[>++>+++>+++>+<<<<-]>+>+>->>+[<]<-]>>.>---.+++++++..+++.>>.<-.<.+++.------.--------.>>+.>++.",
    ];
    for src in sources {
        let code = parse(src.as_bytes()).unwrap();
        let again = parse(&unparse(&code)).unwrap();
        assert_eq!(again, code, "{}", src);
    }
}

#[test]
fn a_change_by_nothing_survives_writing() {
    let code = parse(b">+-<").unwrap();
    assert_eq!(code, vec![BFIsa::Mv(1), BFIsa::Incr(0), BFIsa::Mv(-1)]);
    assert_eq!(text(code.clone()), ">+-<");
    assert_eq!(parse(&unparse(&code)).unwrap(), code);
}

#[test]
fn a_transfer_onto_the_same_cell_needs_its_moves_written() {
    let code = parse(b"[-><+><]").unwrap();
    assert_eq!(code, vec![BFIsa::LoopMvData(0)]);
    assert_eq!(text(code.clone()), "[-><+><]");
    assert_eq!(parse(&unparse(&code)).unwrap(), code);
    assert_eq!(
        parse(b"[-+]").unwrap(),
        vec![BFIsa::Jmp(2), BFIsa::Incr(0), BFIsa::Ret(0)]
    );
}
