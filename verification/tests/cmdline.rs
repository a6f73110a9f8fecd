use execute::cmdline::{engine_of, parse_cmdline, select, CmdLine, ExecutionEngine, Refusal};

fn args(words: &[&str]) -> Vec<String> {
    words.iter().map(|w| w.to_string()).collect()
}

fn accepted(words: &[&str]) -> CmdLine {
    match parse_cmdline(&args(words)) {
        Ok(c) => c,
        Err(e) => panic!("refused: {:?}", e),
    }
}

#[test]
fn the_engine_defaults_to_the_interpreter() {
    assert_eq!(ExecutionEngine::default(), ExecutionEngine::Interpreter);
    let c = accepted(&["bfrs_jit", "a.bf"]);
    assert_eq!(c.exec_engine, ExecutionEngine::Interpreter);
    assert_eq!(c.programs, args(&["a.bf"]));
    assert!(!c.clir);
}

#[test]
fn new_command_line_shows_no_listing() {
    let c = CmdLine::new(ExecutionEngine::CraneLift, args(&["x", "y"]));
    assert_eq!(c.exec_engine, ExecutionEngine::CraneLift);
    assert_eq!(c.programs, args(&["x", "y"]));
    assert!(!c.clir);
}

#[test]
fn engines_are_named_exactly() {
    assert_eq!(engine_of(&"Interpreter".to_string()), Some(ExecutionEngine::Interpreter));
    assert_eq!(engine_of(&"CraneLift".to_string()), Some(ExecutionEngine::CraneLift));
    assert_eq!(engine_of(&"cranelift".to_string()), None);
    assert_eq!(engine_of(&"".to_string()), None);
}

#[test]
fn the_engine_is_chosen_with_e() {
    let c = accepted(&["bfrs_jit", "-e", "CraneLift", "a.bf", "b.bf"]);
    assert_eq!(c.exec_engine, ExecutionEngine::CraneLift);
    assert_eq!(c.programs, args(&["a.bf", "b.bf"]));
    let c = accepted(&["bfrs_jit", "--exec-env", "Interpreter", "a.bf"]);
    assert_eq!(c.exec_engine, ExecutionEngine::Interpreter);
    let c = accepted(&["bfrs_jit", "--exec-env=CraneLift", "a.bf"]);
    assert_eq!(c.exec_engine, ExecutionEngine::CraneLift);
}

#[test]
fn options_and_programs_may_be_mixed() {
    let c = accepted(&["bfrs_jit", "a.bf", "-v", "b.bf", "-e", "CraneLift", "c.bf"]);
    assert_eq!(c.exec_engine, ExecutionEngine::CraneLift);
    assert_eq!(c.programs, args(&["a.bf", "b.bf", "c.bf"]));
    assert!(c.clir);
}

#[test]
fn the_program_s_own_name_is_no_program() {
    assert!(matches!(parse_cmdline(&args(&["bfrs_jit"])), Err(Refusal::NoPrograms)));
    assert!(matches!(
        parse_cmdline(&args(&["a.bf", "-e", "Interpreter"])),
        Err(Refusal::NoPrograms)
    ));
}

#[test]
fn help_stops_the_run() {
    assert!(matches!(parse_cmdline(&args(&["bfrs_jit", "-h"])), Err(Refusal::Help)));
    assert!(matches!(
        parse_cmdline(&args(&["bfrs_jit", "a.bf", "--help", "-e", "Fast"])),
        Err(Refusal::Help)
    ));
}

#[test]
fn an_engine_of_another_name_is_refused() {
    assert!(matches!(
        parse_cmdline(&args(&["bfrs_jit", "-e", "Fast", "a.bf"])),
        Err(Refusal::UnknownEngine)
    ));
    assert!(matches!(
        parse_cmdline(&args(&["bfrs_jit", "-e", "Fast"])),
        Err(Refusal::UnknownEngine)
    ));
}

#[test]
fn arguments_that_fit_no_option_are_refused() {
    assert!(matches!(
        parse_cmdline(&args(&["bfrs_jit", "-x", "a.bf"])),
        Err(Refusal::Malformed(getopts::Fail::UnrecognizedOption(_)))
    ));
    assert!(matches!(
        parse_cmdline(&args(&["bfrs_jit", "a.bf", "-e"])),
        Err(Refusal::Malformed(getopts::Fail::ArgumentMissing(_)))
    ));
    assert!(matches!(
        parse_cmdline(&args(&["bfrs_jit", "-v", "-v", "a.bf"])),
        Err(Refusal::Malformed(getopts::Fail::OptionDuplicated(_)))
    ));
}

#[test]
fn select_decides_in_order() {
    let none: Vec<String> = Vec::new();
    assert!(matches!(
        select(true, Some("Fast".to_string()), none.clone(), false),
        Err(Refusal::Help)
    ));
    assert!(matches!(
        select(false, Some("Fast".to_string()), none.clone(), false),
        Err(Refusal::UnknownEngine)
    ));
    assert!(matches!(select(false, None, none.clone(), true), Err(Refusal::NoPrograms)));
    let c = select(false, Some("CraneLift".to_string()), args(&["p"]), true).unwrap();
    assert_eq!(c.exec_engine, ExecutionEngine::CraneLift);
    assert_eq!(c.programs, args(&["p"]));
    assert!(c.clir);
    let c = select(false, None, args(&["p", "q"]), false).unwrap();
    assert_eq!(c.exec_engine, ExecutionEngine::Interpreter);
    assert_eq!(c.programs, args(&["p", "q"]));
    assert!(!c.clir);
}
