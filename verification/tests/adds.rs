use execute::machine::Event;
use execute::state::ProgramState;

/// Adds the two cells that `left` and `right` plus signs set up.
fn add(left: usize, right: usize) -> u8 {
    let src = format!("{}>{}[<+>-]<.", "+".repeat(left), "+".repeat(right));
    let mut prog = ProgramState::new(src.as_bytes(), 2048).unwrap();
    let mut out = Vec::new();
    assert_eq!(prog.interpret(&[], &mut out, 10_000), Ok(0));
    out[0]
}

#[test]
fn lib_it_works() {
    let result = add(2, 2);
    assert_eq!(result, 4);
}

/// Adds the same two cells, one instruction at a time.
fn add_by_steps(left: usize, right: usize) -> u8 {
    let src = format!("{}>{}[<+>-]<.", "+".repeat(left), "+".repeat(right));
    let mut prog = ProgramState::new(src.as_bytes(), 2048).unwrap();
    let mut result = 0;
    loop {
        match prog.step(None) {
            Event::Output(b) => result = b,
            Event::Halted => break,
            _ => {}
        }
    }
    result
}

#[test]
fn it_works() {
    let result = add_by_steps(2, 2);
    assert_eq!(result, 4);
}
