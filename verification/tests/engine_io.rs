use brainfuck::exec::{run, RunError};
use brainfuck::parse::parse;
use brainfuck::session::Session;

#[test]
fn run_executes_and_halts() {
    let mut s = Session::new();
    let r = run(&parse("++."), &mut s.tape, &mut s.head, u64::MAX);
    assert_eq!(r, Ok(()));
    assert_eq!(s.head, 0);
}

#[test]
fn run_reports_unmatched_bracket_position() {
    let mut s = Session::new();
    let r = run(&parse("]"), &mut s.tape, &mut s.head, u64::MAX);
    assert_eq!(r, Err(RunError::Unmatched { forward: false, line: 1, column: 1 }));
}

#[test]
fn run_out_of_steps_on_diverging_loop() {
    let mut s = Session::new();
    let r = run(&parse("+[]"), &mut s.tape, &mut s.head, 100);
    assert_eq!(r, Err(RunError::OutOfSteps));
}
