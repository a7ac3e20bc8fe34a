use brainfuck::exec::{execute, RunError};
use brainfuck::parse::parse;
use brainfuck::session::Session;
use brainfuck::token::TokenType;

const FUEL: u64 = 1_000_000;

#[test]
fn parse_maps_every_character() {
    let toks = parse("><+-.,x");
    assert_eq!(toks.len(), 7);
    assert_eq!(toks[0].token_type, TokenType::Right);
    assert_eq!(toks[1].token_type, TokenType::Left);
    assert_eq!(toks[2].token_type, TokenType::Plus);
    assert_eq!(toks[3].token_type, TokenType::Minus);
    assert_eq!(toks[4].token_type, TokenType::Out);
    assert_eq!(toks[5].token_type, TokenType::In);
    assert_eq!(toks[6].token_type, TokenType::Ignore);
}

#[test]
fn parse_resolves_brackets_into_inverse_pair() {
    let toks = parse("[-]");
    assert_eq!(toks[0].token_type, TokenType::JumpForward(Some(3)));
    assert_eq!(toks[1].token_type, TokenType::Minus);
    assert_eq!(toks[2].token_type, TokenType::JumpBackward(Some(1)));
}

#[test]
fn parse_resolves_nested_brackets() {
    let toks = parse("[[]]");
    assert_eq!(toks[0].token_type, TokenType::JumpForward(Some(4)));
    assert_eq!(toks[1].token_type, TokenType::JumpForward(Some(3)));
    assert_eq!(toks[2].token_type, TokenType::JumpBackward(Some(2)));
    assert_eq!(toks[3].token_type, TokenType::JumpBackward(Some(1)));
}

#[test]
fn parse_leaves_unmatched_close_unresolved() {
    let toks = parse("+]");
    assert_eq!(toks[1].token_type, TokenType::JumpBackward(None));
    assert_eq!(toks[1].line, 1);
    assert_eq!(toks[1].column, 2);
}

#[test]
fn parse_leaves_unmatched_open_unresolved() {
    let toks = parse("[+");
    assert_eq!(toks[0].token_type, TokenType::JumpForward(None));
    assert_eq!(toks[0].line, 1);
    assert_eq!(toks[0].column, 1);
}

#[test]
fn parse_tracks_lines_and_columns() {
    let toks = parse("+\n++");
    assert_eq!(toks.len(), 3);
    assert_eq!((toks[0].line, toks[0].column), (1, 1));
    assert_eq!((toks[1].line, toks[1].column), (2, 1));
    assert_eq!((toks[2].line, toks[2].column), (2, 2));
}

#[test]
fn parse_drops_crlf_line_breaks() {
    let toks = parse("+\r\n+");
    assert_eq!(toks.len(), 2);
    assert_eq!((toks[0].line, toks[0].column), (1, 1));
    assert_eq!((toks[1].line, toks[1].column), (2, 1));
}

#[test]
fn parse_retains_unrecognized_characters() {
    let toks = parse("a+b");
    assert_eq!(toks.len(), 3);
    assert_eq!(toks[0].token_type, TokenType::Ignore);
    assert_eq!(toks[1].token_type, TokenType::Plus);
    assert_eq!(toks[2].token_type, TokenType::Ignore);
}

#[test]
fn execute_prints_hello() {
    let toks = parse(
        "++++++++[>++++[>++>+++>+++>+<<<<-]>+>+>->>+[<]<-]>>.>---.+++++++..+++.",
    );
    let mut s = Session::new();
    let out = execute(&toks, &mut s.tape, &mut s.head, &[], FUEL).unwrap();
    assert_eq!(out, b"Hello".to_vec());
}

#[test]
fn increment_then_decrement_restores_cell() {
    let mut s = Session::new();
    let out = execute(&parse("+-."), &mut s.tape, &mut s.head, &[], FUEL).unwrap();
    assert_eq!(out, vec![0]);
}

#[test]
fn decrement_wraps_zero_to_255_and_back() {
    let mut s = Session::new();
    let out = execute(&parse("-."), &mut s.tape, &mut s.head, &[], FUEL).unwrap();
    assert_eq!(out, vec![255]);
    s.reset();
    let out = execute(&parse("-+."), &mut s.tape, &mut s.head, &[], FUEL).unwrap();
    assert_eq!(out, vec![0]);
}

#[test]
fn increment_wraps_255_to_zero() {
    let mut s = Session::new();
    let mut code = String::new();
    for _ in 0..256 {
        code.push('+');
    }
    code.push('.');
    let out = execute(&parse(&code), &mut s.tape, &mut s.head, &[], FUEL).unwrap();
    assert_eq!(out, vec![0]);
}

#[test]
fn loop_with_zero_cell_skips_body() {
    let mut s = Session::new();
    let out = execute(&parse("[-]."), &mut s.tape, &mut s.head, &[], FUEL).unwrap();
    assert_eq!(out, vec![0]);
    assert_eq!(s.head, 0);
}

#[test]
fn moves_right_then_left_return_to_origin() {
    let mut s = Session::new();
    let out = execute(&parse("+>>><<<."), &mut s.tape, &mut s.head, &[], FUEL).unwrap();
    assert_eq!(out, vec![1]);
    assert_eq!(s.head, 0);
}

#[test]
fn cursor_goes_negative_and_comes_back() {
    let mut s = Session::new();
    let out = execute(&parse("+<<->>."), &mut s.tape, &mut s.head, &[], FUEL).unwrap();
    assert_eq!(out, vec![1]);
    assert_eq!(s.head, 0);
    s.head = -2;
    let out = execute(&parse("."), &mut s.tape, &mut s.head, &[], FUEL).unwrap();
    assert_eq!(out, vec![255]);
}

#[test]
fn input_is_echoed_and_stored() {
    let mut s = Session::new();
    let out = execute(&parse(",."), &mut s.tape, &mut s.head, &[65], FUEL).unwrap();
    assert_eq!(out, vec![65, 65]);
}

#[test]
fn input_exhausted_reports_input_closed() {
    let mut s = Session::new();
    let r = execute(&parse(","), &mut s.tape, &mut s.head, &[], FUEL);
    assert_eq!(r, Err(RunError::InputClosed));
}

#[test]
fn unmatched_close_fails_with_position() {
    let mut s = Session::new();
    let r = execute(&parse("+]"), &mut s.tape, &mut s.head, &[], FUEL);
    assert_eq!(r, Err(RunError::Unmatched { forward: false, line: 1, column: 2 }));
}

#[test]
fn unmatched_open_fails_with_position() {
    let mut s = Session::new();
    let r = execute(&parse("+["), &mut s.tape, &mut s.head, &[], FUEL);
    assert_eq!(r, Err(RunError::Unmatched { forward: true, line: 1, column: 2 }));
}

#[test]
fn unmatched_close_on_second_line_cites_it() {
    let mut s = Session::new();
    let r = execute(&parse("+\n]"), &mut s.tape, &mut s.head, &[], FUEL);
    assert_eq!(r, Err(RunError::Unmatched { forward: false, line: 2, column: 1 }));
}

#[test]
fn failed_run_keeps_tape_and_cursor_state() {
    let mut s = Session::new();
    let r = execute(&parse("++>]"), &mut s.tape, &mut s.head, &[], FUEL);
    assert!(matches!(r, Err(RunError::Unmatched { .. })));
    assert_eq!(s.head, 1);
    let out = execute(&parse("<."), &mut s.tape, &mut s.head, &[], FUEL).unwrap();
    assert_eq!(out, vec![2]);
}

#[test]
fn diverging_loop_runs_out_of_steps() {
    let mut s = Session::new();
    let r = execute(&parse("+[]"), &mut s.tape, &mut s.head, &[], 1000);
    assert_eq!(r, Err(RunError::OutOfSteps));
}

#[test]
fn reset_clears_previously_set_cells() {
    let mut s = Session::new();
    let out = execute(&parse("+++."), &mut s.tape, &mut s.head, &[], FUEL).unwrap();
    assert_eq!(out, vec![3]);
    s.reset();
    assert_eq!(s.head, 0);
    let out = execute(&parse("."), &mut s.tape, &mut s.head, &[], FUEL).unwrap();
    assert_eq!(out, vec![0]);
}

#[test]
fn state_persists_across_runs_without_reset() {
    let mut s = Session::new();
    execute(&parse("++"), &mut s.tape, &mut s.head, &[], FUEL).unwrap();
    let out = execute(&parse("+."), &mut s.tape, &mut s.head, &[], FUEL).unwrap();
    assert_eq!(out, vec![3]);
}

#[test]
fn empty_program_halts_immediately() {
    let mut s = Session::new();
    let out = execute(&parse(""), &mut s.tape, &mut s.head, &[], FUEL).unwrap();
    assert_eq!(out, Vec::<u8>::new());
    assert_eq!(s.head, 0);
}
