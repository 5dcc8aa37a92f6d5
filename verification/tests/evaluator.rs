use regex_engine::evaluator::{eval, EvalError};
use regex_engine::instruction::Instruction::{
    CapcherBegin, CapcherEnd, Char, Descrement, Jump, Match, Split,
};

fn chars(s: &str) -> Vec<char> {
    s.chars().collect()
}

fn none() -> Vec<String> {
    Vec::new()
}

#[test]
fn empty_program_has_no_instruction_to_run() {
    assert!(matches!(eval(&[], &chars("a"), 0, true), Err(EvalError::InvalidPC)));
}

#[test]
fn running_off_the_end_is_an_error() {
    assert!(matches!(eval(&[Char('a')], &chars("a"), 0, true), Err(EvalError::InvalidPC)));
    assert!(matches!(eval(&[Jump(7)], &chars("a"), 0, true), Err(EvalError::InvalidPC)));
}

#[test]
fn counting_without_a_count_is_an_error() {
    assert!(matches!(
        eval(&[Descrement(0), Match], &chars("a"), 0, true),
        Err(EvalError::InvalidRegister)
    ));
}

#[test]
fn jump_to_a_seen_place_fails_the_path() {
    assert_eq!(eval(&[Jump(0)], &chars("a"), 0, true).unwrap(), (false, none()));
}

#[test]
fn branch_that_only_branches_is_an_error() {
    assert!(matches!(
        eval(&[Split(0, 0, (-1, None), -1)], &chars("a"), 0, true),
        Err(EvalError::DepthOverFlow)
    ));
}

#[test]
fn match_needs_every_count_met() {
    // one repetition owed, none made
    let owed = [Split(1, 1, (1, None), 0), Match];
    assert_eq!(eval(&owed, &chars(""), 0, true).unwrap(), (false, none()));
    // one repetition owed and made
    let made = [Split(1, 1, (1, Some(1)), 0), Descrement(0), Match];
    assert_eq!(eval(&made, &chars(""), 0, true).unwrap(), (true, none()));
    // no repetition allowed, one tried
    let spent = [Split(1, 1, (0, Some(0)), 0), Descrement(0), Match];
    assert_eq!(eval(&spent, &chars(""), 0, true).unwrap(), (false, none()));
}

#[test]
fn open_slots_record_what_is_consumed() {
    let program = [
        CapcherBegin(0),
        Char('a'),
        CapcherBegin(1),
        Char('b'),
        CapcherEnd(1),
        Char('c'),
        CapcherEnd(0),
        Char('d'),
        Match,
    ];
    assert_eq!(
        eval(&program, &chars("abcd"), 0, true).unwrap(),
        (true, vec!["abc".to_string(), "b".to_string()])
    );
}

#[test]
fn slot_list_grows_to_the_slot_number() {
    let program = [CapcherBegin(2), Char('x'), CapcherEnd(2), Match];
    assert_eq!(
        eval(&program, &chars("x"), 0, true).unwrap(),
        (true, vec!["".to_string(), "".to_string(), "x".to_string()])
    );
}

#[test]
fn no_match_comes_without_captures() {
    let program = [CapcherBegin(0), Char('a'), Char('b'), CapcherEnd(0), Match];
    assert_eq!(eval(&program, &chars("ac"), 0, true).unwrap(), (false, none()));
}
