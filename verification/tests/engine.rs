use regex_engine::engine::{do_matching, search, EngineError};
use regex_engine::evaluator::EvalError;
use regex_engine::parser::ParseError;

fn exec(expr: &str, line: &str, is_depth: bool) -> Result<(bool, Vec<String>), EngineError> {
    search(expr, line, is_depth)
}

fn none() -> Vec<String> {
    Vec::new()
}

#[test]
fn test_do_matching() {
    assert!(exec("+b", "bbb", true).is_err());
    assert!(exec("*b", "bbb", true).is_err());
    assert!(exec("|b", "bbb", true).is_err());
    assert!(exec("?b", "bbb", true).is_err());

    assert_eq!(exec("abc|def", "def", true).unwrap(), (true, vec![]));
    assert_eq!(exec("[abc]*", "abcabc", true).unwrap(), (true, vec![]));
    assert_eq!(exec("[ab|cd]+", "abcdcd", true).unwrap(), (true, vec![]));
    assert_eq!(exec("abc?", "ab", true).unwrap(), (true, vec![]));
    assert_eq!(exec("abc.e", "abcxe", true).unwrap(), (true, vec![]));
    assert_eq!(exec("^abcd", "abcde", true).unwrap(), (true, vec![]));
    assert_eq!(exec("abcd$", "eabcd", true).unwrap(), (true, vec![]));
    assert_eq!(exec("ab[cd|ef]$", "xyzabef", true).unwrap(), (true, vec![]));
    assert_eq!(exec("ab[cd|ef]$", "abcxyzabef", true).unwrap(), (true, vec![]));
    assert_eq!(exec("a\\d+b", "a012b", true).unwrap(), (true, vec![]));
    assert_eq!(exec("a\\D+b", "acdeb", true).unwrap(), (true, vec![]));
    assert_eq!(exec("ad{2}b", "addb", true).unwrap(), (true, vec![]));
    assert_eq!(exec("ab[cd|ef]{3}g", "abcdcdefg", true).unwrap(), (true, vec![]));
    assert_eq!(exec("ab[cd|ef]{3}g{2}h", "abcdcdefggh", true).unwrap(), (true, vec![]));
    assert_eq!(exec("abc{1,3}d", "abccd", true).unwrap(), (true, vec![]));
    assert_eq!(exec("ab[cd|ef]{1,3}g{2}h", "abcdefggh", true).unwrap(), (true, vec![]));
    assert_eq!(exec("ab[cd|ef]{2,}g{2}h", "abcdefggh", true).unwrap(), (true, vec![]));
    assert_eq!(exec("ab[cd|ef]{2,}g{2}h", "abcdefefggh", true).unwrap(), (true, vec![]));
    assert_eq!(exec("ab[^cd|ef]", "abg", true).unwrap(), (true, vec![]));
    assert_eq!(exec("ab[^cd|ef]", "abef", true).unwrap(), (true, vec![]));
    assert_eq!(exec("ab([^cd]{2})", "abef", true).unwrap(), (true, vec!["ef".to_string()]));
    assert_eq!(exec("ab((\\d{2})-(\\d{2}))", "ab12-34", true).unwrap(), (true, vec!["12-34".to_string(), "12".to_string(), "34".to_string()]));

    assert_eq!(exec("abc|def", "efa", true).unwrap(), (false, vec![]));
    assert_eq!(exec("[ab|cd]+", "", true).unwrap(), (false, vec![]));
    assert_eq!(exec("abc?", "acb", true).unwrap(), (false, vec![]));
    assert_eq!(exec("abc.", "aabc", true).unwrap(), (false, vec![]));
    assert_eq!(exec("^abcd", "babcd", true).unwrap(), (false, vec![]));
    assert_eq!(exec("abcd$", "abcda", true).unwrap(), (false, vec![]));
    assert_eq!(exec("ab[c|d]$", "abcd", true).unwrap(), (false, vec![]));
    assert_eq!(exec("a\\d+b", "acb", true).unwrap(), (false, vec![]));
    assert_eq!(exec("ad{3}f", "addf", true).unwrap(), (false, vec![]));
    assert_eq!(exec("ad{3}f", "addddf", true).unwrap(), (false, vec![]));
    assert_eq!(exec("ab[cd|ef]{3}g{2}h", "abcdcdefgggh", true).unwrap(), (false, vec![]));
    assert_eq!(exec("ab[cd|ef]{1,3}g{2}h", "abcdefcdefggh", true).unwrap(), (false, vec![]));
    assert_eq!(exec("ab[cd|ef]{4,}g{2}h", "abcdefcdggh", true).unwrap(), (false, vec![]));
    assert_eq!(exec("ab[^cd|ef]", "abc", true).unwrap(), (false, vec![]));

    assert_eq!(exec("[abc]*", "aabcabc", true).unwrap(), (true, vec![]));
    assert_eq!(exec("abc", "aabc", true).unwrap(), (true, vec![]));
}

#[test]
fn same_call_gives_same_verdict() {
    let first = do_matching("ab((\\d{2})-(\\d{2}))", "ab12-34", 0, true).unwrap();
    let second = do_matching("ab((\\d{2})-(\\d{2}))", "ab12-34", 0, true).unwrap();
    assert_eq!(first, second);
    let first = do_matching("a+b", "aac", 3, true).unwrap();
    let second = do_matching("a+b", "aac", 3, true).unwrap();
    assert_eq!(first, second);
    assert_eq!(first, (false, none()));
}

#[test]
fn left_alternative_wins() {
    assert_eq!(do_matching("a|ab", "ab", 0, true).unwrap(), (true, none()));
    assert_eq!(
        do_matching("(a)|(ab)", "ab", 0, true).unwrap(),
        (true, vec!["a".to_string()])
    );
    assert_eq!(
        do_matching("(ab)|(a)", "ab", 0, true).unwrap(),
        (true, vec!["ab".to_string()])
    );
}

#[test]
fn right_alternative_fills_its_own_slot() {
    assert_eq!(
        do_matching("(a)|(b)", "b", 0, true).unwrap(),
        (true, vec!["".to_string(), "b".to_string()])
    );
}

#[test]
fn exact_repetition() {
    assert_eq!(do_matching("ad{2}b", "addb", 0, true).unwrap(), (true, none()));
    assert_eq!(do_matching("ad{2}b", "adb", 0, true).unwrap(), (false, none()));
    assert_eq!(do_matching("ad{2}b", "adddb", 0, true).unwrap(), (false, none()));
}

#[test]
fn exact_repetition_after_a_range() {
    assert_eq!(do_matching("a{1,2}d{2}b", "addb", 0, true).unwrap(), (true, none()));
    assert_eq!(do_matching("a{1,2}d{2}b", "adb", 0, true).unwrap(), (false, none()));
}

#[test]
fn open_ended_repetition() {
    assert_eq!(do_matching("a{2,}b", "ab", 0, true).unwrap(), (false, none()));
    assert_eq!(do_matching("a{2,}b", "aab", 0, true).unwrap(), (true, none()));
    assert_eq!(do_matching("a{2,}b", "aaaaab", 0, true).unwrap(), (true, none()));
}

#[test]
fn counted_alternatives_use_their_own_registers() {
    assert_eq!(do_matching("a{2}|b{3}", "aa", 0, true).unwrap(), (true, none()));
    assert_eq!(do_matching("a{2}|b{3}", "bbb", 0, true).unwrap(), (true, none()));
    assert_eq!(do_matching("a{2}|b{3}", "bb", 0, true).unwrap(), (false, none()));
}

#[test]
fn captures_come_in_group_order() {
    assert_eq!(
        do_matching("((\\d{2})-(\\d{2}))", "12-34", 0, true).unwrap(),
        (true, vec!["12-34".to_string(), "12".to_string(), "34".to_string()])
    );
}

#[test]
fn failed_branch_leaves_no_capture() {
    // the first alternative records "ab" before it fails on 'c'
    assert_eq!(
        do_matching("[(ab)c|(a)]", "abd", 0, true).unwrap(),
        (true, vec!["".to_string(), "a".to_string()])
    );
}

#[test]
fn anchors() {
    assert_eq!(do_matching("^abcd", "abcde", 0, true).unwrap(), (true, none()));
    assert_eq!(do_matching("^abcd", "abcde", 1, true).unwrap(), (false, none()));
    assert_eq!(do_matching("abcd$", "abcd", 1, true).unwrap(), (true, none()));
    assert_eq!(do_matching("abcd$", "abcde", 0, true).unwrap(), (false, none()));
    assert_eq!(search("abcd$", "eabcd", true).unwrap(), (true, none()));
    assert_eq!(search("^abcd", "eabcd", true).unwrap(), (false, none()));
}

#[test]
fn negated_set() {
    assert_eq!(do_matching("ab[^cd]{2}", "abef", 0, true).unwrap(), (true, none()));
    assert_eq!(do_matching("ab[^cd]{2}", "abcd", 0, true).unwrap(), (false, none()));
    assert_eq!(do_matching("ab[^cd]", "ab", 0, true).unwrap(), (false, none()));
}

#[test]
fn dot_takes_any_character() {
    assert_eq!(do_matching("a.c", "a\u{3042}c", 0, true).unwrap(), (true, none()));
    assert_eq!(do_matching("a.c", "ac", 0, true).unwrap(), (false, none()));
}

#[test]
fn unclosed_group_and_lone_quantifier_are_refused() {
    assert!(matches!(
        do_matching("(abc", "abc", 0, true),
        Err(EngineError::Parse(ParseError::NoRightParen))
    ));
    assert!(matches!(
        do_matching("+b", "b", 0, true),
        Err(EngineError::Parse(ParseError::NoPrev(0)))
    ));
}

#[test]
fn empty_repeated_body_ends() {
    assert_eq!(
        do_matching("(a*)*", "b", 0, true).unwrap(),
        (true, vec!["".to_string()])
    );
    assert_eq!(
        do_matching("(a*)*b", "aab", 0, true).unwrap(),
        (true, vec!["aa".to_string()])
    );
    assert_eq!(do_matching("[a?]*c", "b", 0, true).unwrap(), (false, none()));
}

#[test]
fn endless_branching_is_an_error() {
    assert!(matches!(
        do_matching("a*+", "b", 0, true),
        Err(EngineError::Eval(EvalError::DepthOverFlow))
    ));
}

#[test]
fn search_on_empty_line_tries_nothing() {
    assert_eq!(search("+b", "", true).unwrap(), (false, none()));
    assert_eq!(search("a*", "", true).unwrap(), (false, none()));
}

#[test]
fn search_stops_at_first_error() {
    assert!(matches!(
        search("a\\q", "zzz", true),
        Err(EngineError::Parse(ParseError::InvalidEscape(2, 'q')))
    ));
}

#[test]
fn search_returns_captures_of_first_match() {
    assert_eq!(
        search("(\\d+)-", "ab12-34-", true).unwrap(),
        (true, vec!["12".to_string()])
    );
}

#[test]
fn range_repetition_takes_from_minimum_to_maximum() {
    assert_eq!(do_matching("a{2,3}b", "ab", 0, true).unwrap(), (false, none()));
    assert_eq!(do_matching("a{2,3}b", "aab", 0, true).unwrap(), (true, none()));
    assert_eq!(do_matching("a{2,3}b", "aaab", 0, true).unwrap(), (true, none()));
    assert_eq!(do_matching("a{2,3}b", "aaaab", 0, true).unwrap(), (false, none()));
    assert_eq!(do_matching("a{0}b", "b", 0, true).unwrap(), (true, none()));
    assert_eq!(do_matching("a{0}b", "ab", 0, true).unwrap(), (false, none()));
}

#[test]
fn repeated_group_keeps_recording() {
    assert_eq!(
        do_matching("(ab)+c", "ababc", 0, true).unwrap(),
        (true, vec!["abab".to_string()])
    );
}

#[test]
fn escaped_dot_still_takes_any_character() {
    assert_eq!(do_matching("a\\.c", "abc", 0, true).unwrap(), (true, none()));
}

#[test]
fn long_repetition_stays_within_the_depth() {
    let line = "a".repeat(4000) + "b";
    assert_eq!(do_matching("a*b", &line, 0, true).unwrap(), (true, none()));
}

#[test]
fn very_long_repetition_is_an_error() {
    let line = "a".repeat(5000) + "b";
    assert!(matches!(
        do_matching("a*b", &line, 0, true),
        Err(EngineError::Eval(EvalError::DepthOverFlow))
    ));
}
