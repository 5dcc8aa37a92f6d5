use regex_engine::parser::{parse, ParseError};

fn shown(expr: &str) -> String {
    format!("{:?}", parse(expr).unwrap())
}

#[test]
fn plain_characters_make_a_sequence() {
    assert_eq!(shown("ab"), "Sequence([Char('a'), Char('b')])");
}

#[test]
fn alternatives_nest_to_the_right() {
    assert_eq!(
        shown("a|b|c"),
        "Or(Sequence([Char('a')]), Or(Sequence([Char('b')]), Sequence([Char('c')])))"
    );
}

#[test]
fn quantifiers_wrap_the_last_node() {
    assert_eq!(
        shown("ab+c*d?"),
        "Sequence([Char('a'), Plus(Char('b')), Star(Char('c')), Question(Char('d'))])"
    );
}

#[test]
fn counts() {
    assert_eq!(shown("a{3}"), "Sequence([Counter(Char('a'), (3, Some(3)))])");
    assert_eq!(shown("a{2,}"), "Sequence([Counter(Char('a'), (2, None))])");
    assert_eq!(shown("a{2, 5}"), "Sequence([Counter(Char('a'), (2, Some(5)))])");
    assert_eq!(shown("a{012}"), "Sequence([Counter(Char('a'), (12, Some(12)))])");
    assert_eq!(
        shown("a{1,2}b{3}"),
        "Sequence([Counter(Char('a'), (1, Some(2))), Counter(Char('b'), (3, Some(3)))])"
    );
}

#[test]
fn count_too_large_for_the_maximum_is_no_bound() {
    assert_eq!(
        shown("a{2,99999999999999999999999999}"),
        "Sequence([Counter(Char('a'), (2, None))])"
    );
}

#[test]
fn groups_and_brackets() {
    assert_eq!(shown("(ab)"), "Sequence([Chapcher(Sequence([Char('a'), Char('b')]))])");
    assert_eq!(
        shown("x[ab|cd]"),
        "Sequence([Char('x'), Or(Sequence([Char('a'), Char('b')]), Sequence([Char('c'), Char('d')]))])"
    );
    assert_eq!(shown("[^cd]"), "Sequence([UnmatchChars(['c', 'd'])])");
    assert_eq!(
        shown("[^cd|ef]"),
        "Sequence([Or(UnmatchChars(['c', 'd']), Sequence([Char('c'), Char('d'), Char('e'), Char('f')]))])"
    );
}

#[test]
fn group_keeps_its_last_alternative_only() {
    assert_eq!(shown("(a|b)"), "Sequence([Chapcher(Sequence([Char('b')]))])");
}

#[test]
fn anchors_and_classes() {
    assert_eq!(
        shown("^\\d\\D$"),
        "Sequence([Caret, AnyNumber, NotNumber, Doller])"
    );
}

#[test]
fn escaped_characters_are_literals() {
    assert_eq!(
        shown("\\\\\\(\\)\\|\\+\\*\\?\\.\\^\\$"),
        "Sequence([Char('\\\\'), Char('('), Char(')'), Char('|'), Char('+'), Char('*'), Char('?'), Char('.'), Char('^'), Char('$')])"
    );
}

#[test]
fn unfinished_escape_or_count_is_dropped() {
    assert_eq!(shown("a\\"), "Sequence([Char('a')])");
    assert_eq!(shown("a{2"), "Sequence([Char('a')])");
}

#[test]
fn every_error() {
    assert_eq!(parse("a\\q").unwrap_err(), ParseError::InvalidEscape(2, 'q'));
    assert_eq!(parse("a)").unwrap_err(), ParseError::InvalidRightParen(1));
    assert_eq!(parse("a{x}").unwrap_err(), ParseError::InvalidBrace);
    assert_eq!(parse("a{}").unwrap_err(), ParseError::InvalidBrace);
    assert_eq!(parse("a{,3}").unwrap_err(), ParseError::InvalidBrace);
    assert_eq!(parse("a{1,2,3}").unwrap_err(), ParseError::InvalidBrace);
    assert_eq!(
        parse("a{99999999999999999999999999}").unwrap_err(),
        ParseError::InvalidBrace
    );
    assert_eq!(parse("[a^]").unwrap_err(), ParseError::InvalidCaret);
    assert_eq!(parse("[^a+]").unwrap_err(), ParseError::InvalidCaret);
    assert_eq!(parse("ab]").unwrap_err(), ParseError::InvalidRightBracket(2));
    assert_eq!(parse("+b").unwrap_err(), ParseError::NoPrev(0));
    assert_eq!(parse("a|*").unwrap_err(), ParseError::NoPrev(2));
    assert_eq!(parse("|b").unwrap_err(), ParseError::NoPrev(0));
    assert_eq!(parse("{2}").unwrap_err(), ParseError::NoPrev(2));
    assert_eq!(parse("(abc").unwrap_err(), ParseError::NoRightParen);
    assert_eq!(parse("[abc").unwrap_err(), ParseError::NoRightParen);
    assert_eq!(parse("").unwrap_err(), ParseError::Empty);
    assert_eq!(parse("()").unwrap_err(), ParseError::Empty);
}
