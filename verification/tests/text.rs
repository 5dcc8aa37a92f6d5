use regex_engine::codegen::CodeGenError;
use regex_engine::engine::{compile, listing};
use regex_engine::evaluator::EvalError;
use regex_engine::instruction::Instruction;
use regex_engine::parser::ParseError;
use regex_engine::text::{bracket, chars_of, push_decimal, push_padded, push_signed, string_of};

#[test]
fn instructions_as_text() {
    assert_eq!(Instruction::Char('a').to_text(), "char a");
    assert_eq!(Instruction::UnmatchChars(vec!['c', 'd']).to_text(), "unmatch char ['c', 'd']");
    assert_eq!(Instruction::UnmatchChars(vec![]).to_text(), "unmatch char []");
    assert_eq!(Instruction::UnmatchChars(vec!['\'', '\n']).to_text(), "unmatch char ['\\'', '\\n']");
    assert_eq!(Instruction::Caret.to_text(), "caret");
    assert_eq!(Instruction::Doller.to_text(), "doller");
    assert_eq!(Instruction::Match.to_text(), "match");
    assert_eq!(Instruction::Jump(8).to_text(), "jump 0008");
    assert_eq!(Instruction::Jump(12345).to_text(), "jump 12345");
    assert_eq!(
        Instruction::Split(2, 9, (-1, None), -1).to_text(),
        "split 0002, 0009, (-1, None), -1"
    );
    assert_eq!(
        Instruction::Split(12, 150, (2, Some(20)), 1).to_text(),
        "split 0012, 0150, (2, Some(20)), 1"
    );
    assert_eq!(
        Instruction::Split(0, 1000, (i32::MIN, Some(i32::MAX)), 0).to_text(),
        "split 0000, 1000, (-2147483648, Some(2147483647)), 0"
    );
    assert_eq!(Instruction::Descrement(0).to_text(), "decrement 0");
    assert_eq!(Instruction::AnyNumber.to_text(), "any number");
    assert_eq!(Instruction::NotNumber.to_text(), "not number");
    assert_eq!(Instruction::CapcherBegin(3).to_text(), "capcher begin 3");
    assert_eq!(Instruction::CapcherEnd(10).to_text(), "capcher end 10");
}

#[test]
fn instruction_text_is_what_the_formatter_writes() {
    let split = Instruction::Split(7, 42, (3, Some(5)), 2);
    assert_eq!(
        split.to_text(),
        format!("split {:>04}, {:>04}, {:?}, {}", 7usize, 42usize, (3, Some(5)), 2)
    );
    let set = Instruction::UnmatchChars(vec!['a', '\\', '\u{3042}']);
    assert_eq!(set.to_text(), format!("unmatch char {:?}", vec!['a', '\\', '\u{3042}']));
}

#[test]
fn parse_errors_as_text() {
    assert_eq!(
        ParseError::InvalidEscape(12, 'q').to_text(),
        "ParseError: invalid escape: pos = 12, char = 'q'"
    );
    assert_eq!(
        ParseError::InvalidRightParen(3).to_text(),
        "ParseError: invalid right parentheis: post = 3"
    );
    assert_eq!(ParseError::InvalidBrace.to_text(), "ParseError: invalid brace");
    assert_eq!(ParseError::InvalidCaret.to_text(), "ParseError: invalid caret");
    assert_eq!(
        ParseError::InvalidRightBracket(0).to_text(),
        "ParseError: invalid bracket: pos = 0"
    );
    assert_eq!(
        ParseError::NoPrev(100).to_text(),
        "ParseError: no previous expression: pos = 100"
    );
    assert_eq!(ParseError::NoRightParen.to_text(), "ParseError: no right parenthesis");
    assert_eq!(ParseError::Empty.to_text(), "ParseError: empty expression");
}

#[test]
fn other_errors_as_text() {
    assert_eq!(CodeGenError::PCOverFlow.to_text(), "CodeGenError: PCOverFlow");
    assert_eq!(CodeGenError::FailStar.to_text(), "CodeGenError: FailStar");
    assert_eq!(CodeGenError::FailOr.to_text(), "CodeGenError: FailOr");
    assert_eq!(CodeGenError::FailQuestion.to_text(), "CodeGenError: FailQuestion");
    assert_eq!(CodeGenError::FailCounter.to_text(), "CodeGenError: FailCounter");
    assert_eq!(EvalError::PCOverFlow.to_text(), "CodeGenError: PCOverFlow");
    assert_eq!(EvalError::SPOverFlow.to_text(), "CodeGenError: SPOverFlow");
    assert_eq!(EvalError::InvalidPC.to_text(), "CodeGenError: InvalidPC");
    assert_eq!(EvalError::InvalidContext.to_text(), "CodeGenError: InvalidContext");
    assert_eq!(EvalError::InvalidRegister.to_text(), "CodeGenError: InvalidRegister");
    assert_eq!(EvalError::DepthOverFlow.to_text(), "CodeGenError: DepthOverFlow");
}

#[test]
fn listing_numbers_the_lines() {
    let (_, code) = compile("a{2}").unwrap();
    assert_eq!(
        listing(&code),
        vec![
            "0000: split 0001, 0004, (2, Some(2)), 0".to_string(),
            "0001: decrement 0".to_string(),
            "0002: char a".to_string(),
            "0003: jump 0000".to_string(),
            "0004: match".to_string(),
        ]
    );
}

#[test]
fn strings_and_characters_convert_both_ways() {
    assert_eq!(chars_of("a\u{3042}b"), vec!['a', '\u{3042}', 'b']);
    assert_eq!(chars_of(""), Vec::<char>::new());
    assert_eq!(string_of(&vec!['a', '\u{3042}', 'b']), "a\u{3042}b");
    assert_eq!(string_of(&vec![]), "");
}

#[test]
fn bracket_joins_with_comma_and_space() {
    assert_eq!(bracket(&vec![]), "[]");
    assert_eq!(bracket(&vec!["'a'".to_string()]), "['a']");
    assert_eq!(
        bracket(&vec!["'a'".to_string(), "".to_string(), "x y".to_string()]),
        "['a', , x y]"
    );
}

#[test]
fn numbers_as_text() {
    let mut s = String::from("n=");
    push_decimal(&mut s, 0);
    assert_eq!(s, "n=0");
    push_decimal(&mut s, 1234567890);
    assert_eq!(s, "n=01234567890");

    let mut s = String::new();
    push_padded(&mut s, 0);
    push_padded(&mut s, 9);
    push_padded(&mut s, 10);
    push_padded(&mut s, 99);
    push_padded(&mut s, 100);
    push_padded(&mut s, 999);
    push_padded(&mut s, 1000);
    push_padded(&mut s, 123456);
    assert_eq!(s, "0000000900100099010009991000123456");

    let mut s = String::new();
    push_signed(&mut s, 0);
    push_signed(&mut s, -1);
    push_signed(&mut s, 42);
    push_signed(&mut s, i32::MIN);
    assert_eq!(s, "0-142-2147483648");
}

#[test]
fn compile_gives_tree_and_program_or_the_failed_step() {
    let (ast, code) = compile("ab").unwrap();
    assert_eq!(format!("{:?}", ast), "Sequence([Char('a'), Char('b')])");
    assert_eq!(
        code,
        vec![Instruction::Char('a'), Instruction::Char('b'), Instruction::Match]
    );
    let failed = compile("a)").unwrap_err();
    assert_eq!(format!("{:?}", failed), "Parse(InvalidRightParen(1))");
}
