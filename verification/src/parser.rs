//! The parser: from pattern text to a syntax tree.

use crate::ast::{
    lemma_char_view, lemma_sequence_view, lemma_trees_drop_last, lemma_trees_push, trees, Tree, AST,
};
use crate::scanner::{
    digit_value, digits_value, escaped, folded, lemma_digits_grow, lemma_folded_step,
    lemma_scan_error, negated, number_of, parsed, quantified, scan, step, ParseState, Scan, PSQ,
};
use crate::text::{chars_of, decimal, digit, push_char, push_decimal};
use vstd::prelude::*;
use vstd::string::StringExecFns;

verus! {

/// Why a pattern is refused.
#[derive(Debug, PartialEq, Eq)]
pub enum ParseError {
    /// A backslash before a character that cannot be escaped.
    InvalidEscape(usize, char),
    /// A `)` without an opening bracket.
    InvalidRightParen(usize),
    /// A repetition count that is not `{m}`, `{m,}` or `{m,n}`.
    InvalidBrace,
    /// A `^` inside `[` `]` that is not its first character, or a negated
    /// set that holds more than plain characters.
    InvalidCaret,
    /// A `]` without an opening bracket.
    InvalidRightBracket(usize),
    /// A quantifier or a `|` with nothing before it.
    NoPrev(usize),
    /// An opening bracket that is never closed.
    NoRightParen,
    /// A pattern that holds nothing.
    Empty,
}

/// Why a pattern is refused, as a message with the position and the
/// character where there is one.
pub open spec fn parse_error_text(e: ParseError) -> Seq<char> {
    match e {
        ParseError::InvalidEscape(pos, c) => "ParseError: invalid escape: pos = "@ + decimal(
            pos as nat,
        ) + ", char = '"@ + seq![c] + "'"@,
        ParseError::InvalidRightParen(pos) => "ParseError: invalid right parentheis: post = "@
            + decimal(pos as nat),
        ParseError::NoPrev(pos) => "ParseError: no previous expression: pos = "@ + decimal(
            pos as nat,
        ),
        ParseError::NoRightParen => "ParseError: no right parenthesis"@,
        ParseError::Empty => "ParseError: empty expression"@,
        ParseError::InvalidBrace => "ParseError: invalid brace"@,
        ParseError::InvalidCaret => "ParseError: invalid caret"@,
        ParseError::InvalidRightBracket(pos) => "ParseError: invalid bracket: pos = "@ + decimal(
            pos as nat,
        ),
    }
}

impl ParseError {
    /// The error as a message.
    pub fn to_text(&self) -> (s: String)
        ensures
            s@ == parse_error_text(*self),
    {
        let mut s = String::new();
        match self {
            ParseError::InvalidEscape(pos, c) => {
                s.append("ParseError: invalid escape: pos = ");
                push_decimal(&mut s, *pos);
                s.append(", char = '");
                push_char(&mut s, *c);
                s.append("'");
            },
            ParseError::InvalidRightParen(pos) => {
                s.append("ParseError: invalid right parentheis: post = ");
                push_decimal(&mut s, *pos);
            },
            ParseError::NoPrev(pos) => {
                s.append("ParseError: no previous expression: pos = ");
                push_decimal(&mut s, *pos);
            },
            ParseError::NoRightParen => {
                s.append("ParseError: no right parenthesis");
            },
            ParseError::Empty => {
                s.append("ParseError: empty expression");
            },
            ParseError::InvalidBrace => {
                s.append("ParseError: invalid brace");
            },
            ParseError::InvalidCaret => {
                s.append("ParseError: invalid caret");
            },
            ParseError::InvalidRightBracket(pos) => {
                s.append("ParseError: invalid bracket: pos = ");
                push_decimal(&mut s, *pos);
            },
        }
        assert(s@ =~= parse_error_text(*self));
        s
    }
}

/// What each open bracket set aside, as trees.
pub open spec fn frames(stack: Seq<(Vec<AST>, Vec<AST>)>) -> Seq<(Seq<Tree>, Seq<Tree>)> {
    Seq::new(stack.len(), |i: int| (trees(stack[i].0@), trees(stack[i].1@)))
}

/// Reads the character after a backslash.
fn parse_escape(pos: usize, c: char) -> (r: Result<AST, ParseError>)
    ensures
        match r {
            Ok(ast) => escaped(pos, c) == Ok::<Tree, ParseError>(ast@),
            Err(e) => escaped(pos, c) == Err::<Tree, ParseError>(e),
        },
{
    match c {
        '\\' | '(' | ')' | '|' | '+' | '*' | '?' | '.' | '^' | '$' => Ok(AST::Char(c)),
        'd' => Ok(AST::AnyNumber),
        'D' => Ok(AST::NotNumber),
        _ => {
            let err = ParseError::InvalidEscape(pos, c);
            Err(err)
        },
    }
}

/// Puts the last tree of a sequence under a quantifier.
fn parse_plus_star_question(seq: &mut Vec<AST>, ast_type: PSQ, pos: usize) -> (r: Result<
    (),
    ParseError,
>)
    ensures
        match quantified(trees(old(seq)@), ast_type, pos) {
            Ok(ts) => r is Ok && trees(final(seq)@) == ts,
            Err(e) => r == Err::<(), ParseError>(e) && final(seq)@ == old(seq)@,
        },
{
    proof {
        if seq@.len() > 0 {
            lemma_trees_drop_last(seq@);
        }
    }
    if let Some(prev) = seq.pop() {
        let ast = match ast_type {
            PSQ::Plus => AST::Plus(Box::new(prev)),
            PSQ::Star => AST::Star(Box::new(prev)),
            PSQ::Question => AST::Question(Box::new(prev)),
            PSQ::Counter((lower_count, upper_count)) => {
                AST::Counter(Box::new(prev), (lower_count, upper_count))
            },
        };
        proof {
            lemma_trees_push(seq@, ast);
        }
        seq.push(ast);
        Ok(())
    } else {
        Err(ParseError::NoPrev(pos))
    }
}

/// Makes one tree of the alternatives: a chain of alternations, nested to
/// the right.
fn fold_or(seq_or: Vec<AST>) -> (r: Option<AST>)
    ensures
        match r {
            Some(ast) => folded(trees(seq_or@)) == Some(ast@),
            None => folded(trees(seq_or@)) is None,
        },
{
    let mut seq_or = seq_or;
    let ghost all = trees(seq_or@);
    let ghost n = all.len() as int;
    if seq_or.len() > 1 {
        proof {
            lemma_trees_drop_last(seq_or@);
        }
        let mut ast = seq_or.pop().unwrap();
        proof {
            assert(all.subrange(n - 1, n) =~= seq![all[n - 1]]);
        }
        while seq_or.len() > 0
            invariant
                n == all.len(),
                seq_or.len() < n,
                trees(seq_or@) == all.subrange(0, seq_or.len() as int),
                folded(all.subrange(seq_or.len() as int, n)) == Some(ast@),
            decreases seq_or.len(),
        {
            proof {
                lemma_trees_drop_last(seq_or@);
                lemma_folded_step(all, seq_or.len() - 1);
            }
            let s = seq_or.pop().unwrap();
            ast = AST::Or(Box::new(s), Box::new(ast));
            proof {
                assert(trees(seq_or@) =~= all.subrange(0, seq_or.len() as int));
            }
        }
        proof {
            assert(all.subrange(0, n) =~= all);
        }
        Some(ast)
    } else {
        proof {
            if seq_or@.len() > 0 {
                lemma_trees_drop_last(seq_or@);
            }
        }
        seq_or.pop()
    }
}

/// Makes a negated set of a sequence of plain characters and adds it to the
/// alternatives.
fn unmatch_charctors(seq_or: &mut Vec<AST>, seq: &Vec<AST>) -> (r: Result<(), ParseError>)
    ensures
        match negated(trees(seq@)) {
            Ok(t) => r is Ok && trees(final(seq_or)@) == trees(old(seq_or)@).push(t),
            Err(e) => r == Err::<(), ParseError>(e) && final(seq_or)@ == old(seq_or)@,
        },
{
    let mut chars: Vec<char> = Vec::new();
    let mut i: usize = 0;
    while i < seq.len()
        invariant
            i <= seq.len(),
            chars.len() == i,
            seq_or@ == old(seq_or)@,
            forall|j: int| 0 <= j < i ==> #[trigger] trees(seq@)[j] is Char,
            forall|j: int| 0 <= j < i ==> #[trigger] chars@[j] == trees(seq@)[j]->Char_0,
        decreases seq.len() - i,
    {
        match &seq[i] {
            AST::Char(c) => {
                chars.push(*c);
            },
            _ => {
                assert(!(trees(seq@)[i as int] is Char));
                return Err(ParseError::InvalidCaret);
            },
        }
        i = i + 1;
    }
    let ast = AST::UnmatchChars(chars);
    proof {
        lemma_trees_push(seq_or@, ast);
        assert(chars@ =~= Seq::new(trees(seq@).len(), |i: int| trees(seq@)[i]->Char_0));
    }
    seq_or.push(ast);
    Ok(())
}

/// The count that a run of digits gives.
fn parse_number(ds: &Vec<char>) -> (r: Option<usize>)
    ensures
        r == number_of(ds@),
{
    if ds.len() == 0 {
        return None;
    }
    let mut value: usize = 0;
    let mut i: usize = 0;
    while i < ds.len()
        invariant
            i <= ds.len(),
            value == digits_value(ds@.subrange(0, i as int)),
        decreases ds.len() - i,
    {
        let c = ds[i];
        let d: usize = if digit(c) {
            (c as u32 - '0' as u32) as usize
        } else {
            0
        };
        proof {
            assert(ds@.subrange(0, i + 1).drop_last() =~= ds@.subrange(0, i as int));
            assert(d == digit_value(c));
            lemma_digits_grow(ds@, i + 1);
        }
        if value > (usize::MAX - d) / 10 {
            return None;
        }
        value = value * 10 + d;
        i = i + 1;
    }
    proof {
        assert(ds@.subrange(0, ds.len() as int) =~= ds@);
    }
    Some(value)
}

/// Setting a frame aside appends its model.
pub proof fn lemma_frames_push(stack: Seq<(Vec<AST>, Vec<AST>)>, frame: (Vec<AST>, Vec<AST>))
    ensures
        frames(stack.push(frame)) == frames(stack).push((trees(frame.0@), trees(frame.1@))),
{
    assert(frames(stack.push(frame)) =~= frames(stack).push((trees(frame.0@), trees(frame.1@))));
}

/// Taking the last frame back takes its model off.
pub proof fn lemma_frames_drop_last(stack: Seq<(Vec<AST>, Vec<AST>)>)
    requires
        stack.len() > 0,
    ensures
        frames(stack.drop_last()) == frames(stack).drop_last(),
        frames(stack).last() == (trees(stack.last().0@), trees(stack.last().1@)),
{
    assert(frames(stack.drop_last()) =~= frames(stack).drop_last());
}

/// The state that the variables of the scanner stand for.
pub open spec fn model(
    seq: Seq<AST>,
    seq_or: Seq<AST>,
    stack: Seq<(Vec<AST>, Vec<AST>)>,
    state: ParseState,
    counter: Seq<char>,
    lower: usize,
    second: bool,
    grouping: bool,
    negate: bool,
) -> Scan {
    Scan {
        seq: trees(seq),
        alts: trees(seq_or),
        stack: frames(stack),
        mode: state,
        digits: counter,
        lower,
        second,
        grouping,
        negate,
    }
}

/// Reads a pattern into its syntax tree, or says why the pattern is refused:
/// the result is that of the scanner's model on the characters of `expr`.
#[verifier::loop_isolation(false)]
#[verifier::rlimit(60)]
pub fn parse(expr: &str) -> (r: Result<AST, ParseError>)
    ensures
        match r {
            Ok(ast) => parsed(expr@) == Ok::<Tree, ParseError>(ast@),
            Err(e) => parsed(expr@) == Err::<Tree, ParseError>(e),
        },
{
    let chars = chars_of(expr);
    let mut seq: Vec<AST> = Vec::new();
    let mut seq_or: Vec<AST> = Vec::new();
    let mut stack: Vec<(Vec<AST>, Vec<AST>)> = Vec::new();
    let mut state = ParseState::Char;
    let mut counter: Vec<char> = Vec::new();
    let mut lower: usize = 0;
    let mut expect_second_count = false;
    let mut expect_grouping = false;
    let mut expect_except_charactors = false;

    proof {
        assert(trees(seq@) =~= Seq::empty());
        assert(frames(stack@) =~= Seq::empty());
    }
    let mut i: usize = 0;
    while i < chars.len()
        invariant
            i <= chars.len(),
            chars@ == expr@,
            scan(chars@, i as nat) == Ok::<Scan, ParseError>(
                model(
                    seq@,
                    seq_or@,
                    stack@,
                    state,
                    counter@,
                    lower,
                    expect_second_count,
                    expect_grouping,
                    expect_except_charactors,
                ),
            ),
        decreases chars.len() - i,
    {
        let c = chars[i];
        let ghost before = model(
            seq@,
            seq_or@,
            stack@,
            state,
            counter@,
            lower,
            expect_second_count,
            expect_grouping,
            expect_except_charactors,
        );
        proof {
            assert(scan(chars@, (i + 1) as nat) == step(before, i, c));
            if step(before, i, c) is Err {
                lemma_scan_error(chars@, (i + 1) as nat, chars@.len());
            }
        }
        match state {
            ParseState::Char => {
                if c == '^' {
                    if expect_grouping {
                        if seq.len() == 0 {
                            expect_except_charactors = true;
                        } else {
                            return Err(ParseError::InvalidCaret);
                        }
                    } else {
                        proof {
                            lemma_trees_push(seq@, AST::Caret);
                        }
                        seq.push(AST::Caret);
                    }
                } else if c == '$' {
                    proof {
                        lemma_trees_push(seq@, AST::Doller);
                    }
                    seq.push(AST::Doller);
                } else if c == '+' {
                    parse_plus_star_question(&mut seq, PSQ::Plus, i)?;
                } else if c == '*' {
                    parse_plus_star_question(&mut seq, PSQ::Star, i)?;
                } else if c == '?' {
                    parse_plus_star_question(&mut seq, PSQ::Question, i)?;
                } else if c == '[' {
                    let prev = seq;
                    let prev_or = seq_or;
                    seq = Vec::new();
                    seq_or = Vec::new();
                    expect_grouping = true;
                    proof {
                        lemma_frames_push(stack@, (prev, prev_or));
                        assert(trees(seq@) =~= Seq::empty());
                    }
                    stack.push((prev, prev_or));
                } else if c == ']' {
                    proof {
                        if stack@.len() > 0 {
                            lemma_frames_drop_last(stack@);
                        }
                    }
                    match stack.pop() {
                        Some(frame) => {
                            let mut prev = frame.0;
                            let prev_or = frame.1;
                            if seq.len() != 0 {
                                if expect_except_charactors {
                                    unmatch_charctors(&mut seq_or, &seq)?;
                                    expect_except_charactors = false;
                                } else {
                                    let inner = AST::Sequence(seq);
                                    proof {
                                        lemma_sequence_view(seq);
                                        lemma_trees_push(seq_or@, inner);
                                    }
                                    seq_or.push(inner);
                                }
                            }
                            if let Some(ast) = fold_or(seq_or) {
                                proof {
                                    lemma_trees_push(prev@, ast);
                                }
                                prev.push(ast);
                            }
                            seq = prev;
                            seq_or = prev_or;
                            expect_grouping = false;
                        },
                        None => {
                            return Err(ParseError::InvalidRightBracket(i));
                        },
                    }
                } else if c == '(' {
                    let prev = seq;
                    let prev_or = seq_or;
                    seq = Vec::new();
                    seq_or = Vec::new();
                    proof {
                        lemma_frames_push(stack@, (prev, prev_or));
                        assert(trees(seq@) =~= Seq::empty());
                    }
                    stack.push((prev, prev_or));
                } else if c == ')' {
                    proof {
                        if stack@.len() > 0 {
                            lemma_frames_drop_last(stack@);
                        }
                    }
                    match stack.pop() {
                        Some(frame) => {
                            let mut prev = frame.0;
                            let prev_or = frame.1;
                            if seq.len() != 0 {
                                let group = AST::Chapcher(Box::new(AST::Sequence(seq)));
                                proof {
                                    lemma_sequence_view(seq);
                                    lemma_trees_push(prev@, group);
                                }
                                prev.push(group);
                            }
                            seq = prev;
                            seq_or = prev_or;
                        },
                        None => {
                            return Err(ParseError::InvalidRightParen(i));
                        },
                    }
                } else if c == '|' {
                    if seq.len() == 0 {
                        return Err(ParseError::NoPrev(i));
                    } else {
                        if expect_except_charactors {
                            unmatch_charctors(&mut seq_or, &seq)?;
                            expect_except_charactors = false;
                        } else {
                            let prev = AST::Sequence(seq);
                            seq = Vec::new();
                            proof {
                                lemma_sequence_view(prev->Sequence_0);
                                lemma_trees_push(seq_or@, prev);
                                assert(trees(seq@) =~= Seq::empty());
                            }
                            seq_or.push(prev);
                        }
                    }
                } else if c == '\\' {
                    state = ParseState::Escape;
                } else if c == '{' {
                    state = ParseState::Brace;
                } else {
                    proof {
                        lemma_char_view(c);
                        lemma_trees_push(seq@, AST::Char(c));
                    }
                    seq.push(AST::Char(c));
                }
            },
            ParseState::Escape => {
                let ast = parse_escape(i, c)?;
                proof {
                    lemma_trees_push(seq@, ast);
                }
                seq.push(ast);
                state = ParseState::Char;
            },
            ParseState::Brace => {
                if digit(c) {
                    counter.push(c);
                } else {
                    if c == ' ' {
                        // nothing to do
                    } else if c == ',' && !expect_second_count {
                        match parse_number(&counter) {
                            Some(count) => {
                                lower = count;
                            },
                            None => {
                                return Err(ParseError::InvalidBrace);
                            },
                        }
                        counter = Vec::new();
                        expect_second_count = true;
                    } else if c == '}' {
                        let counter_result = parse_number(&counter);
                        let counter_pair = if !expect_second_count {
                            match counter_result {
                                Some(count) => (count, Some(count)),
                                None => {
                                    return Err(ParseError::InvalidBrace);
                                },
                            }
                        } else {
                            (lower, counter_result)
                        };
                        parse_plus_star_question(&mut seq, PSQ::Counter(counter_pair), i)?;
                        counter = Vec::new();
                        lower = 0;
                        expect_second_count = false;
                        state = ParseState::Char;
                    } else {
                        return Err(ParseError::InvalidBrace);
                    }
                }
            },
        }
        i = i + 1;
    }

    if stack.len() != 0 {
        return Err(ParseError::NoRightParen);
    }
    if seq.len() != 0 {
        let last = AST::Sequence(seq);
        proof {
            lemma_sequence_view(last->Sequence_0);
            lemma_trees_push(seq_or@, last);
        }
        seq_or.push(last);
    }
    if let Some(ast) = fold_or(seq_or) {
        Ok(ast)
    } else {
        Err(ParseError::Empty)
    }
}

} // verus!
