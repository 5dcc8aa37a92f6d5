//! The model of the parser: a scanner that reads a pattern in one pass from
//! left to right, with a stack of the sequences that an opening bracket set
//! aside.
//!
//! In a pattern a character stands for itself and `.` for any character; `^`
//! and `$` are the anchors; a backslash makes a literal of `\`, `(`, `)`,
//! `|`, `+`, `*`, `?`, `.`, `^` and `$`, and `\d` and `\D` stand for a digit
//! and for anything else. `+`, `*`, `?`, `{m}`, `{m,}` and `{m,n}` apply to
//! the node before them. `(` and `)` make a capture group of the sequence
//! between them. `[` and `]` group alternatives, which `|` separates; where
//! `^` follows `[`, the plain characters up to the next `|` or `]` make a
//! negated set.

use crate::ast::Tree;
use crate::parser::ParseError;
use crate::text::is_digit;
use vstd::prelude::*;

verus! {

/// What the scanner takes the next character for.
#[derive(Clone, Copy, Debug)]
pub enum ParseState {
    /// A character of the pattern.
    Char,
    /// The character after a backslash.
    Escape,
    /// A character of a repetition count, after `{`.
    Brace,
}

/// A quantifier.
#[derive(Clone, Copy, Debug)]
pub enum PSQ {
    Plus,
    Star,
    Question,
    Counter((usize, Option<usize>)),
}

/// The tree of an escaped character.
pub open spec fn escaped(pos: usize, c: char) -> Result<Tree, ParseError> {
    if c == '\\' || c == '(' || c == ')' || c == '|' || c == '+' || c == '*' || c == '?' || c
        == '.' || c == '^' || c == '$' {
        Ok(Tree::Char(c))
    } else if c == 'd' {
        Ok(Tree::AnyNumber)
    } else if c == 'D' {
        Ok(Tree::NotNumber)
    } else {
        Err(ParseError::InvalidEscape(pos, c))
    }
}

/// A tree under a quantifier.
pub open spec fn wrapped(t: Tree, q: PSQ) -> Tree {
    match q {
        PSQ::Plus => Tree::Plus(Box::new(t)),
        PSQ::Star => Tree::Star(Box::new(t)),
        PSQ::Question => Tree::Question(Box::new(t)),
        PSQ::Counter(count) => Tree::Counter(Box::new(t), count),
    }
}

/// A sequence after a quantifier at `pos`: its last tree is wrapped. With
/// nothing before the quantifier there is nothing to wrap.
pub open spec fn quantified(seq: Seq<Tree>, q: PSQ, pos: usize) -> Result<Seq<Tree>, ParseError> {
    if seq.len() == 0 {
        Err(ParseError::NoPrev(pos))
    } else {
        Ok(seq.drop_last().push(wrapped(seq.last(), q)))
    }
}

/// The alternatives as one tree: a chain of alternations, nested to the
/// right. No alternative gives no tree.
pub open spec fn folded(alts: Seq<Tree>) -> Option<Tree>
    decreases alts.len(),
{
    if alts.len() == 0 {
        None
    } else if alts.len() == 1 {
        Some(alts[0])
    } else {
        Some(Tree::Or(Box::new(alts[0]), Box::new(folded(alts.drop_first())->0)))
    }
}

/// The negated set of a sequence of plain characters.
pub open spec fn negated(seq: Seq<Tree>) -> Result<Tree, ParseError> {
    if forall|i: int| 0 <= i < seq.len() ==> #[trigger] seq[i] is Char {
        Ok(Tree::UnmatchChars(Seq::new(seq.len(), |i: int| seq[i]->Char_0)))
    } else {
        Err(ParseError::InvalidCaret)
    }
}

/// The value of a digit; of any other character, zero.
pub open spec fn digit_value(c: char) -> nat {
    if is_digit(c) {
        (c as nat - '0' as nat) as nat
    } else {
        0
    }
}

/// The number that a run of decimal digits writes.
pub open spec fn digits_value(ds: Seq<char>) -> nat
    decreases ds.len(),
{
    if ds.len() == 0 {
        0
    } else {
        digits_value(ds.drop_last()) * 10 + digit_value(ds.last())
    }
}

/// The count that a run of digits gives: none where there is no digit or
/// the number does not fit.
pub open spec fn number_of(ds: Seq<char>) -> Option<usize> {
    if ds.len() > 0 && digits_value(ds) <= usize::MAX {
        Some(digits_value(ds) as usize)
    } else {
        None
    }
}

/// The state of the scanner between two characters.
pub struct Scan {
    /// The trees of the sequence that is being read.
    pub seq: Seq<Tree>,
    /// The alternatives completed before it, at the same depth.
    pub alts: Seq<Tree>,
    /// What each open bracket set aside: the sequence and the alternatives.
    pub stack: Seq<(Seq<Tree>, Seq<Tree>)>,
    /// What the next character is taken for.
    pub mode: ParseState,
    /// The digits of the count that is being read.
    pub digits: Seq<char>,
    /// The minimum of the count, once a comma was read.
    pub lower: usize,
    /// Whether the comma of the count was read.
    pub second: bool,
    /// Whether a `[` was read and no `]` since.
    pub grouping: bool,
    /// Whether the sequence that is being read is a negated set.
    pub negate: bool,
}

/// The state before the first character.
pub open spec fn start() -> Scan {
    Scan {
        seq: Seq::empty(),
        alts: Seq::empty(),
        stack: Seq::empty(),
        mode: ParseState::Char,
        digits: Seq::empty(),
        lower: 0,
        second: false,
        grouping: false,
        negate: false,
    }
}

/// The state after the sequence that is being read became an alternative:
/// a negated set where one was announced, else the sequence itself.
pub open spec fn alternative(s: Scan) -> Result<Scan, ParseError> {
    if s.negate {
        match negated(s.seq) {
            Ok(t) => Ok(Scan { alts: s.alts.push(t), negate: false, ..s }),
            Err(e) => Err(e),
        }
    } else {
        Ok(Scan { alts: s.alts.push(Tree::Sequence(s.seq)), ..s })
    }
}

/// The state after a quantifier at `pos`.
pub open spec fn quantify(s: Scan, q: PSQ, pos: usize) -> Result<Scan, ParseError> {
    match quantified(s.seq, q, pos) {
        Ok(seq) => Ok(Scan { seq, ..s }),
        Err(e) => Err(e),
    }
}

/// The state after an opening bracket: what was read is set aside.
pub open spec fn descend(s: Scan) -> Scan {
    Scan { seq: Seq::empty(), alts: Seq::empty(), stack: s.stack.push((s.seq, s.alts)), ..s }
}

/// The state after `]` at `pos`: the alternatives inside the brackets become
/// one tree of the sequence that was set aside.
pub open spec fn close_bracket(s: Scan, pos: usize) -> Result<Scan, ParseError> {
    if s.stack.len() == 0 {
        Err(ParseError::InvalidRightBracket(pos))
    } else {
        let inner = if s.seq.len() > 0 {
            alternative(s)
        } else {
            Ok(s)
        };
        match inner {
            Err(e) => Err(e),
            Ok(t) => Ok(
                Scan {
                    seq: match folded(t.alts) {
                        Some(tree) => s.stack.last().0.push(tree),
                        None => s.stack.last().0,
                    },
                    alts: s.stack.last().1,
                    stack: s.stack.drop_last(),
                    grouping: false,
                    ..t
                },
            ),
        }
    }
}

/// The state after `)` at `pos`: the sequence inside the brackets becomes a
/// capture group of the sequence that was set aside. Alternatives completed
/// inside the brackets are dropped: a group keeps what follows its last `|`.
pub open spec fn close_paren(s: Scan, pos: usize) -> Result<Scan, ParseError> {
    if s.stack.len() == 0 {
        Err(ParseError::InvalidRightParen(pos))
    } else {
        Ok(
            Scan {
                seq: if s.seq.len() > 0 {
                    s.stack.last().0.push(Tree::Chapcher(Box::new(Tree::Sequence(s.seq))))
                } else {
                    s.stack.last().0
                },
                alts: s.stack.last().1,
                stack: s.stack.drop_last(),
                ..s
            },
        )
    }
}

/// The state after `|` at `pos`: the sequence that is being read becomes an
/// alternative. A negated set is completed and the characters stay in the
/// sequence; any other sequence starts anew.
pub open spec fn bar(s: Scan, pos: usize) -> Result<Scan, ParseError> {
    if s.seq.len() == 0 {
        Err(ParseError::NoPrev(pos))
    } else if s.negate {
        alternative(s)
    } else {
        Ok(Scan { seq: Seq::empty(), alts: s.alts.push(Tree::Sequence(s.seq)), ..s })
    }
}

/// The state after the character `c` at `pos` of the pattern itself.
pub open spec fn step_char(s: Scan, pos: usize, c: char) -> Result<Scan, ParseError> {
    if c == '^' {
        if s.grouping {
            if s.seq.len() == 0 {
                Ok(Scan { negate: true, ..s })
            } else {
                Err(ParseError::InvalidCaret)
            }
        } else {
            Ok(Scan { seq: s.seq.push(Tree::Caret), ..s })
        }
    } else if c == '$' {
        Ok(Scan { seq: s.seq.push(Tree::Doller), ..s })
    } else if c == '+' {
        quantify(s, PSQ::Plus, pos)
    } else if c == '*' {
        quantify(s, PSQ::Star, pos)
    } else if c == '?' {
        quantify(s, PSQ::Question, pos)
    } else if c == '[' {
        Ok(Scan { grouping: true, ..descend(s) })
    } else if c == ']' {
        close_bracket(s, pos)
    } else if c == '(' {
        Ok(descend(s))
    } else if c == ')' {
        close_paren(s, pos)
    } else if c == '|' {
        bar(s, pos)
    } else if c == '\\' {
        Ok(Scan { mode: ParseState::Escape, ..s })
    } else if c == '{' {
        Ok(Scan { mode: ParseState::Brace, ..s })
    } else {
        Ok(Scan { seq: s.seq.push(Tree::Char(c)), ..s })
    }
}

/// The state after the character `c` at `pos` of a repetition count.
pub open spec fn step_brace(s: Scan, pos: usize, c: char) -> Result<Scan, ParseError> {
    if is_digit(c) {
        Ok(Scan { digits: s.digits.push(c), ..s })
    } else if c == ' ' {
        Ok(s)
    } else if c == ',' && !s.second {
        match number_of(s.digits) {
            Some(n) => Ok(Scan { lower: n, digits: Seq::empty(), second: true, ..s }),
            None => Err(ParseError::InvalidBrace),
        }
    } else if c == '}' {
        let n = number_of(s.digits);
        if !s.second && n is None {
            Err(ParseError::InvalidBrace)
        } else {
            let count = if s.second {
                (s.lower, n)
            } else {
                (n->0, n)
            };
            match quantified(s.seq, PSQ::Counter(count), pos) {
                Ok(seq) => Ok(
                    Scan {
                        seq,
                        digits: Seq::empty(),
                        lower: 0,
                        second: false,
                        mode: ParseState::Char,
                        ..s
                    },
                ),
                Err(e) => Err(e),
            }
        }
    } else {
        Err(ParseError::InvalidBrace)
    }
}

/// The state after the character `c` at `pos`.
pub open spec fn step(s: Scan, pos: usize, c: char) -> Result<Scan, ParseError> {
    match s.mode {
        ParseState::Char => step_char(s, pos, c),
        ParseState::Escape => match escaped(pos, c) {
            Ok(t) => Ok(Scan { seq: s.seq.push(t), mode: ParseState::Char, ..s }),
            Err(e) => Err(e),
        },
        ParseState::Brace => step_brace(s, pos, c),
    }
}

/// The state after the first `n` characters, or the first error among them.
pub open spec fn scan(chars: Seq<char>, n: nat) -> Result<Scan, ParseError>
    decreases n,
{
    if n == 0 || n > chars.len() {
        Ok(start())
    } else {
        match scan(chars, (n - 1) as nat) {
            Ok(s) => step(s, (n - 1) as usize, chars[n - 1]),
            Err(e) => Err(e),
        }
    }
}

/// The tree of a pattern whose last character left the scanner in state `s`:
/// the alternatives at the top as one tree. An escape or a count that the
/// pattern ends in is dropped.
pub open spec fn finish(s: Scan) -> Result<Tree, ParseError> {
    if s.stack.len() > 0 {
        Err(ParseError::NoRightParen)
    } else {
        let alts = if s.seq.len() > 0 {
            s.alts.push(Tree::Sequence(s.seq))
        } else {
            s.alts
        };
        match folded(alts) {
            Some(t) => Ok(t),
            None => Err(ParseError::Empty),
        }
    }
}

/// The tree of a pattern, or why the pattern is refused.
pub open spec fn parsed(chars: Seq<char>) -> Result<Tree, ParseError> {
    match scan(chars, chars.len()) {
        Ok(s) => finish(s),
        Err(e) => Err(e),
    }
}

/// A chain of alternatives starts with the first of them.
pub proof fn lemma_folded_step(ts: Seq<Tree>, k: int)
    requires
        0 <= k,
        k + 1 < ts.len(),
    ensures
        folded(ts.subrange(k + 1, ts.len() as int)) is Some,
        folded(ts.subrange(k, ts.len() as int)) == Some(
            Tree::Or(Box::new(ts[k]), Box::new(folded(ts.subrange(k + 1, ts.len() as int))->0)),
        ),
{
    let a = ts.subrange(k, ts.len() as int);
    assert(a.drop_first() =~= ts.subrange(k + 1, ts.len() as int));
}

/// A longer run of digits writes no smaller number.
pub proof fn lemma_digits_grow(ds: Seq<char>, k: int)
    requires
        0 <= k <= ds.len(),
    ensures
        digits_value(ds.subrange(0, k)) <= digits_value(ds),
    decreases ds.len(),
{
    if k < ds.len() {
        lemma_digits_grow(ds.drop_last(), k);
        assert(ds.drop_last().subrange(0, k) =~= ds.subrange(0, k));
    } else {
        assert(ds.subrange(0, k) =~= ds);
    }
}

/// Once the scanner has failed, it has failed for good.
pub proof fn lemma_scan_error(chars: Seq<char>, n: nat, m: nat)
    requires
        n <= m <= chars.len(),
        scan(chars, n) is Err,
    ensures
        scan(chars, m) == scan(chars, n),
    decreases m,
{
    if n < m {
        lemma_scan_error(chars, n, (m - 1) as nat);
    }
}

} // verus!
