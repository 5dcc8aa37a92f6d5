//! What holds of every pattern that the parser reads.

use crate::ast::Tree;
use crate::parser::ParseError;
use crate::scanner::{lemma_scan_error, parsed, scan, start, step, Scan};
use vstd::prelude::*;

verus! {

/// A pattern that starts with a quantifier is refused: there is nothing
/// before the quantifier.
pub proof fn lemma_leading_quantifier_refused(chars: Seq<char>)
    requires
        chars.len() > 0,
        chars[0] == '+' || chars[0] == '*' || chars[0] == '?',
    ensures
        parsed(chars) == Err::<Tree, ParseError>(ParseError::NoPrev(0)),
{
    assert(scan(chars, 0) == Ok::<Scan, ParseError>(start()));
    assert(scan(chars, 1) == step(start(), 0, chars[0]));
    lemma_scan_error(chars, 1, chars.len());
}

/// Whether a character stands for itself in a pattern.
pub open spec fn is_plain(c: char) -> bool {
    c != '^' && c != '$' && c != '+' && c != '*' && c != '?' && c != '[' && c != ']' && c != '('
        && c != ')' && c != '|' && c != '\\' && c != '{'
}

/// After an opening bracket and plain characters, the bracket is still open.
proof fn lemma_open_group_stays_open(chars: Seq<char>, n: nat)
    requires
        1 <= n <= chars.len(),
        chars[0] == '(',
        forall|i: int| 1 <= i < chars.len() ==> is_plain(#[trigger] chars[i]),
    ensures
        scan(chars, n) matches Ok(s) && s.stack.len() == 1 && s.mode is Char,
    decreases n,
{
    if n == 1 {
        assert(scan(chars, 0) == Ok::<Scan, ParseError>(start()));
    } else {
        lemma_open_group_stays_open(chars, (n - 1) as nat);
        assert(is_plain(chars[n - 1]));
    }
}

/// A group that is opened and never closed is refused: a pattern made of `(`
/// and plain characters after it has no tree.
pub proof fn lemma_unclosed_group_refused(chars: Seq<char>)
    requires
        chars.len() > 0,
        chars[0] == '(',
        forall|i: int| 1 <= i < chars.len() ==> is_plain(#[trigger] chars[i]),
    ensures
        parsed(chars) == Err::<Tree, ParseError>(ParseError::NoRightParen),
{
    lemma_open_group_stays_open(chars, chars.len());
}

} // verus!
