//! The syntax tree of a pattern and its mathematical model.

use vstd::prelude::*;

verus! {

/// A parsed pattern. Every node owns its children.
#[derive(Debug)]
pub enum AST {
    /// One literal character; `.` stands for any character.
    Char(char),
    /// Any one character that is not in the list.
    UnmatchChars(Vec<char>),
    /// One or more repetitions.
    Plus(Box<AST>),
    /// Zero or more repetitions.
    Star(Box<AST>),
    /// Zero or one occurrence.
    Question(Box<AST>),
    /// The start of the text.
    Caret,
    /// The end of the text.
    Doller,
    /// Either the first or the second pattern, the first preferred.
    Or(Box<AST>, Box<AST>),
    /// The patterns one after another.
    Sequence(Vec<AST>),
    /// Between a minimum and an optional maximum number of repetitions.
    Counter(Box<AST>, (usize, Option<usize>)),
    /// One ASCII digit.
    AnyNumber,
    /// One character that is no ASCII digit.
    NotNumber,
    /// A group whose matched text is recorded.
    Chapcher(Box<AST>),
}

/// The mathematical model of a syntax tree: the same shape over sequences.
pub enum Tree {
    Char(char),
    UnmatchChars(Seq<char>),
    Plus(Box<Tree>),
    Star(Box<Tree>),
    Question(Box<Tree>),
    Caret,
    Doller,
    Or(Box<Tree>, Box<Tree>),
    Sequence(Seq<Tree>),
    Counter(Box<Tree>, (usize, Option<usize>)),
    AnyNumber,
    NotNumber,
    Chapcher(Box<Tree>),
}

/// The model of a syntax tree.
pub open spec fn tree_of(ast: AST) -> Tree
    decreases ast,
{
    match ast {
        AST::Char(c) => Tree::Char(c),
        AST::UnmatchChars(v) => Tree::UnmatchChars(v@),
        AST::Plus(e) => Tree::Plus(Box::new(tree_of(*e))),
        AST::Star(e) => Tree::Star(Box::new(tree_of(*e))),
        AST::Question(e) => Tree::Question(Box::new(tree_of(*e))),
        AST::Caret => Tree::Caret,
        AST::Doller => Tree::Doller,
        AST::Or(a, b) => Tree::Or(Box::new(tree_of(*a)), Box::new(tree_of(*b))),
        AST::Sequence(v) => Tree::Sequence(
            Seq::new(
                v.len() as nat,
                |i: int|
                    if 0 <= i < v.len() {
                        tree_of(v[i])
                    } else {
                        Tree::Caret
                    },
            ),
        ),
        AST::Counter(e, count) => Tree::Counter(Box::new(tree_of(*e)), count),
        AST::AnyNumber => Tree::AnyNumber,
        AST::NotNumber => Tree::NotNumber,
        AST::Chapcher(e) => Tree::Chapcher(Box::new(tree_of(*e))),
    }
}

impl View for AST {
    type V = Tree;

    open spec fn view(&self) -> Tree {
        tree_of(*self)
    }
}

/// The models of a list of trees, in order.
pub open spec fn trees(v: Seq<AST>) -> Seq<Tree> {
    Seq::new(v.len(), |i: int| tree_of(v[i]))
}

/// The model of a sequence node is the sequence of the models of its children.
pub proof fn lemma_sequence_view(v: Vec<AST>)
    ensures
        AST::Sequence(v)@ == Tree::Sequence(trees(v@)),
{
    let a = AST::Sequence(v)@;
    assert(a->Sequence_0 =~= trees(v@));
}

/// The model of a character node is the character.
pub proof fn lemma_char_view(c: char)
    ensures
        AST::Char(c)@ == Tree::Char(c),
{
}

/// Appending a tree to a list appends its model.
pub proof fn lemma_trees_push(v: Seq<AST>, a: AST)
    ensures
        trees(v.push(a)) == trees(v).push(a@),
{
    assert(trees(v.push(a)) =~= trees(v).push(a@));
}

/// Taking the last tree off a list takes its model off.
pub proof fn lemma_trees_drop_last(v: Seq<AST>)
    requires
        v.len() > 0,
    ensures
        trees(v.drop_last()) == trees(v).drop_last(),
        trees(v).last() == v.last()@,
{
    assert(trees(v.drop_last()) =~= trees(v).drop_last());
}

} // verus!
