//! The engine: from a pattern and a text to a verdict, in three steps: parse,
//! lower, run.

use crate::ast::{Tree, AST};
use crate::codegen::{compiles, get_code, program, CodeGenError};
use crate::codegen_laws::lemma_program_guarded;
use crate::evaluator::{eval, EvalError};
use crate::instruction::{ops, text_of, Instruction, Op};
use crate::machine::{guarded, guarded_at, verdict, well_formed, Count, MAX_DEPTH};
use crate::machine_laws::{lemma_counts_found, lemma_no_overflow, lemma_stays_in_program};
use crate::parser::{parse, ParseError};
use crate::scanner::parsed;
use crate::text::{chars_of, padded, push_padded, string_views};
use vstd::prelude::*;
use vstd::slice::slice_subrange;
use vstd::string::StringExecFns;

verus! {

/// The step of the engine that failed, with its error.
#[derive(Debug)]
pub enum EngineError {
    /// The pattern is refused.
    Parse(ParseError),
    /// The pattern has no program.
    CodeGen(CodeGenError),
    /// The program could not be run to its end.
    Eval(EvalError),
}

/// The tree and the program of a pattern, or the error of the step that
/// failed.
pub open spec fn compiled(expr: Seq<char>) -> Result<(Tree, Seq<Op>), EngineError> {
    match parsed(expr) {
        Err(e) => Err(EngineError::Parse(e)),
        Ok(t) => if !compiles(t) {
            Err(EngineError::CodeGen(CodeGenError::PCOverFlow))
        } else {
            Ok((t, program(t)))
        },
    }
}

/// The verdict on a pattern and `line`, the part of a text from offset `index`
/// on: whether the pattern matches at the start of `line`, and the captured
/// texts in the order of their groups.
pub open spec fn matching(expr: Seq<char>, line: Seq<char>, index: usize) -> Result<
    (bool, Seq<Seq<char>>),
    EngineError,
> {
    match compiled(expr) {
        Err(e) => Err(e),
        Ok((_, prog)) => match verdict(prog, line, index) {
            Ok(v) => Ok(v),
            Err(e) => Err(EngineError::Eval(e)),
        },
    }
}

/// Parses a pattern and lowers it: the tree and the program.
pub fn compile(expr: &str) -> (r: Result<(AST, Vec<Instruction>), EngineError>)
    ensures
        match r {
            Ok((ast, code)) => compiled(expr@) == Ok::<
                (Tree, Seq<Op>),
                EngineError,
            >((ast@, ops(code@))),
            Err(e) => compiled(expr@) == Err::<(Tree, Seq<Op>), EngineError>(e),
        },
{
    let ast = match parse(expr) {
        Ok(ast) => ast,
        Err(e) => {
            return Err(EngineError::Parse(e));
        },
    };
    let code = match get_code(&ast) {
        Ok(code) => code,
        Err(e) => {
            return Err(EngineError::CodeGen(e));
        },
    };
    Ok((ast, code))
}

/// One line of a program listing: the address in at least four digits, a
/// colon, and the instruction.
pub open spec fn listing_line(addr: int, op: Op) -> Seq<char> {
    padded(addr as nat) + ": "@ + text_of(op)
}

/// The listing of a program, one line for each instruction.
pub fn listing(code: &[Instruction]) -> (lines: Vec<String>)
    ensures
        lines@.len() == code@.len(),
        forall|i: int|
            0 <= i < code@.len() ==> (#[trigger] lines@[i])@ == listing_line(i, code@[i]@),
{
    let mut lines: Vec<String> = Vec::new();
    let mut i: usize = 0;
    while i < code.len()
        invariant
            i <= code.len(),
            lines@.len() == i,
            forall|j: int| 0 <= j < i ==> (#[trigger] lines@[j])@ == listing_line(j, code@[j]@),
        decreases code.len() - i,
    {
        let mut line = String::new();
        push_padded(&mut line, i);
        line.append(": ");
        let text = code[i].to_text();
        line.append(text.as_str());
        assert(line@ =~= listing_line(i as int, code@[i as int]@));
        lines.push(line);
        i = i + 1;
    }
    lines
}

/// Whether a returned verdict is that of the model.
pub open spec fn is_outcome(
    r: Result<(bool, Vec<String>), EngineError>,
    v: Result<(bool, Seq<Seq<char>>), EngineError>,
) -> bool {
    match r {
        Ok((matched, caps)) => v == Ok::<(bool, Seq<Seq<char>>), EngineError>(
            (matched, string_views(caps@)),
        ),
        Err(e) => v == Err::<(bool, Seq<Seq<char>>), EngineError>(e),
    }
}

/// Matches a pattern at the start of `line`. `line` is the part of a text from
/// offset `index` on, so the start anchor holds only where `index` is 0. Each
/// call parses, lowers and runs anew. Only the depth-first strategy is
/// provided.
pub fn do_matching(expr: &str, line: &str, index: usize, is_depth: bool) -> (r: Result<
    (bool, Vec<String>),
    EngineError,
>)
    requires
        is_depth,
    ensures
        is_outcome(r, matching(expr@, line@, index)),
{
    let code = match compile(expr) {
        Ok((_, code)) => code,
        Err(e) => {
            return Err(e);
        },
    };
    let line = chars_of(line);
    match eval(code.as_slice(), line.as_slice(), index, is_depth) {
        Ok(v) => Ok(v),
        Err(e) => Err(EngineError::Eval(e)),
    }
}

/// The verdict of a search from offset `k` on: that of the first offset at
/// which the pattern matches or the engine fails; no match where there is no
/// such offset. Every offset sees the rest of the line from there.
pub open spec fn search_from(expr: Seq<char>, line: Seq<char>, k: nat) -> Result<
    (bool, Seq<Seq<char>>),
    EngineError,
>
    decreases line.len() - k,
{
    if k >= line.len() {
        Ok((false, Seq::empty()))
    } else {
        match matching(expr, line.subrange(k as int, line.len() as int), k as usize) {
            Ok((matched, caps)) => if matched {
                Ok((true, caps))
            } else {
                search_from(expr, line, k + 1)
            },
            Err(e) => Err(e),
        }
    }
}

/// Searches a line for a pattern: tries every offset from left to right and
/// stops at the first match. Offsets count characters. An empty line has no
/// offset to try, so nothing is said of the pattern then.
pub fn search(expr: &str, line: &str, is_depth: bool) -> (r: Result<
    (bool, Vec<String>),
    EngineError,
>)
    requires
        is_depth,
    ensures
        is_outcome(r, search_from(expr@, line@, 0)),
{
    let chars = chars_of(line);
    if chars.len() == 0 {
        let none: Vec<String> = Vec::new();
        assert(string_views(none@) =~= Seq::empty());
        return Ok((false, none));
    }
    let code = match compile(expr) {
        Ok((_, code)) => code,
        Err(e) => {
            return Err(e);
        },
    };
    let mut i: usize = 0;
    while i < chars.len()
        invariant
            i <= chars.len(),
            is_depth,
            chars@ == line@,
            compiled(expr@) matches Ok(c) && c.1 == ops(code@),
            search_from(expr@, line@, 0) == search_from(expr@, line@, i as nat),
        decreases chars.len() - i,
    {
        let rest = slice_subrange(chars.as_slice(), i, chars.len());
        match eval(code.as_slice(), rest, i, is_depth) {
            Ok((matched, caps)) => {
                if matched {
                    return Ok((true, caps));
                }
            },
            Err(e) => {
                return Err(EngineError::Eval(e));
            },
        }
        i = i + 1;
    }
    let none: Vec<String> = Vec::new();
    assert(string_views(none@) =~= Seq::empty());
    Ok((false, none))
}

/// Two results for the same pattern, text and offset are the same result:
/// both match or both do not, with the same captured texts, or both fail with
/// the same error.
pub proof fn lemma_matching_deterministic(
    a: Result<(bool, Vec<String>), EngineError>,
    b: Result<(bool, Vec<String>), EngineError>,
    expr: Seq<char>,
    line: Seq<char>,
    index: usize,
)
    requires
        is_outcome(a, matching(expr, line, index)),
        is_outcome(b, matching(expr, line, index)),
    ensures
        a is Ok <==> b is Ok,
        a is Ok ==> a->Ok_0.0 == b->Ok_0.0 && string_views(a->Ok_0.1@) == string_views(
            b->Ok_0.1@,
        ),
        a is Err ==> a->Err_0 == b->Err_0,
{
}

/// The engine runs only programs that it has generated, and on those the
/// machine neither leaves the program nor misses a count: where a run gives no
/// verdict, it is because a path nested more branches than allowed.
pub proof fn lemma_matching_fails_only_by_depth(expr: Seq<char>, line: Seq<char>, index: usize)
    ensures
        compiled(expr) matches Ok(c) ==> well_formed(c.1) && guarded(c.1, 0),
        matching(expr, line, index) matches Err(EngineError::Eval(e)) ==> e is DepthOverFlow,
{
    if let Ok(c) = compiled(expr) {
        let none = Seq::<Option<Count>>::empty();
        lemma_program_guarded(c.0);
        lemma_no_overflow(
            c.1,
            line,
            index,
            0,
            0,
            none,
            Seq::empty(),
            Set::empty(),
            MAX_DEPTH as nat,
        );
        lemma_stays_in_program(
            c.1,
            line,
            index,
            0,
            0,
            none,
            Seq::empty(),
            Set::empty(),
            MAX_DEPTH as nat,
        );
        assert(guarded_at(c.1, 0, 0));
        lemma_counts_found(
            c.1,
            line,
            index,
            0,
            0,
            none,
            Seq::empty(),
            Set::empty(),
            MAX_DEPTH as nat,
        );
    }
}

} // verus!
