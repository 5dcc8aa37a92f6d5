//! The instruction set of the backtracking machine and its mathematical model.

use crate::text::{
    chars_debug, decimal, padded, push_char, push_chars_debug, push_decimal, push_padded,
    push_signed, signed,
};
use vstd::prelude::*;
use vstd::string::StringExecFns;

verus! {

/// One instruction of a program. Addresses are indices into the program.
#[derive(Debug, PartialEq)]
pub enum Instruction {
    /// Consume one character equal to the given one; `.` accepts any.
    Char(char),
    /// Consume one character that is not in the list.
    UnmatchChars(Vec<char>),
    /// Succeed only at the true start of the text.
    Caret,
    /// Succeed only at the end of the text.
    Doller,
    /// Accept, if every repetition count has been met.
    Match,
    /// Continue at the address, unless that was done before at this position.
    Jump(usize),
    /// Try the first address, then the second. A register number that is not
    /// negative ties the branch to a repetition count `(min, max)`.
    Split(usize, usize, (i32, Option<i32>), i32),
    /// Count one repetition in the register.
    Descrement(usize),
    /// Consume one ASCII digit.
    AnyNumber,
    /// Consume one character that is no ASCII digit.
    NotNumber,
    /// Open the capture slot.
    CapcherBegin(i32),
    /// Close the capture slot.
    CapcherEnd(i32),
}

/// The mathematical model of an instruction.
pub enum Op {
    Char(char),
    UnmatchChars(Seq<char>),
    Caret,
    Doller,
    Match,
    Jump(usize),
    Split(usize, usize, (i32, Option<i32>), i32),
    Descrement(usize),
    AnyNumber,
    NotNumber,
    CapcherBegin(i32),
    CapcherEnd(i32),
}

impl View for Instruction {
    type V = Op;

    open spec fn view(&self) -> Op {
        match self {
            Instruction::Char(c) => Op::Char(*c),
            Instruction::UnmatchChars(v) => Op::UnmatchChars(v@),
            Instruction::Caret => Op::Caret,
            Instruction::Doller => Op::Doller,
            Instruction::Match => Op::Match,
            Instruction::Jump(a) => Op::Jump(*a),
            Instruction::Split(a, b, count, reg) => Op::Split(*a, *b, *count, *reg),
            Instruction::Descrement(r) => Op::Descrement(*r),
            Instruction::AnyNumber => Op::AnyNumber,
            Instruction::NotNumber => Op::NotNumber,
            Instruction::CapcherBegin(s) => Op::CapcherBegin(*s),
            Instruction::CapcherEnd(s) => Op::CapcherEnd(*s),
        }
    }
}

/// The model of a program: the models of its instructions, in order.
pub open spec fn ops(insts: Seq<Instruction>) -> Seq<Op> {
    Seq::new(insts.len(), |i: int| insts[i]@)
}

/// Appending an instruction appends its model.
pub proof fn lemma_ops_push(insts: Seq<Instruction>, inst: Instruction)
    ensures
        ops(insts.push(inst)) == ops(insts).push(inst@),
        ops(insts.push(inst)) == ops(insts) + seq![inst@],
{
    assert(ops(insts.push(inst)) =~= ops(insts).push(inst@));
    assert(ops(insts.push(inst)) =~= ops(insts) + seq![inst@]);
}

/// Replacing an instruction replaces its model.
pub proof fn lemma_ops_update(insts: Seq<Instruction>, at: int, inst: Instruction)
    requires
        0 <= at < insts.len(),
    ensures
        ops(insts.update(at, inst)) == ops(insts).update(at, inst@),
{
    assert(ops(insts.update(at, inst)) =~= ops(insts).update(at, inst@));
}

/// A repetition bound as it is listed: `(min, Some(max))` or `(min, None)`.
pub open spec fn bound_text(count: (i32, Option<i32>)) -> Seq<char> {
    "("@ + signed(count.0 as int) + ", "@ + match count.1 {
        Some(max) => "Some("@ + signed(max as int) + ")"@,
        None => "None"@,
    } + ")"@
}

/// An instruction as a line of a program listing. Addresses have at least
/// four digits.
pub open spec fn text_of(op: Op) -> Seq<char> {
    match op {
        Op::Char(c) => "char "@.push(c),
        Op::UnmatchChars(cs) => "unmatch char "@ + chars_debug(cs),
        Op::Caret => "caret"@,
        Op::Doller => "doller"@,
        Op::Match => "match"@,
        Op::Jump(addr) => "jump "@ + padded(addr as nat),
        Op::Split(first, second, count, reg) => "split "@ + padded(first as nat) + ", "@ + padded(
            second as nat,
        ) + ", "@ + bound_text(count) + ", "@ + signed(reg as int),
        Op::Descrement(idx) => "decrement "@ + decimal(idx as nat),
        Op::AnyNumber => "any number"@,
        Op::NotNumber => "not number"@,
        Op::CapcherBegin(slot) => "capcher begin "@ + signed(slot as int),
        Op::CapcherEnd(slot) => "capcher end "@ + signed(slot as int),
    }
}

/// Appends a repetition bound as it is listed.
fn push_bound(s: &mut String, count: (i32, Option<i32>))
    ensures
        final(s)@ == old(s)@ + bound_text(count),
{
    s.append("(");
    push_signed(s, count.0);
    s.append(", ");
    match count.1 {
        Some(max) => {
            s.append("Some(");
            push_signed(s, max);
            s.append(")");
        },
        None => {
            s.append("None");
        },
    }
    s.append(")");
    assert(s@ =~= old(s)@ + bound_text(count));
}

impl Instruction {
    /// The instruction as a line of a program listing.
    pub fn to_text(&self) -> (s: String)
        ensures
            s@ == text_of(self@),
    {
        let mut s = String::new();
        match self {
            Instruction::Char(c) => {
                s.append("char ");
                push_char(&mut s, *c);
            },
            Instruction::UnmatchChars(c) => {
                s.append("unmatch char ");
                push_chars_debug(&mut s, c);
            },
            Instruction::Caret => {
                s.append("caret");
            },
            Instruction::Doller => {
                s.append("doller");
            },
            Instruction::Match => {
                s.append("match");
            },
            Instruction::Jump(addr) => {
                s.append("jump ");
                push_padded(&mut s, *addr);
            },
            Instruction::Split(addr1, addr2, count, register) => {
                s.append("split ");
                push_padded(&mut s, *addr1);
                s.append(", ");
                push_padded(&mut s, *addr2);
                s.append(", ");
                push_bound(&mut s, *count);
                s.append(", ");
                push_signed(&mut s, *register);
            },
            Instruction::Descrement(idx) => {
                s.append("decrement ");
                push_decimal(&mut s, *idx);
            },
            Instruction::AnyNumber => {
                s.append("any number");
            },
            Instruction::NotNumber => {
                s.append("not number");
            },
            Instruction::CapcherBegin(idx) => {
                s.append("capcher begin ");
                push_signed(&mut s, *idx);
            },
            Instruction::CapcherEnd(idx) => {
                s.append("capcher end ");
                push_signed(&mut s, *idx);
            },
        }
        assert(s@ =~= text_of(self@));
        s
    }
}

} // verus!
