//! The backtracking machine: it runs a program against a text, depth first,
//! the first alternative of every branch before the second.

use crate::instruction::{ops, Instruction};
use crate::machine::{
    closed, count_down, counts_met, lemma_jump_uses_up, opened, recorded, run, texts, unused,
    verdict, with_register, Count, Run, Slot, MAX_DEPTH,
};
use crate::text::{copy_chars, digit, string_of, string_views};
use vstd::prelude::*;
use vstd::string::StringExecFns;

verus! {

/// Why an evaluation gave no verdict.
#[derive(Debug)]
pub enum EvalError {
    /// The program counter does not fit its type.
    PCOverFlow,
    /// The position in the text does not fit its type.
    SPOverFlow,
    /// The program counter points outside the program.
    InvalidPC,
    /// No alternative is left to go back to.
    InvalidContext,
    /// A register is counted down that holds no count on this path.
    InvalidRegister,
    /// A path nested more branches than `MAX_DEPTH`.
    DepthOverFlow,
}

/// Why an evaluation gave no verdict, as a message. It starts as the messages
/// of the code generator do.
pub open spec fn eval_error_text(e: EvalError) -> Seq<char> {
    "CodeGenError: "@ + match e {
        EvalError::PCOverFlow => "PCOverFlow"@,
        EvalError::SPOverFlow => "SPOverFlow"@,
        EvalError::InvalidPC => "InvalidPC"@,
        EvalError::InvalidContext => "InvalidContext"@,
        EvalError::InvalidRegister => "InvalidRegister"@,
        EvalError::DepthOverFlow => "DepthOverFlow"@,
    }
}

impl EvalError {
    /// The error as a message.
    pub fn to_text(&self) -> (s: String)
        ensures
            s@ == eval_error_text(*self),
    {
        let mut s = String::new();
        s.append("CodeGenError: ");
        match self {
            EvalError::PCOverFlow => s.append("PCOverFlow"),
            EvalError::SPOverFlow => s.append("SPOverFlow"),
            EvalError::InvalidPC => s.append("InvalidPC"),
            EvalError::InvalidContext => s.append("InvalidContext"),
            EvalError::InvalidRegister => s.append("InvalidRegister"),
            EvalError::DepthOverFlow => s.append("DepthOverFlow"),
        }
        assert(s@ =~= eval_error_text(*self));
        s
    }
}

/// One capture slot while a path is explored.
struct Capture {
    /// Whether consumed characters are recorded in the slot.
    open: bool,
    /// The characters recorded so far.
    text: Vec<char>,
}

impl View for Capture {
    type V = Slot;

    closed spec fn view(&self) -> Slot {
        Slot { open: self.open, text: self.text@ }
    }
}

/// The models of a list of capture slots, in order.
spec fn slots(caps: Seq<Capture>) -> Seq<Slot> {
    Seq::new(caps.len(), |i: int| caps[i]@)
}

/// The set of (address, position) pairs in a list.
spec fn visited(cache: Seq<(usize, usize)>) -> Set<(usize, usize)> {
    Set::new(|p: (usize, usize)| cache.contains(p))
}

/// Records a consumed character in every open capture slot.
fn record(caps: &mut Vec<Capture>, c: char)
    ensures
        slots(final(caps)@) == recorded(slots(old(caps)@), c),
{
    let mut i: usize = 0;
    while i < caps.len()
        invariant
            i <= caps.len(),
            caps.len() == old(caps).len(),
            forall|j: int|
                0 <= j < i ==> (#[trigger] caps@[j])@ == recorded(slots(old(caps)@), c)[j],
            forall|j: int| i <= j < caps.len() ==> #[trigger] caps@[j] == old(caps)@[j],
        decreases caps.len() - i,
    {
        if caps[i].open {
            caps[i].text.push(c);
        }
        i = i + 1;
    }
    assert(slots(caps@) =~= recorded(slots(old(caps)@), c));
}

/// Opens a capture slot.
fn open_slot(caps: &mut Vec<Capture>, slot: i32)
    ensures
        slots(final(caps)@) == opened(slots(old(caps)@), slot),
{
    if slot < 0 {
        assert(slots(caps@) =~= opened(slots(old(caps)@), slot));
        return ;
    }
    let at = slot as usize;
    while caps.len() <= at
        invariant
            at == slot,
            old(caps).len() <= caps.len(),
            caps.len() <= at + 1 || caps.len() == old(caps).len(),
            forall|j: int| 0 <= j < old(caps).len() ==> #[trigger] caps@[j] == old(caps)@[j],
            forall|j: int|
                old(caps).len() <= j < caps.len() ==> (#[trigger] caps@[j])@ == (Slot {
                    open: false,
                    text: Seq::empty(),
                }),
        decreases at + 1 - caps.len(),
    {
        caps.push(Capture { open: false, text: Vec::new() });
    }
    caps[at].open = true;
    assert(slots(caps@) =~= opened(slots(old(caps)@), slot));
}

/// Closes a capture slot.
fn close_slot(caps: &mut Vec<Capture>, slot: i32)
    ensures
        slots(final(caps)@) == closed(slots(old(caps)@), slot),
{
    if slot >= 0 && (slot as usize) < caps.len() {
        caps[slot as usize].open = false;
    }
    assert(slots(caps@) =~= closed(slots(old(caps)@), slot));
}

/// Gives a register its bound where it holds no count yet.
fn init_register(regs: &mut Vec<Option<Count>>, reg: i32, bound: Count)
    ensures
        final(regs)@ == with_register(old(regs)@, reg, bound),
{
    if reg < 0 {
        return ;
    }
    let at = reg as usize;
    if at < regs.len() {
        if regs[at].is_none() {
            regs.set(at, Some(bound));
        }
    } else {
        while regs.len() < at
            invariant
                at == reg,
                old(regs).len() <= regs.len() <= at,
                regs@ =~= old(regs)@ + Seq::new(
                    (regs.len() - old(regs).len()) as nat,
                    |i: int| None::<Count>,
                ),
            decreases at - regs.len(),
        {
            regs.push(None);
        }
        regs.push(Some(bound));
        assert(regs@ =~= with_register(old(regs)@, reg, bound));
    }
}

/// Whether every register allows a match.
fn counts_ok(regs: &Vec<Option<Count>>) -> (r: bool)
    ensures
        r == counts_met(regs@),
{
    let mut i: usize = 0;
    while i < regs.len()
        invariant
            i <= regs.len(),
            counts_met(regs@.subrange(0, i as int)),
        decreases regs.len() - i,
    {
        match regs[i] {
            Some(count) => {
                let bounded = match count.1 {
                    Some(max) => max >= 0,
                    None => true,
                };
                if !(count.0 <= 0 && bounded) {
                    return false;
                }
            },
            None => {},
        }
        i = i + 1;
        assert forall|j: int| 0 <= j < i implies (#[trigger] regs@.subrange(0, i as int)[j]
            matches Some(count) ==> count.0 <= 0 && (count.1 matches Some(max) ==> max >= 0)) by {
            if j < i - 1 {
                assert(regs@.subrange(0, i as int)[j] == regs@.subrange(0, i - 1)[j]);
            }
        }
    }
    assert(regs@.subrange(0, regs.len() as int) =~= regs@);
    true
}

/// One less, staying at the least value.
fn less_one(x: i32) -> (r: i32)
    ensures
        r == count_down(x),
{
    if x > i32::MIN {
        x - 1
    } else {
        x
    }
}

/// Copies the registers of a path.
fn copy_registers(regs: &Vec<Option<Count>>) -> (r: Vec<Option<Count>>)
    ensures
        r@ == regs@,
{
    let mut r: Vec<Option<Count>> = Vec::new();
    let mut i: usize = 0;
    while i < regs.len()
        invariant
            i <= regs.len(),
            r@ == regs@.subrange(0, i as int),
        decreases regs.len() - i,
    {
        r.push(regs[i]);
        i = i + 1;
        assert(r@ =~= regs@.subrange(0, i as int));
    }
    assert(regs@.subrange(0, regs.len() as int) =~= regs@);
    r
}

/// Copies the capture slots of a path.
fn copy_captures(caps: &Vec<Capture>) -> (r: Vec<Capture>)
    ensures
        slots(r@) == slots(caps@),
{
    let mut r: Vec<Capture> = Vec::new();
    let mut i: usize = 0;
    while i < caps.len()
        invariant
            i <= caps.len(),
            r.len() == i,
            forall|j: int| 0 <= j < i ==> (#[trigger] r@[j])@ == caps@[j]@,
        decreases caps.len() - i,
    {
        r.push(Capture { open: caps[i].open, text: copy_chars(&caps[i].text) });
        i = i + 1;
    }
    assert(slots(r@) =~= slots(caps@));
    r
}

/// Whether a list of characters holds a character.
fn holds(cs: &Vec<char>, c: char) -> (r: bool)
    ensures
        r == cs@.contains(c),
{
    let mut i: usize = 0;
    while i < cs.len()
        invariant
            i <= cs.len(),
            forall|j: int| 0 <= j < i ==> cs@[j] != c,
        decreases cs.len() - i,
    {
        if cs[i] == c {
            return true;
        }
        i = i + 1;
    }
    false
}

/// Whether a jump has gone to the address at the position before.
fn seen_before(cache: &Vec<(usize, usize)>, addr: usize, sp: usize) -> (r: bool)
    ensures
        r == visited(cache@).contains((addr, sp)),
{
    let mut i: usize = 0;
    while i < cache.len()
        invariant
            i <= cache.len(),
            forall|j: int| 0 <= j < i ==> cache@[j] != (addr, sp),
        decreases cache.len() - i,
    {
        if cache[i].0 == addr && cache[i].1 == sp {
            assert(cache@[i as int] == (addr, sp));
            return true;
        }
        i = i + 1;
    }
    false
}

/// A recorded pair is seen, and nothing else changes.
proof fn lemma_visited_push(cache: Seq<(usize, usize)>, p: (usize, usize))
    ensures
        visited(cache.push(p)) == visited(cache).insert(p),
{
    assert forall|q: (usize, usize)| visited(cache.push(p)).contains(q) == visited(cache).insert(
        p,
    ).contains(q) by {
        if cache.push(p).contains(q) {
            let i = choose|i: int| 0 <= i < cache.push(p).len() && cache.push(p)[i] == q;
            if i < cache.len() {
                assert(cache[i] == q);
            }
        }
        if cache.contains(q) {
            let i = choose|i: int| 0 <= i < cache.len() && cache[i] == q;
            assert(cache.push(p)[i] == q);
        }
        if q == p {
            assert(cache.push(p)[cache.len() as int] == p);
        }
    }
    assert(visited(cache.push(p)) =~= visited(cache).insert(p));
}

/// Whether what an exploration returned, and the pairs it left recorded, are
/// those of the model.
spec fn agrees(
    r: Result<Option<Vec<Capture>>, EvalError>,
    cache: Seq<(usize, usize)>,
    run: Run,
) -> bool {
    &&& visited(cache) == run.seen
    &&& match r {
        Ok(Some(caps)) => run.result == Ok::<Option<Seq<Slot>>, EvalError>(Some(slots(caps@))),
        Ok(None) => run.result == Ok::<Option<Seq<Slot>>, EvalError>(None),
        Err(e) => run.result == Err::<Option<Seq<Slot>>, EvalError>(e),
    }
}

/// Explores the program from one state, depth first.
#[verifier::loop_isolation(false)]
#[verifier::rlimit(60)]
fn eval_depth(
    inst: &[Instruction],
    line: &[char],
    index: usize,
    pc: usize,
    sp: usize,
    register: Vec<Option<Count>>,
    cache: &mut Vec<(usize, usize)>,
    matched_str: Vec<Capture>,
    depth: usize,
) -> (r: Result<Option<Vec<Capture>>, EvalError>)
    requires
        sp <= line.len(),
    ensures
        agrees(
            r,
            final(cache)@,
            run(
                ops(inst@),
                line@,
                index,
                pc as int,
                sp as int,
                register@,
                slots(matched_str@),
                visited(old(cache)@),
                depth as nat,
            ),
        ),
    decreases depth,
{
    let ghost goal = run(
        ops(inst@),
        line@,
        index,
        pc as int,
        sp as int,
        register@,
        slots(matched_str@),
        visited(cache@),
        depth as nat,
    );
    let mut pc = pc;
    let mut sp = sp;
    let mut register = register;
    let mut matched_str = matched_str;
    loop
        invariant
            sp <= line.len(),
            run(
                ops(inst@),
                line@,
                index,
                pc as int,
                sp as int,
                register@,
                slots(matched_str@),
                visited(cache@),
                depth as nat,
            ) == goal,
        decreases depth, unused(ops(inst@), visited(cache@), line@.len() + 1), inst.len() - pc,
    {
        if pc >= inst.len() {
            return Err(EvalError::InvalidPC);
        }
        assert(ops(inst@)[pc as int] == inst@[pc as int]@);
        match &inst[pc] {
            Instruction::Char(c) => {
                if sp < line.len() && (*c == line[sp] || *c == '.') {
                    record(&mut matched_str, line[sp]);
                    pc = pc + 1;
                    sp = sp + 1;
                } else {
                    return Ok(None);
                }
            },
            Instruction::UnmatchChars(cs) => {
                if sp < line.len() && !holds(cs, line[sp]) {
                    record(&mut matched_str, line[sp]);
                    pc = pc + 1;
                    sp = sp + 1;
                } else {
                    return Ok(None);
                }
            },
            Instruction::AnyNumber => {
                if sp < line.len() && digit(line[sp]) {
                    record(&mut matched_str, line[sp]);
                    pc = pc + 1;
                    sp = sp + 1;
                } else {
                    return Ok(None);
                }
            },
            Instruction::NotNumber => {
                if sp < line.len() && !digit(line[sp]) {
                    record(&mut matched_str, line[sp]);
                    pc = pc + 1;
                    sp = sp + 1;
                } else {
                    return Ok(None);
                }
            },
            Instruction::Caret => {
                if sp != 0 || index != 0 {
                    return Ok(None);
                }
                pc = pc + 1;
            },
            Instruction::Doller => {
                if sp != line.len() {
                    return Ok(None);
                }
                pc = pc + 1;
            },
            Instruction::Match => {
                if counts_ok(&register) {
                    return Ok(Some(matched_str));
                } else {
                    return Ok(None);
                }
            },
            Instruction::Jump(addr) => {
                if seen_before(cache, *addr, sp) {
                    return Ok(None);
                }
                proof {
                    lemma_visited_push(cache@, (*addr, sp));
                    lemma_jump_uses_up(
                        ops(inst@),
                        visited(cache@),
                        pc as int,
                        sp as int,
                        line@.len() + 1,
                    );
                }
                cache.push((*addr, sp));
                pc = *addr;
            },
            Instruction::Split(addr1, addr2, count, register_idx) => {
                init_register(&mut register, *register_idx, *count);
                if depth == 0 {
                    return Err(EvalError::DepthOverFlow);
                }
                let left = eval_depth(
                    inst,
                    line,
                    index,
                    *addr1,
                    sp,
                    copy_registers(&register),
                    cache,
                    copy_captures(&matched_str),
                    depth - 1,
                );
                match left {
                    Ok(None) => {
                        return eval_depth(
                            inst,
                            line,
                            index,
                            *addr2,
                            sp,
                            register,
                            cache,
                            matched_str,
                            depth - 1,
                        );
                    },
                    _ => {
                        return left;
                    },
                }
            },
            Instruction::Descrement(idx) => {
                if *idx >= register.len() {
                    return Err(EvalError::InvalidRegister);
                }
                match register[*idx] {
                    Some(count) => {
                        let max = match count.1 {
                            Some(c) => {
                                if c == 0 {
                                    return Ok(None);
                                }
                                Some(less_one(c))
                            },
                            None => None,
                        };
                        register.set(*idx, Some((less_one(count.0), max)));
                        pc = pc + 1;
                    },
                    None => {
                        return Err(EvalError::InvalidRegister);
                    },
                }
            },
            Instruction::CapcherBegin(slot) => {
                open_slot(&mut matched_str, *slot);
                pc = pc + 1;
            },
            Instruction::CapcherEnd(slot) => {
                close_slot(&mut matched_str, *slot);
                pc = pc + 1;
            },
        }
    }
}

/// Whether a returned verdict is that of the model.
pub open spec fn is_verdict(
    r: Result<(bool, Vec<String>), EvalError>,
    v: Result<(bool, Seq<Seq<char>>), EvalError>,
) -> bool {
    match r {
        Ok((matched, caps)) => v == Ok::<(bool, Seq<Seq<char>>), EvalError>(
            (matched, string_views(caps@)),
        ),
        Err(e) => v == Err::<(bool, Seq<Seq<char>>), EvalError>(e),
    }
}

/// Runs a program against `line`, the part of a text from offset `index` on,
/// and gives the verdict with the captured texts. The run starts at the first
/// instruction and the first character of `line`; `index` only tells the start
/// anchor whether `line` starts where the text does. Only the depth-first
/// strategy is provided.
pub fn eval(inst: &[Instruction], line: &[char], index: usize, is_depth: bool) -> (r: Result<
    (bool, Vec<String>),
    EvalError,
>)
    requires
        is_depth,
    ensures
        is_verdict(r, verdict(ops(inst@), line@, index)),
{
    let register: Vec<Option<Count>> = Vec::new();
    let mut cache: Vec<(usize, usize)> = Vec::new();
    let matched_str: Vec<Capture> = Vec::new();
    assert(visited(cache@) =~= Set::empty());
    assert(slots(matched_str@) =~= Seq::empty());
    match eval_depth(inst, line, index, 0, 0, register, &mut cache, matched_str, MAX_DEPTH) {
        Ok(Some(caps)) => {
            let mut out: Vec<String> = Vec::new();
            let mut i: usize = 0;
            while i < caps.len()
                invariant
                    i <= caps.len(),
                    out.len() == i,
                    forall|j: int| 0 <= j < i ==> (#[trigger] out@[j])@ == caps@[j]@.text,
                decreases caps.len() - i,
            {
                out.push(string_of(&caps[i].text));
                i = i + 1;
            }
            assert(string_views(out@) =~= texts(slots(caps@)));
            Ok((true, out))
        },
        Ok(None) => {
            let out: Vec<String> = Vec::new();
            assert(string_views(out@) =~= Seq::empty());
            Ok((false, out))
        },
        Err(e) => Err(e),
    }
}

} // verus!
