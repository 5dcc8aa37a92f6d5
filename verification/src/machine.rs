//! The model of the backtracking machine: what running a program against a
//! text means, one instruction at a time.

use crate::evaluator::EvalError;
use crate::instruction::Op;
use crate::text::is_digit;
use vstd::prelude::*;

verus! {

/// The number of branches that may be nested on one path.
pub const MAX_DEPTH: usize = 4096;

/// What a register holds: the repetitions still owed, and those still allowed
/// where the repetition is bounded.
pub type Count = (i32, Option<i32>);

/// The mathematical model of a capture slot.
pub struct Slot {
    pub open: bool,
    pub text: Seq<char>,
}

/// The texts of a list of capture slots, in order.
pub open spec fn texts(caps: Seq<Slot>) -> Seq<Seq<char>> {
    Seq::new(caps.len(), |i: int| caps[i].text)
}

/// One less, staying at the least value.
pub open spec fn count_down(x: i32) -> i32 {
    if x > i32::MIN {
        (x - 1) as i32
    } else {
        x
    }
}

/// The count of a register after one more repetition.
pub open spec fn counted(count: Count) -> Count {
    (
        count_down(count.0),
        match count.1 {
            Some(max) => Some(count_down(max)),
            None => None,
        },
    )
}

/// The registers after a branch tied to register `reg` with the given bound:
/// a register without a count on this path gets the bound, the list growing
/// as far as needed; a register that holds a count keeps it.
pub open spec fn with_register(regs: Seq<Option<Count>>, reg: i32, bound: Count) -> Seq<
    Option<Count>,
> {
    if reg < 0 {
        regs
    } else if reg < regs.len() {
        if regs[reg as int] is None {
            regs.update(reg as int, Some(bound))
        } else {
            regs
        }
    } else {
        regs + Seq::new((reg - regs.len()) as nat, |i: int| None::<Count>) + seq![Some(bound)]
    }
}

/// Whether a count allows a match: nothing is owed any more, and a bounded
/// repetition did not go beyond its bound.
pub open spec fn settled(count: Count) -> bool {
    count.0 <= 0 && (count.1 matches Some(max) ==> max >= 0)
}

/// Whether a count allows no further repetition: the repetition is bounded
/// and the bound is used up.
pub open spec fn spent(count: Count) -> bool {
    count.1 == Some(0i32)
}

/// The count of a register after `k` more repetitions.
pub open spec fn counted_times(count: Count, k: nat) -> Count
    decreases k,
{
    if k == 0 {
        count
    } else {
        counted(counted_times(count, (k - 1) as nat))
    }
}

/// Whether every register allows a match.
pub open spec fn counts_met(regs: Seq<Option<Count>>) -> bool {
    forall|i: int|
        0 <= i < regs.len() ==> (#[trigger] regs[i] matches Some(count) ==> settled(count))
}

/// The capture slots after a character was consumed: every open slot records
/// it.
pub open spec fn recorded(caps: Seq<Slot>, c: char) -> Seq<Slot> {
    Seq::new(
        caps.len(),
        |i: int|
            if caps[i].open {
                Slot { open: true, text: caps[i].text.push(c) }
            } else {
                caps[i]
            },
    )
}

/// The capture slots after slot `slot` was opened: the list grows by closed,
/// empty slots as far as needed, and the slot keeps what it recorded before.
pub open spec fn opened(caps: Seq<Slot>, slot: i32) -> Seq<Slot> {
    if slot < 0 {
        caps
    } else {
        Seq::new(
            if slot < caps.len() {
                caps.len()
            } else {
                (slot + 1) as nat
            },
            |i: int|
                Slot {
                    open: i == slot || (i < caps.len() && caps[i].open),
                    text: if i < caps.len() {
                        caps[i].text
                    } else {
                        Seq::empty()
                    },
                },
        )
    }
}

/// The capture slots after slot `slot` was closed.
pub open spec fn closed(caps: Seq<Slot>, slot: i32) -> Seq<Slot> {
    if 0 <= slot < caps.len() {
        caps.update(slot as int, Slot { open: false, text: caps[slot as int].text })
    } else {
        caps
    }
}

/// Whether instruction `i` is a jump that was not yet taken at position `s`:
/// its address and `s` are not among the pairs seen.
pub open spec fn fresh(prog: Seq<Op>, seen: Set<(usize, usize)>, i: int, s: int) -> bool {
    prog[i] matches Op::Jump(addr) && !seen.contains((addr, s as usize))
}

/// The number of jumps among the first `n` instructions that were not yet
/// taken at position `s`.
pub open spec fn fresh_at(prog: Seq<Op>, seen: Set<(usize, usize)>, s: int, n: nat) -> nat
    decreases n,
{
    if n == 0 || n > prog.len() {
        0
    } else {
        fresh_at(prog, seen, s, (n - 1) as nat) + if fresh(prog, seen, n - 1, s) {
            1nat
        } else {
            0nat
        }
    }
}

/// The number of jumps that can still be taken at the positions below `m`:
/// the pairs of a jump and a position that were not yet seen. Every jump
/// taken uses one up, which is why no run goes round a loop for ever.
pub open spec fn unused(prog: Seq<Op>, seen: Set<(usize, usize)>, m: nat) -> nat
    decreases m,
{
    if m == 0 {
        0
    } else {
        unused(prog, seen, (m - 1) as nat) + fresh_at(prog, seen, m - 1, prog.len())
    }
}

/// Seeing one more pair leaves no more jumps to take at a position.
pub proof fn lemma_fresh_at_shrinks(
    prog: Seq<Op>,
    seen: Set<(usize, usize)>,
    p: (usize, usize),
    s: int,
    n: nat,
)
    ensures
        fresh_at(prog, seen.insert(p), s, n) <= fresh_at(prog, seen, s, n),
    decreases n,
{
    if 0 < n <= prog.len() {
        lemma_fresh_at_shrinks(prog, seen, p, s, (n - 1) as nat);
    }
}

/// Taking a jump leaves fewer jumps to take at its position.
pub proof fn lemma_fresh_at_drops(
    prog: Seq<Op>,
    seen: Set<(usize, usize)>,
    pc: int,
    sp: int,
    n: nat,
)
    requires
        0 <= pc < n <= prog.len(),
        fresh(prog, seen, pc, sp),
    ensures
        fresh_at(prog, seen.insert((prog[pc]->Jump_0, sp as usize)), sp, n) < fresh_at(
            prog,
            seen,
            sp,
            n,
        ),
    decreases n,
{
    let p = (prog[pc]->Jump_0, sp as usize);
    if pc == n - 1 {
        lemma_fresh_at_shrinks(prog, seen, p, sp, (n - 1) as nat);
    } else {
        lemma_fresh_at_drops(prog, seen, pc, sp, (n - 1) as nat);
    }
}

/// Seeing one more pair leaves no more jumps to take.
pub proof fn lemma_unused_shrinks(
    prog: Seq<Op>,
    seen: Set<(usize, usize)>,
    p: (usize, usize),
    m: nat,
)
    ensures
        unused(prog, seen.insert(p), m) <= unused(prog, seen, m),
    decreases m,
{
    if m > 0 {
        lemma_unused_shrinks(prog, seen, p, (m - 1) as nat);
        lemma_fresh_at_shrinks(prog, seen, p, m - 1, prog.len());
    }
}

/// Taking a jump uses it up: fewer jumps are left to take.
pub proof fn lemma_jump_uses_up(
    prog: Seq<Op>,
    seen: Set<(usize, usize)>,
    pc: int,
    sp: int,
    m: nat,
)
    requires
        0 <= pc < prog.len(),
        0 <= sp < m,
        fresh(prog, seen, pc, sp),
    ensures
        unused(prog, seen.insert((prog[pc]->Jump_0, sp as usize)), m) < unused(prog, seen, m),
    decreases m,
{
    let p = (prog[pc]->Jump_0, sp as usize);
    if sp == m - 1 {
        lemma_unused_shrinks(prog, seen, p, (m - 1) as nat);
        lemma_fresh_at_drops(prog, seen, pc, sp, prog.len());
    } else {
        lemma_jump_uses_up(prog, seen, pc, sp, (m - 1) as nat);
        lemma_fresh_at_shrinks(prog, seen, p, m - 1, prog.len());
    }
}

/// How the exploration from one state ended.
pub struct Run {
    /// The capture slots of the first path that reached `Match` with every
    /// count met, `None` where every path failed, or the error that stopped
    /// the exploration.
    pub result: Result<Option<Seq<Slot>>, EvalError>,
    /// The (address, position) pairs that jumps have gone to.
    pub seen: Set<(usize, usize)>,
}

/// The exploration of `prog` on `text` from the instruction at `pc` and the
/// position `sp`, a position of `text` or its end, depth first. `index` is
/// where `text` starts in the whole text. `regs` and `caps` belong to the
/// path, `seen` to the whole search; `depth` is the number of branches that
/// may still be nested.
///
/// The exploration ends: a branch leaves one branch less to nest, a jump one
/// jump less to take, and every other instruction leads to the next one.
pub open spec fn run(
    prog: Seq<Op>,
    text: Seq<char>,
    index: usize,
    pc: int,
    sp: int,
    regs: Seq<Option<Count>>,
    caps: Seq<Slot>,
    seen: Set<(usize, usize)>,
    depth: nat,
) -> Run
    decreases depth, unused(prog, seen, text.len() + 1), prog.len() - pc,
    when 0 <= sp <= text.len()
{
    let failed = Run { result: Ok(None), seen };
    if pc < 0 || pc >= prog.len() {
        Run { result: Err(EvalError::InvalidPC), seen }
    } else {
        match prog[pc] {
            Op::Char(c) => {
                if 0 <= sp < text.len() && (c == text[sp] || c == '.') {
                    run(
                        prog,
                        text,
                        index,
                        pc + 1,
                        sp + 1,
                        regs,
                        recorded(caps, text[sp]),
                        seen,
                        depth,
                    )
                } else {
                    failed
                }
            },
            Op::UnmatchChars(cs) => {
                if 0 <= sp < text.len() && !cs.contains(text[sp]) {
                    run(
                        prog,
                        text,
                        index,
                        pc + 1,
                        sp + 1,
                        regs,
                        recorded(caps, text[sp]),
                        seen,
                        depth,
                    )
                } else {
                    failed
                }
            },
            Op::AnyNumber => {
                if 0 <= sp < text.len() && is_digit(text[sp]) {
                    run(
                        prog,
                        text,
                        index,
                        pc + 1,
                        sp + 1,
                        regs,
                        recorded(caps, text[sp]),
                        seen,
                        depth,
                    )
                } else {
                    failed
                }
            },
            Op::NotNumber => {
                if 0 <= sp < text.len() && !is_digit(text[sp]) {
                    run(
                        prog,
                        text,
                        index,
                        pc + 1,
                        sp + 1,
                        regs,
                        recorded(caps, text[sp]),
                        seen,
                        depth,
                    )
                } else {
                    failed
                }
            },
            Op::Caret => {
                if sp == 0 && index == 0 {
                    run(prog, text, index, pc + 1, sp, regs, caps, seen, depth)
                } else {
                    failed
                }
            },
            Op::Doller => {
                if sp == text.len() {
                    run(prog, text, index, pc + 1, sp, regs, caps, seen, depth)
                } else {
                    failed
                }
            },
            Op::Match => Run {
                result: Ok(
                    if counts_met(regs) {
                        Some(caps)
                    } else {
                        None
                    },
                ),
                seen,
            },
            Op::Jump(addr) => {
                if seen.contains((addr, sp as usize)) {
                    failed
                } else {
                    proof {
                        lemma_jump_uses_up(prog, seen, pc, sp, text.len() + 1);
                    }
                    run(
                        prog,
                        text,
                        index,
                        addr as int,
                        sp,
                        regs,
                        caps,
                        seen.insert((addr, sp as usize)),
                        depth,
                    )
                }
            },
            Op::Split(first, second, bound, reg) => {
                let regs = with_register(regs, reg, bound);
                if depth == 0 {
                    Run { result: Err(EvalError::DepthOverFlow), seen }
                } else {
                    let left = run(
                        prog,
                        text,
                        index,
                        first as int,
                        sp,
                        regs,
                        caps,
                        seen,
                        (depth - 1) as nat,
                    );
                    if left.result == Ok::<Option<Seq<Slot>>, EvalError>(None) {
                        run(
                            prog,
                            text,
                            index,
                            second as int,
                            sp,
                            regs,
                            caps,
                            left.seen,
                            (depth - 1) as nat,
                        )
                    } else {
                        left
                    }
                }
            },
            Op::Descrement(idx) => {
                if idx < regs.len() && regs[idx as int] is Some {
                    let count = regs[idx as int]->Some_0;
                    if spent(count) {
                        failed
                    } else {
                        run(
                            prog,
                            text,
                            index,
                            pc + 1,
                            sp,
                            regs.update(idx as int, Some(counted(count))),
                            caps,
                            seen,
                            depth,
                        )
                    }
                } else {
                    Run { result: Err(EvalError::InvalidRegister), seen }
                }
            },
            Op::CapcherBegin(slot) => run(
                prog,
                text,
                index,
                pc + 1,
                sp,
                regs,
                opened(caps, slot),
                seen,
                depth,
            ),
            Op::CapcherEnd(slot) => run(
                prog,
                text,
                index,
                pc + 1,
                sp,
                regs,
                closed(caps, slot),
                seen,
                depth,
            ),
        }
    }
}

/// The verdict on `prog` and `text`: the exploration from the first
/// instruction and the start of `text`, with no register, no capture slot and
/// nothing seen. A match comes with the texts of the capture slots, in the
/// order of their numbers; no match comes with none.
pub open spec fn verdict(prog: Seq<Op>, text: Seq<char>, index: usize) -> Result<
    (bool, Seq<Seq<char>>),
    EvalError,
> {
    match run(
        prog,
        text,
        index,
        0,
        0,
        Seq::empty(),
        Seq::empty(),
        Set::empty(),
        MAX_DEPTH as nat,
    ).result {
        Ok(Some(caps)) => Ok((true, texts(caps))),
        Ok(None) => Ok((false, Seq::empty())),
        Err(e) => Err(e),
    }
}

/// Whether a program keeps the machine inside it: its last instruction is
/// `Match`, and every branch and jump goes to one of its instructions.
pub open spec fn well_formed(prog: Seq<Op>) -> bool {
    &&& prog.len() > 0
    &&& prog.last() is Match
    &&& forall|i: int|
        0 <= i < prog.len() ==> match #[trigger] prog[i] {
            Op::Jump(a) => a < prog.len(),
            Op::Split(a, b, _, _) => a < prog.len() && b < prog.len(),
            _ => true,
        }
}

/// Whether a branch or jump to `x` in the instructions `prog`, which start at
/// address `lo`, lands on something other than a count-down.
pub open spec fn lands_well(prog: Seq<Op>, lo: int, x: int) -> bool {
    lo <= x <= lo + prog.len() && (x - lo < prog.len() ==> !(prog[x - lo] is Descrement))
}

/// Whether instruction `i` of `prog`, which starts at address `lo`, keeps
/// count-downs guarded: a count-down stands right behind the branch that is
/// tied to its register and goes to it first; a jump, and the second address
/// of a branch, go to no count-down; the first address of a branch goes to no
/// count-down but its own.
pub open spec fn guarded_at(prog: Seq<Op>, lo: int, i: int) -> bool {
    match prog[i] {
        Op::Descrement(r) => i >= 1 && (prog[i - 1] matches Op::Split(first, _, _, reg) && first
            == lo + i && reg >= 0 && reg == r),
        Op::Jump(x) => lands_well(prog, lo, x as int),
        Op::Split(first, second, _, _) => lands_well(prog, lo, second as int) && lo <= first <= lo
            + prog.len() && (first - lo < prog.len() && prog[first - lo] is Descrement ==> first
            == lo + i + 1),
        _ => true,
    }
}

/// Whether every instruction of `prog`, which starts at address `lo`, keeps
/// count-downs guarded.
pub open spec fn guarded(prog: Seq<Op>, lo: int) -> bool {
    forall|i: int| 0 <= i < prog.len() ==> #[trigger] guarded_at(prog, lo, i)
}

/// Whether the register of the instruction at `pc`, where that is a
/// count-down, holds a count.
pub open spec fn ready(prog: Seq<Op>, pc: int, regs: Seq<Option<Count>>) -> bool {
    prog[pc] matches Op::Descrement(r) ==> r < regs.len() && regs[r as int] is Some
}

} // verus!
