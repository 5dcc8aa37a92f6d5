//! What holds of every run of the backtracking machine.

use crate::evaluator::EvalError;
use crate::instruction::Op;
use crate::machine::{
    closed, counted, counted_times, fresh_at, guarded, guarded_at, lemma_jump_uses_up, opened,
    ready,
    recorded, run, settled, spent, unused, well_formed, with_register, Count, Run, Slot,
};
use crate::text::is_digit;
use vstd::prelude::*;

verus! {

/// The first alternative of a branch wins: where the exploration from the
/// first address finds a match, the branch gives that match, whatever the
/// second address would give.
pub proof fn lemma_first_alternative_wins(
    prog: Seq<Op>,
    text: Seq<char>,
    index: usize,
    pc: int,
    sp: int,
    regs: Seq<Option<Count>>,
    caps: Seq<Slot>,
    seen: Set<(usize, usize)>,
    depth: nat,
)
    requires
        0 <= sp <= text.len(),
        0 <= pc < prog.len(),
        prog[pc] is Split,
        depth > 0,
        run(
            prog,
            text,
            index,
            prog[pc]->Split_0 as int,
            sp,
            with_register(regs, prog[pc]->Split_3, prog[pc]->Split_2),
            caps,
            seen,
            (depth - 1) as nat,
        ).result matches Ok(Some(_)),
    ensures
        run(prog, text, index, pc, sp, regs, caps, seen, depth) == run(
            prog,
            text,
            index,
            prog[pc]->Split_0 as int,
            sp,
            with_register(regs, prog[pc]->Split_3, prog[pc]->Split_2),
            caps,
            seen,
            (depth - 1) as nat,
        ),
{
}

/// A jump never goes twice to the same address at the same position: the
/// second time the path fails at once, and nothing else changes. So a loop
/// whose body consumes nothing is left after one round.
pub proof fn lemma_seen_jump_fails(
    prog: Seq<Op>,
    text: Seq<char>,
    index: usize,
    pc: int,
    sp: int,
    regs: Seq<Option<Count>>,
    caps: Seq<Slot>,
    seen: Set<(usize, usize)>,
    depth: nat,
)
    requires
        0 <= sp <= text.len(),
        0 <= pc < prog.len(),
        prog[pc] is Jump,
        seen.contains((prog[pc]->Jump_0, sp as usize)),
    ensures
        run(prog, text, index, pc, sp, regs, caps, seen, depth) == (Run { result: Ok(None), seen }),
{
}

/// At one position no more jumps are left to take than there are
/// instructions.
pub proof fn lemma_fresh_at_bound(prog: Seq<Op>, seen: Set<(usize, usize)>, s: int, n: nat)
    ensures
        fresh_at(prog, seen, s, n) <= n,
    decreases n,
{
    if 0 < n <= prog.len() {
        lemma_fresh_at_bound(prog, seen, s, (n - 1) as nat);
    }
}

/// A search takes no more jumps than the program has instructions times the
/// text has positions: that many are left to take at most, and every jump
/// taken uses one up.
pub proof fn lemma_jumps_bound(prog: Seq<Op>, seen: Set<(usize, usize)>, m: nat)
    ensures
        unused(prog, seen, m) <= prog.len() * m,
    decreases m,
{
    if m > 0 {
        lemma_jumps_bound(prog, seen, (m - 1) as nat);
        lemma_fresh_at_bound(prog, seen, m - 1, prog.len());
        assert(prog.len() * (m - 1) + prog.len() == prog.len() * m) by (nonlinear_arith);
    }
}

/// What was seen stays seen: an exploration forgets no (address, position)
/// pair.
#[verifier::rlimit(60)]
pub proof fn lemma_seen_grows(
    prog: Seq<Op>,
    text: Seq<char>,
    index: usize,
    pc: int,
    sp: int,
    regs: Seq<Option<Count>>,
    caps: Seq<Slot>,
    seen: Set<(usize, usize)>,
    depth: nat,
)
    requires
        0 <= sp <= text.len(),
    ensures
        seen.subset_of(run(prog, text, index, pc, sp, regs, caps, seen, depth).seen),
    decreases depth, unused(prog, seen, text.len() + 1), prog.len() - pc,
{
    if 0 <= pc < prog.len() {
        match prog[pc] {
            Op::Char(c) => {
                if 0 <= sp < text.len() && (c == text[sp] || c == '.') {
                    lemma_seen_grows(
                        prog,
                        text,
                        index,
                        pc + 1,
                        sp + 1,
                        regs,
                        recorded(caps, text[sp]),
                        seen,
                        depth,
                    );
                }
            },
            Op::UnmatchChars(cs) => {
                if 0 <= sp < text.len() && !cs.contains(text[sp]) {
                    lemma_seen_grows(
                        prog,
                        text,
                        index,
                        pc + 1,
                        sp + 1,
                        regs,
                        recorded(caps, text[sp]),
                        seen,
                        depth,
                    );
                }
            },
            Op::AnyNumber => {
                if 0 <= sp < text.len() && is_digit(text[sp]) {
                    lemma_seen_grows(
                        prog,
                        text,
                        index,
                        pc + 1,
                        sp + 1,
                        regs,
                        recorded(caps, text[sp]),
                        seen,
                        depth,
                    );
                }
            },
            Op::NotNumber => {
                if 0 <= sp < text.len() && !is_digit(text[sp]) {
                    lemma_seen_grows(
                        prog,
                        text,
                        index,
                        pc + 1,
                        sp + 1,
                        regs,
                        recorded(caps, text[sp]),
                        seen,
                        depth,
                    );
                }
            },
            Op::Caret => {
                if sp == 0 && index == 0 {
                    lemma_seen_grows(prog, text, index, pc + 1, sp, regs, caps, seen, depth);
                }
            },
            Op::Doller => {
                if sp == text.len() {
                    lemma_seen_grows(prog, text, index, pc + 1, sp, regs, caps, seen, depth);
                }
            },
            Op::Match => {},
            Op::Jump(addr) => {
                if !seen.contains((addr, sp as usize)) {
                    lemma_jump_uses_up(prog, seen, pc, sp, text.len() + 1);
                    lemma_seen_grows(
                        prog,
                        text,
                        index,
                        addr as int,
                        sp,
                        regs,
                        caps,
                        seen.insert((addr, sp as usize)),
                        depth,
                    );
                }
            },
            Op::Split(first, second, bound, reg) => {
                if depth > 0 {
                    let regs2 = with_register(regs, reg, bound);
                    let left = run(
                        prog,
                        text,
                        index,
                        first as int,
                        sp,
                        regs2,
                        caps,
                        seen,
                        (depth - 1) as nat,
                    );
                    lemma_seen_grows(
                        prog,
                        text,
                        index,
                        first as int,
                        sp,
                        regs2,
                        caps,
                        seen,
                        (depth - 1) as nat,
                    );
                    lemma_seen_grows(
                        prog,
                        text,
                        index,
                        second as int,
                        sp,
                        regs2,
                        caps,
                        left.seen,
                        (depth - 1) as nat,
                    );
                }
            },
            Op::Descrement(idx) => {
                if idx < regs.len() && regs[idx as int] is Some {
                    let count = regs[idx as int]->Some_0;
                    if !spent(count) {
                        lemma_seen_grows(
                            prog,
                            text,
                            index,
                            pc + 1,
                            sp,
                            regs.update(idx as int, Some(counted(count))),
                            caps,
                            seen,
                            depth,
                        );
                    }
                }
            },
            Op::CapcherBegin(slot) => {
                lemma_seen_grows(
                    prog,
                    text,
                    index,
                    pc + 1,
                    sp,
                    regs,
                    opened(caps, slot),
                    seen,
                    depth,
                );
            },
            Op::CapcherEnd(slot) => {
                lemma_seen_grows(
                    prog,
                    text,
                    index,
                    pc + 1,
                    sp,
                    regs,
                    closed(caps, slot),
                    seen,
                    depth,
                );
            },
        }
    }
}

/// An exact bound asks for exactly that many repetitions: of a loop bounded
/// by `m` and `m`, the count after `k` repetitions, `k` up to `m`, allows a
/// match only where `k` is `m`, and only there is a further repetition
/// refused.
pub proof fn lemma_exact_count(m: i32, k: nat)
    requires
        0 <= m,
        k <= m,
    ensures
        counted_times((m, Some(m)), k) == (((m - k) as i32, Some((m - k) as i32))),
        settled(counted_times((m, Some(m)), k)) <==> k == m,
        spent(counted_times((m, Some(m)), k)) <==> k == m,
    decreases k,
{
    if k > 0 {
        lemma_exact_count(m, (k - 1) as nat);
    }
}

/// A range asks for at least its minimum and allows at most its maximum: of
/// a loop bounded by `min` and `max`, the count after `k` repetitions, `k` up
/// to `max`, allows a match only where `k` is at least `min`, and a further
/// repetition is refused only where `k` is `max`.
pub proof fn lemma_ranged_count(min: i32, max: i32, k: nat)
    requires
        0 <= min <= max,
        k <= max,
    ensures
        counted_times((min, Some(max)), k) == (((min - k) as i32, Some((max - k) as i32))),
        settled(counted_times((min, Some(max)), k)) <==> k >= min,
        spent(counted_times((min, Some(max)), k)) <==> k == max,
    decreases k,
{
    if k > 0 {
        lemma_ranged_count(min, max, (k - 1) as nat);
    }
}

/// A minimum alone asks for at least that many repetitions and refuses none:
/// of a loop bounded by `min` only, the count after `k` repetitions allows a
/// match only where `k` is at least `min`.
pub proof fn lemma_open_count(min: i32, k: nat)
    requires
        0 <= min,
    ensures
        counted_times((min, None), k) == ((
            if min - k >= i32::MIN {
                (min - k) as i32
            } else {
                i32::MIN
            },
            None::<i32>,
        )),
        settled(counted_times((min, None), k)) <==> k >= min,
        !spent(counted_times((min, None), k)),
    decreases k,
{
    if k > 0 {
        lemma_open_count(min, (k - 1) as nat);
    }
}

/// A count never rises: what is owed and what is allowed only go down.
pub proof fn lemma_count_never_rises(count: Count)
    ensures
        counted(count).0 <= count.0,
        count.1 matches Some(max) ==> (counted(count).1 matches Some(left) && left <= max),
        count.1 is None ==> counted(count).1 is None,
{
}

/// A negated set takes no character of the set, nor the end of the text: the
/// path fails there.
pub proof fn lemma_negated_set_rejects(
    prog: Seq<Op>,
    text: Seq<char>,
    index: usize,
    pc: int,
    sp: int,
    regs: Seq<Option<Count>>,
    caps: Seq<Slot>,
    seen: Set<(usize, usize)>,
    depth: nat,
)
    requires
        0 <= sp <= text.len(),
        0 <= pc < prog.len(),
        prog[pc] is UnmatchChars,
        !(0 <= sp < text.len()) || prog[pc]->UnmatchChars_0.contains(text[sp]),
    ensures
        run(prog, text, index, pc, sp, regs, caps, seen, depth) == (Run { result: Ok(None), seen }),
{
}

/// A negated set takes every character outside the set: the run goes on
/// behind it, and every open slot has recorded the character.
pub proof fn lemma_negated_set_accepts(
    prog: Seq<Op>,
    text: Seq<char>,
    index: usize,
    pc: int,
    sp: int,
    regs: Seq<Option<Count>>,
    caps: Seq<Slot>,
    seen: Set<(usize, usize)>,
    depth: nat,
)
    requires
        0 <= sp <= text.len(),
        0 <= pc < prog.len(),
        prog[pc] is UnmatchChars,
        0 <= sp < text.len(),
        !prog[pc]->UnmatchChars_0.contains(text[sp]),
    ensures
        run(prog, text, index, pc, sp, regs, caps, seen, depth) == run(
            prog,
            text,
            index,
            pc + 1,
            sp + 1,
            regs,
            recorded(caps, text[sp]),
            seen,
            depth,
        ),
{
}

/// The start anchor holds only at the true start of the text: at any other
/// position, or in a text that starts at another offset, the path fails.
pub proof fn lemma_caret_only_at_start(
    prog: Seq<Op>,
    text: Seq<char>,
    index: usize,
    pc: int,
    sp: int,
    regs: Seq<Option<Count>>,
    caps: Seq<Slot>,
    seen: Set<(usize, usize)>,
    depth: nat,
)
    requires
        0 <= sp <= text.len(),
        0 <= pc < prog.len(),
        prog[pc] is Caret,
        sp != 0 || index != 0,
    ensures
        run(prog, text, index, pc, sp, regs, caps, seen, depth).result == Ok::<
            Option<Seq<Slot>>,
            EvalError,
        >(None),
{
}

/// The end anchor holds only at the end of the text.
pub proof fn lemma_doller_only_at_end(
    prog: Seq<Op>,
    text: Seq<char>,
    index: usize,
    pc: int,
    sp: int,
    regs: Seq<Option<Count>>,
    caps: Seq<Slot>,
    seen: Set<(usize, usize)>,
    depth: nat,
)
    requires
        0 <= sp <= text.len(),
        0 <= pc < prog.len(),
        prog[pc] is Doller,
        sp != text.len(),
    ensures
        run(prog, text, index, pc, sp, regs, caps, seen, depth).result == Ok::<
            Option<Seq<Slot>>,
            EvalError,
        >(None),
{
}

/// An exploration never reports an overflow of the program counter or of the
/// position, nor a missing context: both counters stay inside the program and
/// the text.
#[verifier::rlimit(60)]
pub proof fn lemma_no_overflow(
    prog: Seq<Op>,
    text: Seq<char>,
    index: usize,
    pc: int,
    sp: int,
    regs: Seq<Option<Count>>,
    caps: Seq<Slot>,
    seen: Set<(usize, usize)>,
    depth: nat,
)
    requires
        0 <= sp <= text.len(),
    ensures
        run(prog, text, index, pc, sp, regs, caps, seen, depth).result matches Err(e) ==> (e
            is InvalidPC || e is InvalidRegister || e is DepthOverFlow),
    decreases depth, unused(prog, seen, text.len() + 1), prog.len() - pc,
{
    if 0 <= pc < prog.len() {
        match prog[pc] {
            Op::Char(c) => {
                if 0 <= sp < text.len() && (c == text[sp] || c == '.') {
                    lemma_no_overflow(
                        prog,
                        text,
                        index,
                        pc + 1,
                        sp + 1,
                        regs,
                        recorded(caps, text[sp]),
                        seen,
                        depth,
                    );
                }
            },
            Op::UnmatchChars(cs) => {
                if 0 <= sp < text.len() && !cs.contains(text[sp]) {
                    lemma_no_overflow(
                        prog,
                        text,
                        index,
                        pc + 1,
                        sp + 1,
                        regs,
                        recorded(caps, text[sp]),
                        seen,
                        depth,
                    );
                }
            },
            Op::AnyNumber => {
                if 0 <= sp < text.len() && is_digit(text[sp]) {
                    lemma_no_overflow(
                        prog,
                        text,
                        index,
                        pc + 1,
                        sp + 1,
                        regs,
                        recorded(caps, text[sp]),
                        seen,
                        depth,
                    );
                }
            },
            Op::NotNumber => {
                if 0 <= sp < text.len() && !is_digit(text[sp]) {
                    lemma_no_overflow(
                        prog,
                        text,
                        index,
                        pc + 1,
                        sp + 1,
                        regs,
                        recorded(caps, text[sp]),
                        seen,
                        depth,
                    );
                }
            },
            Op::Caret => {
                if sp == 0 && index == 0 {
                    lemma_no_overflow(prog, text, index, pc + 1, sp, regs, caps, seen, depth);
                }
            },
            Op::Doller => {
                if sp == text.len() {
                    lemma_no_overflow(prog, text, index, pc + 1, sp, regs, caps, seen, depth);
                }
            },
            Op::Match => {},
            Op::Jump(addr) => {
                if !seen.contains((addr, sp as usize)) {
                    lemma_jump_uses_up(prog, seen, pc, sp, text.len() + 1);
                    lemma_no_overflow(
                        prog,
                        text,
                        index,
                        addr as int,
                        sp,
                        regs,
                        caps,
                        seen.insert((addr, sp as usize)),
                        depth,
                    );
                }
            },
            Op::Split(first, second, bound, reg) => {
                if depth > 0 {
                    let regs2 = with_register(regs, reg, bound);
                    let left = run(
                        prog,
                        text,
                        index,
                        first as int,
                        sp,
                        regs2,
                        caps,
                        seen,
                        (depth - 1) as nat,
                    );
                    lemma_no_overflow(
                        prog,
                        text,
                        index,
                        first as int,
                        sp,
                        regs2,
                        caps,
                        seen,
                        (depth - 1) as nat,
                    );
                    lemma_no_overflow(
                        prog,
                        text,
                        index,
                        second as int,
                        sp,
                        regs2,
                        caps,
                        left.seen,
                        (depth - 1) as nat,
                    );
                }
            },
            Op::Descrement(idx) => {
                if idx < regs.len() && regs[idx as int] is Some {
                    let count = regs[idx as int]->Some_0;
                    if !spent(count) {
                        lemma_no_overflow(
                            prog,
                            text,
                            index,
                            pc + 1,
                            sp,
                            regs.update(idx as int, Some(counted(count))),
                            caps,
                            seen,
                            depth,
                        );
                    }
                }
            },
            Op::CapcherBegin(slot) => {
                lemma_no_overflow(
                    prog,
                    text,
                    index,
                    pc + 1,
                    sp,
                    regs,
                    opened(caps, slot),
                    seen,
                    depth,
                );
            },
            Op::CapcherEnd(slot) => {
                lemma_no_overflow(
                    prog,
                    text,
                    index,
                    pc + 1,
                    sp,
                    regs,
                    closed(caps, slot),
                    seen,
                    depth,
                );
            },
        }
    }
}

/// On a well-formed program the program counter never leaves the program.
#[verifier::rlimit(60)]
pub proof fn lemma_stays_in_program(
    prog: Seq<Op>,
    text: Seq<char>,
    index: usize,
    pc: int,
    sp: int,
    regs: Seq<Option<Count>>,
    caps: Seq<Slot>,
    seen: Set<(usize, usize)>,
    depth: nat,
)
    requires
        0 <= sp <= text.len(),
        well_formed(prog),
        0 <= pc < prog.len(),
    ensures
        !(run(prog, text, index, pc, sp, regs, caps, seen, depth).result matches Err(
            EvalError::InvalidPC,
        )),
    decreases depth, unused(prog, seen, text.len() + 1), prog.len() - pc,
{
    match prog[pc] {
        Op::Char(c) => {
            if 0 <= sp < text.len() && (c == text[sp] || c == '.') {
                lemma_stays_in_program(
                    prog,
                    text,
                    index,
                    pc + 1,
                    sp + 1,
                    regs,
                    recorded(caps, text[sp]),
                    seen,
                    depth,
                );
            }
        },
        Op::UnmatchChars(cs) => {
            if 0 <= sp < text.len() && !cs.contains(text[sp]) {
                lemma_stays_in_program(
                    prog,
                    text,
                    index,
                    pc + 1,
                    sp + 1,
                    regs,
                    recorded(caps, text[sp]),
                    seen,
                    depth,
                );
            }
        },
        Op::AnyNumber => {
            if 0 <= sp < text.len() && is_digit(text[sp]) {
                lemma_stays_in_program(
                    prog,
                    text,
                    index,
                    pc + 1,
                    sp + 1,
                    regs,
                    recorded(caps, text[sp]),
                    seen,
                    depth,
                );
            }
        },
        Op::NotNumber => {
            if 0 <= sp < text.len() && !is_digit(text[sp]) {
                lemma_stays_in_program(
                    prog,
                    text,
                    index,
                    pc + 1,
                    sp + 1,
                    regs,
                    recorded(caps, text[sp]),
                    seen,
                    depth,
                );
            }
        },
        Op::Caret => {
            if sp == 0 && index == 0 {
                lemma_stays_in_program(prog, text, index, pc + 1, sp, regs, caps, seen, depth);
            }
        },
        Op::Doller => {
            if sp == text.len() {
                lemma_stays_in_program(prog, text, index, pc + 1, sp, regs, caps, seen, depth);
            }
        },
        Op::Match => {},
        Op::Jump(addr) => {
            if !seen.contains((addr, sp as usize)) {
                lemma_jump_uses_up(prog, seen, pc, sp, text.len() + 1);
                lemma_stays_in_program(
                    prog,
                    text,
                    index,
                    addr as int,
                    sp,
                    regs,
                    caps,
                    seen.insert((addr, sp as usize)),
                    depth,
                );
            }
        },
        Op::Split(first, second, bound, reg) => {
            if depth > 0 {
                let regs2 = with_register(regs, reg, bound);
                let left = run(
                    prog,
                    text,
                    index,
                    first as int,
                    sp,
                    regs2,
                    caps,
                    seen,
                    (depth - 1) as nat,
                );
                lemma_stays_in_program(
                    prog,
                    text,
                    index,
                    first as int,
                    sp,
                    regs2,
                    caps,
                    seen,
                    (depth - 1) as nat,
                );
                lemma_stays_in_program(
                    prog,
                    text,
                    index,
                    second as int,
                    sp,
                    regs2,
                    caps,
                    left.seen,
                    (depth - 1) as nat,
                );
            }
        },
        Op::Descrement(idx) => {
            if idx < regs.len() && regs[idx as int] is Some {
                let count = regs[idx as int]->Some_0;
                if !spent(count) {
                    lemma_stays_in_program(
                        prog,
                        text,
                        index,
                        pc + 1,
                        sp,
                        regs.update(idx as int, Some(counted(count))),
                        caps,
                        seen,
                        depth,
                    );
                }
            }
        },
        Op::CapcherBegin(slot) => {
            lemma_stays_in_program(
                prog,
                text,
                index,
                pc + 1,
                sp,
                regs,
                opened(caps, slot),
                seen,
                depth,
            );
        },
        Op::CapcherEnd(slot) => {
            lemma_stays_in_program(
                prog,
                text,
                index,
                pc + 1,
                sp,
                regs,
                closed(caps, slot),
                seen,
                depth,
            );
        },
    }
}

/// On a well-formed program with guarded count-downs, every count-down finds
/// its register: the exploration reports no missing count.
#[verifier::rlimit(60)]
pub proof fn lemma_counts_found(
    prog: Seq<Op>,
    text: Seq<char>,
    index: usize,
    pc: int,
    sp: int,
    regs: Seq<Option<Count>>,
    caps: Seq<Slot>,
    seen: Set<(usize, usize)>,
    depth: nat,
)
    requires
        0 <= sp <= text.len(),
        well_formed(prog),
        guarded(prog, 0),
        0 <= pc < prog.len(),
        ready(prog, pc, regs),
    ensures
        !(run(prog, text, index, pc, sp, regs, caps, seen, depth).result matches Err(
            EvalError::InvalidRegister,
        )),
    decreases depth, unused(prog, seen, text.len() + 1), prog.len() - pc,
{
    assert(guarded_at(prog, 0, pc));
    if pc + 1 < prog.len() {
        assert(guarded_at(prog, 0, pc + 1));
    }
    match prog[pc] {
        Op::Char(c) => {
            if 0 <= sp < text.len() && (c == text[sp] || c == '.') {
                lemma_counts_found(
                    prog,
                    text,
                    index,
                    pc + 1,
                    sp + 1,
                    regs,
                    recorded(caps, text[sp]),
                    seen,
                    depth,
                );
            }
        },
        Op::UnmatchChars(cs) => {
            if 0 <= sp < text.len() && !cs.contains(text[sp]) {
                lemma_counts_found(
                    prog,
                    text,
                    index,
                    pc + 1,
                    sp + 1,
                    regs,
                    recorded(caps, text[sp]),
                    seen,
                    depth,
                );
            }
        },
        Op::AnyNumber => {
            if 0 <= sp < text.len() && is_digit(text[sp]) {
                lemma_counts_found(
                    prog,
                    text,
                    index,
                    pc + 1,
                    sp + 1,
                    regs,
                    recorded(caps, text[sp]),
                    seen,
                    depth,
                );
            }
        },
        Op::NotNumber => {
            if 0 <= sp < text.len() && !is_digit(text[sp]) {
                lemma_counts_found(
                    prog,
                    text,
                    index,
                    pc + 1,
                    sp + 1,
                    regs,
                    recorded(caps, text[sp]),
                    seen,
                    depth,
                );
            }
        },
        Op::Caret => {
            if sp == 0 && index == 0 {
                lemma_counts_found(prog, text, index, pc + 1, sp, regs, caps, seen, depth);
            }
        },
        Op::Doller => {
            if sp == text.len() {
                lemma_counts_found(prog, text, index, pc + 1, sp, regs, caps, seen, depth);
            }
        },
        Op::Match => {},
        Op::Jump(addr) => {
            if !seen.contains((addr, sp as usize)) {
                lemma_jump_uses_up(prog, seen, pc, sp, text.len() + 1);
                lemma_counts_found(
                    prog,
                    text,
                    index,
                    addr as int,
                    sp,
                    regs,
                    caps,
                    seen.insert((addr, sp as usize)),
                    depth,
                );
            }
        },
        Op::Split(first, second, bound, reg) => {
            if depth > 0 {
                let regs2 = with_register(regs, reg, bound);
                let left = run(
                    prog,
                    text,
                    index,
                    first as int,
                    sp,
                    regs2,
                    caps,
                    seen,
                    (depth - 1) as nat,
                );
                assert(guarded_at(prog, 0, first as int));
                assert(ready(prog, first as int, regs2));
                lemma_counts_found(
                    prog,
                    text,
                    index,
                    first as int,
                    sp,
                    regs2,
                    caps,
                    seen,
                    (depth - 1) as nat,
                );
                lemma_counts_found(
                    prog,
                    text,
                    index,
                    second as int,
                    sp,
                    regs2,
                    caps,
                    left.seen,
                    (depth - 1) as nat,
                );
            }
        },
        Op::Descrement(idx) => {
            let count = regs[idx as int]->Some_0;
            if !spent(count) {
                lemma_counts_found(
                    prog,
                    text,
                    index,
                    pc + 1,
                    sp,
                    regs.update(idx as int, Some(counted(count))),
                    caps,
                    seen,
                    depth,
                );
            }
        },
        Op::CapcherBegin(slot) => {
            lemma_counts_found(
                prog,
                text,
                index,
                pc + 1,
                sp,
                regs,
                opened(caps, slot),
                seen,
                depth,
            );
        },
        Op::CapcherEnd(slot) => {
            lemma_counts_found(
                prog,
                text,
                index,
                pc + 1,
                sp,
                regs,
                closed(caps, slot),
                seen,
                depth,
            );
        },
    }
}

} // verus!
