//! What holds of every generated program.

use crate::ast::Tree;
use crate::codegen::{
    bound_of, captures, code, compiles, counters, lemma_seq_prefix_le, plain_split, program,
    seq_captures, seq_code, seq_counters, seq_size, size,
};
use crate::instruction::Op;
use crate::machine::{guarded, guarded_at, lands_well, well_formed};
use vstd::prelude::*;

verus! {

/// Whether every branch and jump of `code` goes to an address from `lo` to
/// `hi`.
pub open spec fn targets_within(code: Seq<Op>, lo: int, hi: int) -> bool {
    forall|i: int|
        0 <= i < code.len() ==> match #[trigger] code[i] {
            Op::Jump(a) => lo <= a <= hi,
            Op::Split(a, b, _, _) => lo <= a <= hi && lo <= b <= hi,
            _ => true,
        }
}

/// Two runs of instructions whose branches and jumps stay in a range, one
/// after the other, stay in the range.
pub proof fn lemma_targets_concat(a: Seq<Op>, b: Seq<Op>, lo: int, hi: int)
    requires
        targets_within(a, lo, hi),
        targets_within(b, lo, hi),
    ensures
        targets_within(a + b, lo, hi),
{
    assert forall|i: int| 0 <= i < (a + b).len() implies match #[trigger] (a + b)[i] {
        Op::Jump(x) => lo <= x <= hi,
        Op::Split(x, y, _, _) => lo <= x <= hi && lo <= y <= hi,
        _ => true,
    } by {
        if i < a.len() {
            assert((a + b)[i] == a[i]);
        } else {
            assert((a + b)[i] == b[i - a.len()]);
        }
    }
}

/// Branches and jumps that stay in a range stay in every wider range.
pub proof fn lemma_targets_widen(a: Seq<Op>, lo: int, hi: int, lo2: int, hi2: int)
    requires
        targets_within(a, lo, hi),
        lo2 <= lo,
        hi <= hi2,
    ensures
        targets_within(a, lo2, hi2),
{
    assert forall|i: int| 0 <= i < a.len() implies match #[trigger] a[i] {
        Op::Jump(x) => lo2 <= x <= hi2,
        Op::Split(x, y, _, _) => lo2 <= x <= hi2 && lo2 <= y <= hi2,
        _ => true,
    } by {
        assert(match a[i] {
            Op::Jump(x) => lo <= x <= hi,
            Op::Split(x, y, _, _) => lo <= x <= hi && lo <= y <= hi,
            _ => true,
        });
    }
}

/// The instructions of a tree are as many as its size says, and each of their
/// branches and jumps stays between the first address of the tree and the
/// address behind its last instruction.
#[verifier::rlimit(60)]
pub proof fn lemma_code_targets(t: Tree, pc: int, reg: int, cap: int)
    requires
        0 <= pc,
        pc + size(t) <= usize::MAX,
    ensures
        code(t, pc, reg, cap).len() == size(t),
        targets_within(code(t, pc, reg, cap), pc, pc + size(t)),
    decreases t, 0nat,
{
    let hi = pc + size(t);
    match t {
        Tree::Sequence(ts) => {
            lemma_seq_code_targets(ts, ts.len(), pc, reg, cap);
        },
        Tree::Or(a, b) => {
            let ca = code(*a, pc + 1, reg, cap);
            let cb = code(*b, pc + size(*a) + 2, reg + counters(*a), cap + captures(*a));
            lemma_code_targets(*a, pc + 1, reg, cap);
            lemma_code_targets(*b, pc + size(*a) + 2, reg + counters(*a), cap + captures(*a));
            lemma_targets_widen(ca, pc + 1, pc + 1 + size(*a), pc, hi);
            lemma_targets_widen(cb, pc + size(*a) + 2, hi, pc, hi);
            let head = seq![plain_split(pc + 1, pc + size(*a) + 2)];
            let jump = seq![Op::Jump(hi as usize)];
            assert(targets_within(head, pc, hi));
            assert(targets_within(jump, pc, hi));
            lemma_targets_concat(head, ca, pc, hi);
            lemma_targets_concat(head + ca, jump, pc, hi);
            lemma_targets_concat(head + ca + jump, cb, pc, hi);
        },
        Tree::Question(e) => {
            let ce = code(*e, pc + 1, reg, cap);
            lemma_code_targets(*e, pc + 1, reg, cap);
            lemma_targets_widen(ce, pc + 1, hi, pc, hi);
            let head = seq![plain_split(pc + 1, pc + size(*e) + 1)];
            assert(targets_within(head, pc, hi));
            lemma_targets_concat(head, ce, pc, hi);
        },
        Tree::Star(e) => {
            let ce = code(*e, pc + 1, reg, cap);
            lemma_code_targets(*e, pc + 1, reg, cap);
            lemma_targets_widen(ce, pc + 1, pc + 1 + size(*e), pc, hi);
            let head = seq![plain_split(pc + 1, pc + size(*e) + 2)];
            let jump = seq![Op::Jump(pc as usize)];
            assert(targets_within(head, pc, hi));
            assert(targets_within(jump, pc, hi));
            lemma_targets_concat(head, ce, pc, hi);
            lemma_targets_concat(head + ce, jump, pc, hi);
        },
        Tree::Plus(e) => {
            let ce = code(*e, pc, reg, cap);
            lemma_code_targets(*e, pc, reg, cap);
            lemma_targets_widen(ce, pc, pc + size(*e), pc, hi);
            let tail = seq![plain_split(pc, pc + size(*e) + 1)];
            assert(targets_within(tail, pc, hi));
            lemma_targets_concat(ce, tail, pc, hi);
        },
        Tree::Counter(e, count) => {
            let ce = code(*e, pc + 2, reg + 1, cap);
            lemma_code_targets(*e, pc + 2, reg + 1, cap);
            lemma_targets_widen(ce, pc + 2, pc + 2 + size(*e), pc, hi);
            let head = seq![
                Op::Split(
                    (pc + 1) as usize,
                    (pc + size(*e) + 3) as usize,
                    bound_of(count),
                    reg as i32,
                ),
                Op::Descrement(reg as usize),
            ];
            let jump = seq![Op::Jump(pc as usize)];
            assert(targets_within(head, pc, hi));
            assert(targets_within(jump, pc, hi));
            lemma_targets_concat(head, ce, pc, hi);
            lemma_targets_concat(head + ce, jump, pc, hi);
        },
        Tree::Chapcher(e) => {
            let ce = code(*e, pc + 1, reg, cap + 1);
            lemma_code_targets(*e, pc + 1, reg, cap + 1);
            lemma_targets_widen(ce, pc + 1, pc + 1 + size(*e), pc, hi);
            let head = seq![Op::CapcherBegin(cap as i32)];
            let tail = seq![Op::CapcherEnd(cap as i32)];
            assert(targets_within(head, pc, hi));
            assert(targets_within(tail, pc, hi));
            lemma_targets_concat(head, ce, pc, hi);
            lemma_targets_concat(head + ce, tail, pc, hi);
        },
        _ => {},
    }
}

/// The same for the first `n` trees of a list.
pub proof fn lemma_seq_code_targets(ts: Seq<Tree>, n: nat, pc: int, reg: int, cap: int)
    requires
        n <= ts.len(),
        0 <= pc,
        pc + seq_size(ts, n) <= usize::MAX,
    ensures
        seq_code(ts, n, pc, reg, cap).len() == seq_size(ts, n),
        targets_within(seq_code(ts, n, pc, reg, cap), pc, pc + seq_size(ts, n)),
    decreases ts, n,
{
    if n > 0 {
        let m = (n - 1) as nat;
        let hi = pc + seq_size(ts, n);
        let first = seq_code(ts, m, pc, reg, cap);
        let last = code(
            ts[n - 1],
            pc + seq_size(ts, m),
            reg + seq_counters(ts, m),
            cap + seq_captures(ts, m),
        );
        lemma_seq_code_targets(ts, m, pc, reg, cap);
        lemma_code_targets(
            ts[n - 1],
            pc + seq_size(ts, m),
            reg + seq_counters(ts, m),
            cap + seq_captures(ts, m),
        );
        lemma_targets_widen(first, pc, pc + seq_size(ts, m), pc, hi);
        lemma_targets_widen(last, pc + seq_size(ts, m), hi, pc, hi);
        lemma_targets_concat(first, last, pc, hi);
    }
}

/// A run of instructions with guarded count-downs does not start with a
/// count-down.
pub proof fn lemma_guarded_head(part: Seq<Op>, lo: int)
    requires
        guarded(part, lo),
        part.len() > 0,
    ensures
        !(part[0] is Descrement),
{
    assert(guarded_at(part, lo, 0));
}

/// Instructions with guarded count-downs keep them guarded inside a longer
/// run, as long as no count-down stands right behind them.
pub proof fn lemma_guarded_inside(whole: Seq<Op>, lo: int, part: Seq<Op>, off: int)
    requires
        0 <= off,
        off + part.len() <= whole.len(),
        whole.subrange(off, off + part.len()) == part,
        guarded(part, lo + off),
        off + part.len() < whole.len() ==> !(whole[off + part.len()] is Descrement),
    ensures
        forall|i: int| off <= i < off + part.len() ==> #[trigger] guarded_at(whole, lo, i),
{
    let n = part.len() as int;
    assert forall|i: int| off <= i < off + n implies #[trigger] guarded_at(whole, lo, i) by {
        let j = i - off;
        assert(guarded_at(part, lo + off, j));
        assert(part[j] == whole.subrange(off, off + n)[j]);
        match part[j] {
            Op::Descrement(r) => {
                assert(part[j - 1] == whole.subrange(off, off + n)[j - 1]);
            },
            Op::Jump(x) => {
                let k = x - lo - off;
                if 0 <= k < n {
                    assert(part[k] == whole.subrange(off, off + n)[k]);
                }
            },
            Op::Split(first, second, _, _) => {
                let k = second - lo - off;
                if 0 <= k < n {
                    assert(part[k] == whole.subrange(off, off + n)[k]);
                }
                let f = first - lo - off;
                if 0 <= f < n {
                    assert(part[f] == whole.subrange(off, off + n)[f]);
                }
            },
            _ => {},
        }
    }
}

/// The instructions of a tree keep count-downs guarded: every count-down
/// stands right behind the branch of its counted loop, and nothing else leads
/// to it.
#[verifier::rlimit(100)]
pub proof fn lemma_code_guarded(t: Tree, pc: int, reg: int, cap: int)
    requires
        0 <= pc,
        pc + size(t) <= usize::MAX,
        0 <= reg,
        reg + counters(t) <= i32::MAX,
    ensures
        code(t, pc, reg, cap).len() == size(t),
        guarded(code(t, pc, reg, cap), pc),
    decreases t, 0nat,
{
    let whole = code(t, pc, reg, cap);
    let hi = pc + size(t);
    lemma_code_targets(t, pc, reg, cap);
    match t {
        Tree::Sequence(ts) => {
            lemma_seq_prefix_le(ts, ts.len(), ts.len());
            lemma_seq_code_guarded(ts, ts.len(), pc, reg, cap);
        },
        Tree::Or(a, b) => {
            let ca = code(*a, pc + 1, reg, cap);
            let cb = code(*b, pc + size(*a) + 2, reg + counters(*a), cap + captures(*a));
            let na = size(*a) as int;
            lemma_code_guarded(*a, pc + 1, reg, cap);
            lemma_code_guarded(*b, pc + na + 2, reg + counters(*a), cap + captures(*a));
            assert(whole.subrange(1, 1 + na) =~= ca);
            assert(whole.subrange(na + 2, whole.len() as int) =~= cb);
            assert(whole[0] == plain_split(pc + 1, pc + na + 2));
            assert(whole[na + 1] == Op::Jump(hi as usize));
            if cb.len() > 0 {
                lemma_guarded_head(cb, pc + na + 2);
                assert(whole[na + 2] == cb[0]);
            }
            if ca.len() > 0 {
                lemma_guarded_head(ca, pc + 1);
                assert(whole[1] == ca[0]);
            }
            lemma_guarded_inside(whole, pc, ca, 1);
            lemma_guarded_inside(whole, pc, cb, na + 2);
            assert forall|i: int| 0 <= i < whole.len() implies #[trigger] guarded_at(
                whole,
                pc,
                i,
            ) by {
                if i == 0 {
                    assert(lands_well(whole, pc, pc + na + 2));
                } else if i == na + 1 {
                    assert(lands_well(whole, pc, hi));
                }
            }
        },
        Tree::Question(e) => {
            let ce = code(*e, pc + 1, reg, cap);
            let ne = size(*e) as int;
            lemma_code_guarded(*e, pc + 1, reg, cap);
            assert(whole.subrange(1, 1 + ne) =~= ce);
            assert(whole[0] == plain_split(pc + 1, pc + ne + 1));
            if ce.len() > 0 {
                lemma_guarded_head(ce, pc + 1);
                assert(whole[1] == ce[0]);
            }
            lemma_guarded_inside(whole, pc, ce, 1);
            assert forall|i: int| 0 <= i < whole.len() implies #[trigger] guarded_at(
                whole,
                pc,
                i,
            ) by {
                if i == 0 {
                    assert(lands_well(whole, pc, hi));
                }
            }
        },
        Tree::Star(e) => {
            let ce = code(*e, pc + 1, reg, cap);
            let ne = size(*e) as int;
            lemma_code_guarded(*e, pc + 1, reg, cap);
            assert(whole.subrange(1, 1 + ne) =~= ce);
            assert(whole[0] == plain_split(pc + 1, pc + ne + 2));
            assert(whole[ne + 1] == Op::Jump(pc as usize));
            if ce.len() > 0 {
                lemma_guarded_head(ce, pc + 1);
                assert(whole[1] == ce[0]);
            }
            lemma_guarded_inside(whole, pc, ce, 1);
            assert forall|i: int| 0 <= i < whole.len() implies #[trigger] guarded_at(
                whole,
                pc,
                i,
            ) by {
                if i == 0 {
                    assert(lands_well(whole, pc, hi));
                } else if i == ne + 1 {
                    assert(lands_well(whole, pc, pc));
                }
            }
        },
        Tree::Plus(e) => {
            let ce = code(*e, pc, reg, cap);
            let ne = size(*e) as int;
            lemma_code_guarded(*e, pc, reg, cap);
            assert(whole.subrange(0, ne) =~= ce);
            assert(whole[ne] == plain_split(pc, pc + ne + 1));
            if ce.len() > 0 {
                lemma_guarded_head(ce, pc);
                assert(whole[0] == ce[0]);
            }
            lemma_guarded_inside(whole, pc, ce, 0);
            assert forall|i: int| 0 <= i < whole.len() implies #[trigger] guarded_at(
                whole,
                pc,
                i,
            ) by {
                if i == ne {
                    assert(lands_well(whole, pc, hi));
                }
            }
        },
        Tree::Counter(e, count) => {
            let ce = code(*e, pc + 2, reg + 1, cap);
            let ne = size(*e) as int;
            lemma_code_guarded(*e, pc + 2, reg + 1, cap);
            assert(whole.subrange(2, 2 + ne) =~= ce);
            assert(whole[0] == Op::Split(
                (pc + 1) as usize,
                (pc + ne + 3) as usize,
                bound_of(count),
                reg as i32,
            ));
            assert(whole[1] == Op::Descrement(reg as usize));
            assert(whole[ne + 2] == Op::Jump(pc as usize));
            if ce.len() > 0 {
                lemma_guarded_head(ce, pc + 2);
                assert(whole[2] == ce[0]);
            }
            lemma_guarded_inside(whole, pc, ce, 2);
            assert forall|i: int| 0 <= i < whole.len() implies #[trigger] guarded_at(
                whole,
                pc,
                i,
            ) by {
                if i == 0 {
                    assert(lands_well(whole, pc, hi));
                } else if i == ne + 2 {
                    assert(lands_well(whole, pc, pc));
                }
            }
        },
        Tree::Chapcher(e) => {
            let ce = code(*e, pc + 1, reg, cap + 1);
            let ne = size(*e) as int;
            lemma_code_guarded(*e, pc + 1, reg, cap + 1);
            assert(whole.subrange(1, 1 + ne) =~= ce);
            assert(whole[0] == Op::CapcherBegin(cap as i32));
            assert(whole[ne + 1] == Op::CapcherEnd(cap as i32));
            lemma_guarded_inside(whole, pc, ce, 1);
            assert forall|i: int| 0 <= i < whole.len() implies #[trigger] guarded_at(
                whole,
                pc,
                i,
            ) by {}
        },
        _ => {
            assert forall|i: int| 0 <= i < whole.len() implies #[trigger] guarded_at(
                whole,
                pc,
                i,
            ) by {}
        },
    }
}

/// The same for the first `n` trees of a list.
#[verifier::rlimit(100)]
pub proof fn lemma_seq_code_guarded(ts: Seq<Tree>, n: nat, pc: int, reg: int, cap: int)
    requires
        n <= ts.len(),
        0 <= pc,
        pc + seq_size(ts, n) <= usize::MAX,
        0 <= reg,
        reg + seq_counters(ts, n) <= i32::MAX,
    ensures
        seq_code(ts, n, pc, reg, cap).len() == seq_size(ts, n),
        guarded(seq_code(ts, n, pc, reg, cap), pc),
    decreases ts, n,
{
    let whole = seq_code(ts, n, pc, reg, cap);
    if n > 0 {
        let m = (n - 1) as nat;
        let first = seq_code(ts, m, pc, reg, cap);
        let last = code(
            ts[n - 1],
            pc + seq_size(ts, m),
            reg + seq_counters(ts, m),
            cap + seq_captures(ts, m),
        );
        lemma_seq_code_guarded(ts, m, pc, reg, cap);
        lemma_code_guarded(
            ts[n - 1],
            pc + seq_size(ts, m),
            reg + seq_counters(ts, m),
            cap + seq_captures(ts, m),
        );
        let k = first.len() as int;
        assert(whole == first + last);
        assert(whole.subrange(0, k) =~= first);
        assert(whole.subrange(k, whole.len() as int) =~= last);
        if last.len() > 0 {
            lemma_guarded_head(last, pc + k);
            assert(whole[k] == last[0]);
        }
        lemma_guarded_inside(whole, pc, first, 0);
        lemma_guarded_inside(whole, pc, last, k);
        assert forall|i: int| 0 <= i < whole.len() implies #[trigger] guarded_at(whole, pc, i) by {}
    }
}

/// Whether every register that `code` names is one of `reg_lo` up to, not
/// including, `reg_hi`, and every capture slot one of `cap_lo` up to, not
/// including, `cap_hi`. A branch without a repetition count names no register.
pub open spec fn numbers_within(
    code: Seq<Op>,
    reg_lo: int,
    reg_hi: int,
    cap_lo: int,
    cap_hi: int,
) -> bool {
    forall|i: int|
        0 <= i < code.len() ==> match #[trigger] code[i] {
            Op::Split(_, _, _, reg) => reg == -1 || reg_lo <= reg < reg_hi,
            Op::Descrement(r) => reg_lo <= r < reg_hi,
            Op::CapcherBegin(slot) => cap_lo <= slot < cap_hi,
            Op::CapcherEnd(slot) => cap_lo <= slot < cap_hi,
            _ => true,
        }
}

/// Two runs of instructions whose numbers stay in given ranges, one after the
/// other, stay in the ranges.
pub proof fn lemma_numbers_concat(
    a: Seq<Op>,
    b: Seq<Op>,
    reg_lo: int,
    reg_hi: int,
    cap_lo: int,
    cap_hi: int,
)
    requires
        numbers_within(a, reg_lo, reg_hi, cap_lo, cap_hi),
        numbers_within(b, reg_lo, reg_hi, cap_lo, cap_hi),
    ensures
        numbers_within(a + b, reg_lo, reg_hi, cap_lo, cap_hi),
{
    assert forall|i: int| 0 <= i < (a + b).len() implies match #[trigger] (a + b)[i] {
        Op::Split(_, _, _, reg) => reg == -1 || reg_lo <= reg < reg_hi,
        Op::Descrement(r) => reg_lo <= r < reg_hi,
        Op::CapcherBegin(slot) => cap_lo <= slot < cap_hi,
        Op::CapcherEnd(slot) => cap_lo <= slot < cap_hi,
        _ => true,
    } by {
        if i < a.len() {
            assert((a + b)[i] == a[i]);
        } else {
            assert((a + b)[i] == b[i - a.len()]);
        }
    }
}

/// Numbers that stay in given ranges stay in every wider range.
pub proof fn lemma_numbers_widen(
    a: Seq<Op>,
    reg_lo: int,
    reg_hi: int,
    cap_lo: int,
    cap_hi: int,
    reg_lo2: int,
    reg_hi2: int,
    cap_lo2: int,
    cap_hi2: int,
)
    requires
        numbers_within(a, reg_lo, reg_hi, cap_lo, cap_hi),
        reg_lo2 <= reg_lo,
        reg_hi <= reg_hi2,
        cap_lo2 <= cap_lo,
        cap_hi <= cap_hi2,
    ensures
        numbers_within(a, reg_lo2, reg_hi2, cap_lo2, cap_hi2),
{
    assert forall|i: int| 0 <= i < a.len() implies match #[trigger] a[i] {
        Op::Split(_, _, _, reg) => reg == -1 || reg_lo2 <= reg < reg_hi2,
        Op::Descrement(r) => reg_lo2 <= r < reg_hi2,
        Op::CapcherBegin(slot) => cap_lo2 <= slot < cap_hi2,
        Op::CapcherEnd(slot) => cap_lo2 <= slot < cap_hi2,
        _ => true,
    } by {
        assert(match a[i] {
            Op::Split(_, _, _, reg) => reg == -1 || reg_lo <= reg < reg_hi,
            Op::Descrement(r) => reg_lo <= r < reg_hi,
            Op::CapcherBegin(slot) => cap_lo <= slot < cap_hi,
            Op::CapcherEnd(slot) => cap_lo <= slot < cap_hi,
            _ => true,
        });
    }
}

/// Registers and capture slots are numbered in pre-order: a tree lowered with
/// `reg` and `cap` free names the registers from `reg` on and the slots from
/// `cap` on, as many as it has counted loops and groups, and nothing else. So
/// a group has a lower number than the groups inside it, and than the groups
/// behind it.
#[verifier::rlimit(100)]
pub proof fn lemma_code_numbers(t: Tree, pc: int, reg: int, cap: int)
    requires
        0 <= reg,
        0 <= cap,
        reg + counters(t) <= i32::MAX,
        cap + captures(t) <= i32::MAX,
    ensures
        numbers_within(code(t, pc, reg, cap), reg, reg + counters(t), cap, cap + captures(t)),
    decreases t, 0nat,
{
    let rh = reg + counters(t);
    let ch = cap + captures(t);
    match t {
        Tree::Sequence(ts) => {
            lemma_seq_code_numbers(ts, ts.len(), pc, reg, cap);
        },
        Tree::Or(a, b) => {
            let ca = code(*a, pc + 1, reg, cap);
            let cb = code(*b, pc + size(*a) + 2, reg + counters(*a), cap + captures(*a));
            lemma_code_numbers(*a, pc + 1, reg, cap);
            lemma_code_numbers(*b, pc + size(*a) + 2, reg + counters(*a), cap + captures(*a));
            lemma_numbers_widen(
                ca,
                reg,
                reg + counters(*a),
                cap,
                cap + captures(*a),
                reg,
                rh,
                cap,
                ch,
            );
            lemma_numbers_widen(
                cb,
                reg + counters(*a),
                rh,
                cap + captures(*a),
                ch,
                reg,
                rh,
                cap,
                ch,
            );
            let head = seq![plain_split(pc + 1, pc + size(*a) + 2)];
            let jump = seq![Op::Jump((pc + size(*a) + size(*b) + 2) as usize)];
            assert(numbers_within(head, reg, rh, cap, ch));
            assert(numbers_within(jump, reg, rh, cap, ch));
            lemma_numbers_concat(head, ca, reg, rh, cap, ch);
            lemma_numbers_concat(head + ca, jump, reg, rh, cap, ch);
            lemma_numbers_concat(head + ca + jump, cb, reg, rh, cap, ch);
        },
        Tree::Question(e) => {
            let ce = code(*e, pc + 1, reg, cap);
            lemma_code_numbers(*e, pc + 1, reg, cap);
            let head = seq![plain_split(pc + 1, pc + size(*e) + 1)];
            assert(numbers_within(head, reg, rh, cap, ch));
            lemma_numbers_concat(head, ce, reg, rh, cap, ch);
        },
        Tree::Star(e) => {
            let ce = code(*e, pc + 1, reg, cap);
            lemma_code_numbers(*e, pc + 1, reg, cap);
            let head = seq![plain_split(pc + 1, pc + size(*e) + 2)];
            let jump = seq![Op::Jump(pc as usize)];
            assert(numbers_within(head, reg, rh, cap, ch));
            assert(numbers_within(jump, reg, rh, cap, ch));
            lemma_numbers_concat(head, ce, reg, rh, cap, ch);
            lemma_numbers_concat(head + ce, jump, reg, rh, cap, ch);
        },
        Tree::Plus(e) => {
            let ce = code(*e, pc, reg, cap);
            lemma_code_numbers(*e, pc, reg, cap);
            let tail = seq![plain_split(pc, pc + size(*e) + 1)];
            assert(numbers_within(tail, reg, rh, cap, ch));
            lemma_numbers_concat(ce, tail, reg, rh, cap, ch);
        },
        Tree::Counter(e, count) => {
            let ce = code(*e, pc + 2, reg + 1, cap);
            lemma_code_numbers(*e, pc + 2, reg + 1, cap);
            lemma_numbers_widen(ce, reg + 1, rh, cap, ch, reg, rh, cap, ch);
            let head = seq![
                Op::Split(
                    (pc + 1) as usize,
                    (pc + size(*e) + 3) as usize,
                    bound_of(count),
                    reg as i32,
                ),
                Op::Descrement(reg as usize),
            ];
            let jump = seq![Op::Jump(pc as usize)];
            assert(numbers_within(head, reg, rh, cap, ch));
            assert(numbers_within(jump, reg, rh, cap, ch));
            lemma_numbers_concat(head, ce, reg, rh, cap, ch);
            lemma_numbers_concat(head + ce, jump, reg, rh, cap, ch);
        },
        Tree::Chapcher(e) => {
            let ce = code(*e, pc + 1, reg, cap + 1);
            lemma_code_numbers(*e, pc + 1, reg, cap + 1);
            lemma_numbers_widen(ce, reg, rh, cap + 1, ch, reg, rh, cap, ch);
            let head = seq![Op::CapcherBegin(cap as i32)];
            let tail = seq![Op::CapcherEnd(cap as i32)];
            assert(numbers_within(head, reg, rh, cap, ch));
            assert(numbers_within(tail, reg, rh, cap, ch));
            lemma_numbers_concat(head, ce, reg, rh, cap, ch);
            lemma_numbers_concat(head + ce, tail, reg, rh, cap, ch);
        },
        _ => {},
    }
}

/// The same for the first `n` trees of a list: each tree takes the numbers
/// behind those of the trees before it.
pub proof fn lemma_seq_code_numbers(ts: Seq<Tree>, n: nat, pc: int, reg: int, cap: int)
    requires
        n <= ts.len(),
        0 <= reg,
        0 <= cap,
        reg + seq_counters(ts, n) <= i32::MAX,
        cap + seq_captures(ts, n) <= i32::MAX,
    ensures
        numbers_within(
            seq_code(ts, n, pc, reg, cap),
            reg,
            reg + seq_counters(ts, n),
            cap,
            cap + seq_captures(ts, n),
        ),
    decreases ts, n,
{
    if n > 0 {
        let m = (n - 1) as nat;
        let rh = reg + seq_counters(ts, n);
        let ch = cap + seq_captures(ts, n);
        let first = seq_code(ts, m, pc, reg, cap);
        let last = code(
            ts[n - 1],
            pc + seq_size(ts, m),
            reg + seq_counters(ts, m),
            cap + seq_captures(ts, m),
        );
        lemma_seq_code_numbers(ts, m, pc, reg, cap);
        lemma_code_numbers(
            ts[n - 1],
            pc + seq_size(ts, m),
            reg + seq_counters(ts, m),
            cap + seq_captures(ts, m),
        );
        lemma_numbers_widen(
            first,
            reg,
            reg + seq_counters(ts, m),
            cap,
            cap + seq_captures(ts, m),
            reg,
            rh,
            cap,
            ch,
        );
        lemma_numbers_widen(
            last,
            reg + seq_counters(ts, m),
            rh,
            cap + seq_captures(ts, m),
            ch,
            reg,
            rh,
            cap,
            ch,
        );
        lemma_numbers_concat(first, last, reg, rh, cap, ch);
    }
}

/// The instructions of a tree hold no `Match`.
#[verifier::rlimit(60)]
pub proof fn lemma_code_has_no_match(t: Tree, pc: int, reg: int, cap: int)
    ensures
        forall|i: int|
            0 <= i < code(t, pc, reg, cap).len() ==> !(#[trigger] code(t, pc, reg, cap)[i]
                is Match),
    decreases t, 0nat,
{
    match t {
        Tree::Sequence(ts) => {
            lemma_seq_code_has_no_match(ts, ts.len(), pc, reg, cap);
        },
        Tree::Or(a, b) => {
            lemma_code_has_no_match(*a, pc + 1, reg, cap);
            lemma_code_has_no_match(*b, pc + size(*a) + 2, reg + counters(*a), cap + captures(*a));
        },
        Tree::Question(e) => {
            lemma_code_has_no_match(*e, pc + 1, reg, cap);
        },
        Tree::Star(e) => {
            lemma_code_has_no_match(*e, pc + 1, reg, cap);
        },
        Tree::Plus(e) => {
            lemma_code_has_no_match(*e, pc, reg, cap);
        },
        Tree::Counter(e, _) => {
            lemma_code_has_no_match(*e, pc + 2, reg + 1, cap);
        },
        Tree::Chapcher(e) => {
            lemma_code_has_no_match(*e, pc + 1, reg, cap + 1);
        },
        _ => {},
    }
}

/// The same for the first `n` trees of a list.
pub proof fn lemma_seq_code_has_no_match(ts: Seq<Tree>, n: nat, pc: int, reg: int, cap: int)
    requires
        n <= ts.len(),
    ensures
        forall|i: int|
            0 <= i < seq_code(ts, n, pc, reg, cap).len() ==> !(#[trigger] seq_code(
                ts,
                n,
                pc,
                reg,
                cap,
            )[i] is Match),
    decreases ts, n,
{
    if n > 0 {
        let m = (n - 1) as nat;
        lemma_seq_code_has_no_match(ts, m, pc, reg, cap);
        lemma_code_has_no_match(
            ts[n - 1],
            pc + seq_size(ts, m),
            reg + seq_counters(ts, m),
            cap + seq_captures(ts, m),
        );
    }
}

/// A program is the instructions of its pattern and one `Match`, which is its
/// last instruction; every branch and jump goes to an instruction of the
/// program.
pub proof fn lemma_program_shape(t: Tree)
    requires
        compiles(t),
    ensures
        program(t).len() == size(t) + 1,
        forall|i: int|
            0 <= i < program(t).len() ==> (#[trigger] program(t)[i] is Match <==> i == size(t)),
        targets_within(program(t), 0, program(t).len() - 1),
{
    lemma_code_targets(t, 0, 0, 0);
    lemma_code_has_no_match(t, 0, 0, 0);
}

/// The program of a pattern is well formed and keeps count-downs guarded.
pub proof fn lemma_program_guarded(t: Tree)
    requires
        compiles(t),
    ensures
        well_formed(program(t)),
        guarded(program(t), 0),
{
    let whole = program(t);
    let body = code(t, 0, 0, 0);
    lemma_program_shape(t);
    lemma_code_guarded(t, 0, 0, 0);
    assert(whole.last() == whole[whole.len() - 1]);
    assert(whole.subrange(0, body.len() as int) =~= body);
    assert(whole[body.len() as int] == Op::Match);
    lemma_guarded_inside(whole, 0, body, 0);
    assert forall|i: int| 0 <= i < whole.len() implies #[trigger] guarded_at(whole, 0, i) by {}
}

} // verus!
