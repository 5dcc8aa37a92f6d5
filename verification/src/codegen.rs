//! Lowering of a syntax tree into a flat program for the backtracking machine.

use crate::ast::{lemma_sequence_view, trees, Tree, AST};
use crate::instruction::{lemma_ops_push, lemma_ops_update, ops, Instruction, Op};
use crate::text::copy_chars;
use vstd::prelude::*;
use vstd::string::StringExecFns;

verus! {

/// Why no program could be generated.
#[derive(Debug)]
pub enum CodeGenError {
    /// An address, a register number or a slot number does not fit its type.
    PCOverFlow,
    /// The branch of a `*` loop was not where it was emitted.
    FailStar,
    /// The branch or jump of an alternation was not where it was emitted.
    FailOr,
    /// The branch of a `?` was not where it was emitted.
    FailQuestion,
    /// The branch of a counted loop was not where it was emitted.
    FailCounter,
}

/// Why no program could be generated, as a message.
pub open spec fn code_gen_error_text(e: CodeGenError) -> Seq<char> {
    "CodeGenError: "@ + match e {
        CodeGenError::PCOverFlow => "PCOverFlow"@,
        CodeGenError::FailStar => "FailStar"@,
        CodeGenError::FailOr => "FailOr"@,
        CodeGenError::FailQuestion => "FailQuestion"@,
        CodeGenError::FailCounter => "FailCounter"@,
    }
}

impl CodeGenError {
    /// The error as a message.
    pub fn to_text(&self) -> (s: String)
        ensures
            s@ == code_gen_error_text(*self),
    {
        let mut s = String::new();
        s.append("CodeGenError: ");
        match self {
            CodeGenError::PCOverFlow => s.append("PCOverFlow"),
            CodeGenError::FailStar => s.append("FailStar"),
            CodeGenError::FailOr => s.append("FailOr"),
            CodeGenError::FailQuestion => s.append("FailQuestion"),
            CodeGenError::FailCounter => s.append("FailCounter"),
        }
        assert(s@ =~= code_gen_error_text(*self));
        s
    }
}

/// The number of nodes of a tree.
pub open spec fn nodes(t: Tree) -> nat
    decreases t, 0nat,
{
    match t {
        Tree::Plus(e) => 1 + nodes(*e),
        Tree::Star(e) => 1 + nodes(*e),
        Tree::Question(e) => 1 + nodes(*e),
        Tree::Or(a, b) => 1 + nodes(*a) + nodes(*b),
        Tree::Sequence(ts) => 1 + seq_nodes(ts, ts.len()),
        Tree::Counter(e, _) => 1 + nodes(*e),
        Tree::Chapcher(e) => 1 + nodes(*e),
        _ => 1,
    }
}

/// The number of nodes of the first `n` trees of a list.
pub open spec fn seq_nodes(ts: Seq<Tree>, n: nat) -> nat
    decreases ts, n,
{
    if n == 0 || n > ts.len() {
        0
    } else {
        seq_nodes(ts, (n - 1) as nat) + nodes(ts[n - 1])
    }
}

/// The number of instructions that a tree is lowered to.
pub open spec fn size(t: Tree) -> nat
    decreases t, 0nat,
{
    match t {
        Tree::Plus(e) => size(*e) + 1,
        Tree::Star(e) => size(*e) + 2,
        Tree::Question(e) => size(*e) + 1,
        Tree::Or(a, b) => size(*a) + size(*b) + 2,
        Tree::Sequence(ts) => seq_size(ts, ts.len()),
        Tree::Counter(e, _) => size(*e) + 3,
        Tree::Chapcher(e) => size(*e) + 2,
        _ => 1,
    }
}

/// The number of instructions that the first `n` trees of a list are lowered to.
pub open spec fn seq_size(ts: Seq<Tree>, n: nat) -> nat
    decreases ts, n,
{
    if n == 0 || n > ts.len() {
        0
    } else {
        seq_size(ts, (n - 1) as nat) + size(ts[n - 1])
    }
}

/// The number of counted repetitions in a tree: the registers that it needs.
pub open spec fn counters(t: Tree) -> nat
    decreases t, 0nat,
{
    match t {
        Tree::Plus(e) => counters(*e),
        Tree::Star(e) => counters(*e),
        Tree::Question(e) => counters(*e),
        Tree::Or(a, b) => counters(*a) + counters(*b),
        Tree::Sequence(ts) => seq_counters(ts, ts.len()),
        Tree::Counter(e, _) => counters(*e) + 1,
        Tree::Chapcher(e) => counters(*e),
        _ => 0,
    }
}

/// The number of counted repetitions in the first `n` trees of a list.
pub open spec fn seq_counters(ts: Seq<Tree>, n: nat) -> nat
    decreases ts, n,
{
    if n == 0 || n > ts.len() {
        0
    } else {
        seq_counters(ts, (n - 1) as nat) + counters(ts[n - 1])
    }
}

/// The number of capture groups in a tree: the slots that it needs.
pub open spec fn captures(t: Tree) -> nat
    decreases t, 0nat,
{
    match t {
        Tree::Plus(e) => captures(*e),
        Tree::Star(e) => captures(*e),
        Tree::Question(e) => captures(*e),
        Tree::Or(a, b) => captures(*a) + captures(*b),
        Tree::Sequence(ts) => seq_captures(ts, ts.len()),
        Tree::Counter(e, _) => captures(*e),
        Tree::Chapcher(e) => captures(*e) + 1,
        _ => 0,
    }
}

/// The number of capture groups in the first `n` trees of a list.
pub open spec fn seq_captures(ts: Seq<Tree>, n: nat) -> nat
    decreases ts, n,
{
    if n == 0 || n > ts.len() {
        0
    } else {
        seq_captures(ts, (n - 1) as nat) + captures(ts[n - 1])
    }
}

/// The repetition bound of a counted loop as the branch instruction carries it.
pub open spec fn bound_of(count: (usize, Option<usize>)) -> (i32, Option<i32>) {
    (
        count.0 as i32,
        match count.1 {
            Some(max) => Some(max as i32),
            None => None,
        },
    )
}

/// The branch of a construct without a repetition count.
pub open spec fn plain_split(first: int, second: int) -> Op {
    Op::Split(first as usize, second as usize, (-1i32, None), -1i32)
}

/// The instructions that a tree is lowered to when its first instruction
/// stands at address `pc`, `reg` is the first free register and `cap` the
/// first free capture slot. Registers and slots are given out in pre-order.
pub open spec fn code(t: Tree, pc: int, reg: int, cap: int) -> Seq<Op>
    decreases t, 0nat,
{
    match t {
        Tree::Char(c) => seq![Op::Char(c)],
        Tree::UnmatchChars(cs) => seq![Op::UnmatchChars(cs)],
        Tree::Caret => seq![Op::Caret],
        Tree::Doller => seq![Op::Doller],
        Tree::AnyNumber => seq![Op::AnyNumber],
        Tree::NotNumber => seq![Op::NotNumber],
        Tree::Sequence(ts) => seq_code(ts, ts.len(), pc, reg, cap),
        Tree::Or(a, b) => seq![plain_split(pc + 1, pc + size(*a) + 2)]
            + code(*a, pc + 1, reg, cap)
            + seq![Op::Jump((pc + size(*a) + size(*b) + 2) as usize)]
            + code(*b, pc + size(*a) + 2, reg + counters(*a), cap + captures(*a)),
        Tree::Question(e) => seq![plain_split(pc + 1, pc + size(*e) + 1)]
            + code(*e, pc + 1, reg, cap),
        Tree::Star(e) => seq![plain_split(pc + 1, pc + size(*e) + 2)]
            + code(*e, pc + 1, reg, cap)
            + seq![Op::Jump(pc as usize)],
        Tree::Plus(e) => code(*e, pc, reg, cap) + seq![plain_split(pc, pc + size(*e) + 1)],
        Tree::Counter(e, count) => seq![
            Op::Split((pc + 1) as usize, (pc + size(*e) + 3) as usize, bound_of(count), reg as i32),
            Op::Descrement(reg as usize),
        ] + code(*e, pc + 2, reg + 1, cap) + seq![Op::Jump(pc as usize)],
        Tree::Chapcher(e) => seq![Op::CapcherBegin(cap as i32)]
            + code(*e, pc + 1, reg, cap + 1)
            + seq![Op::CapcherEnd(cap as i32)],
    }
}

/// The instructions that the first `n` trees of a list are lowered to, one
/// tree after the other.
pub open spec fn seq_code(ts: Seq<Tree>, n: nat, pc: int, reg: int, cap: int) -> Seq<Op>
    decreases ts, n,
{
    if n == 0 || n > ts.len() {
        Seq::empty()
    } else {
        let m = (n - 1) as nat;
        seq_code(ts, m, pc, reg, cap) + code(
            ts[n - 1],
            pc + seq_size(ts, m),
            reg + seq_counters(ts, m),
            cap + seq_captures(ts, m),
        )
    }
}

/// The program of a pattern: its instructions from address 0, then `Match`.
pub open spec fn program(t: Tree) -> Seq<Op> {
    code(t, 0, 0, 0).push(Op::Match)
}

/// Whether the instructions of a tree, placed at `pc` with `reg` and `cap`
/// free, keep every address, register number and slot number in range.
pub open spec fn fits(t: Tree, pc: int, reg: int, cap: int) -> bool {
    &&& pc + size(t) <= usize::MAX
    &&& reg + counters(t) <= i32::MAX
    &&& cap + captures(t) <= i32::MAX
}

/// Whether a pattern can be lowered: its program, the final `Match` included,
/// has addresses, register numbers and slot numbers that fit their types.
pub open spec fn compiles(t: Tree) -> bool {
    &&& size(t) < usize::MAX
    &&& counters(t) <= i32::MAX
    &&& captures(t) <= i32::MAX
}

/// Prefixes of a list need no more instructions, registers and slots than
/// longer prefixes do.
pub proof fn lemma_seq_prefix_le(ts: Seq<Tree>, n: nat, m: nat)
    requires
        n <= m <= ts.len(),
    ensures
        seq_size(ts, n) <= seq_size(ts, m),
        seq_counters(ts, n) <= seq_counters(ts, m),
        seq_captures(ts, n) <= seq_captures(ts, m),
        seq_nodes(ts, n) <= seq_nodes(ts, m),
    decreases m,
{
    if n < m {
        lemma_seq_prefix_le(ts, n, (m - 1) as nat);
    }
}

/// The state of one lowering: the instructions emitted so far and the address
/// of the next one.
struct Generator {
    pc: usize,
    insts: Vec<Instruction>,
}

/// What lowering the tree `t` does to a generator: where everything stays in
/// range, the instructions of `t` are appended and the counters advance; else
/// lowering fails with `PCOverFlow`.
spec fn lowered(
    before: Generator,
    after: Generator,
    t: Tree,
    reg0: i32,
    reg1: i32,
    cap0: i32,
    cap1: i32,
    r: Result<(), CodeGenError>,
) -> bool {
    if fits(t, before.pc as int, reg0 as int, cap0 as int) {
        &&& r is Ok
        &&& after.wf()
        &&& ops(after.insts@) == ops(before.insts@) + code(
            t,
            before.pc as int,
            reg0 as int,
            cap0 as int,
        )
        &&& after.pc == before.pc + size(t)
        &&& reg1 == reg0 + counters(t)
        &&& cap1 == cap0 + captures(t)
    } else {
        r == Err::<(), CodeGenError>(CodeGenError::PCOverFlow)
    }
}

impl Generator {
    /// The next address is the number of instructions emitted.
    spec fn wf(&self) -> bool {
        self.pc == self.insts.len()
    }

    /// Lowers a whole pattern: the instructions of its tree, then `Match`.
    fn gen_code(&mut self, ast: &AST) -> (r: Result<(), CodeGenError>)
        requires
            old(self).pc == 0,
            old(self).insts@.len() == 0,
        ensures
            compiles(ast@) ==> r is Ok && ops(final(self).insts@) == program(ast@),
            !compiles(ast@) ==> r == Err::<(), CodeGenError>(CodeGenError::PCOverFlow),
    {
        let mut register_idx: i32 = 0;
        let mut register_match_str_idx: i32 = 0;
        self.gen_expr(ast, &mut register_idx, &mut register_match_str_idx)?;
        self.inc_pc()?;
        proof {
            lemma_ops_push(self.insts@, Instruction::Match);
        }
        self.insts.push(Instruction::Match);
        proof {
            assert(ops(self.insts@) =~= program(ast@));
        }
        Ok(())
    }

    /// Moves the next address on by one.
    fn inc_pc(&mut self) -> (r: Result<(), CodeGenError>)
        ensures
            final(self).insts == old(self).insts,
            old(self).pc < usize::MAX ==> r is Ok && final(self).pc == old(self).pc + 1,
            old(self).pc == usize::MAX ==> r == Err::<(), CodeGenError>(CodeGenError::PCOverFlow),
    {
        match self.pc.checked_add(1) {
            Some(next) => {
                self.pc = next;
                Ok(())
            },
            None => Err(CodeGenError::PCOverFlow),
        }
    }

    /// Lowers one tree, whatever its kind.
    fn gen_expr(
        &mut self,
        ast: &AST,
        register_idx: &mut i32,
        register_match_str_idx: &mut i32,
    ) -> (r: Result<(), CodeGenError>)
        requires
            old(self).wf(),
            *old(register_idx) >= 0,
            *old(register_match_str_idx) >= 0,
        ensures
            lowered(
                *old(self),
                *final(self),
                ast@,
                *old(register_idx),
                *final(register_idx),
                *old(register_match_str_idx),
                *final(register_match_str_idx),
                r,
            ),
        decreases nodes(ast@), 1nat,
    {
        match ast {
            AST::Char(c) => self.gen_char(*c)?,
            AST::UnmatchChars(c) => self.gen_unmacth_chars(copy_chars(c))?,
            AST::Or(e1, e2) => self.gen_or(e1, e2, register_idx, register_match_str_idx)?,
            AST::Plus(e) => self.gen_plus(e, register_idx, register_match_str_idx)?,
            AST::Star(e) => self.gen_star(e, register_idx, register_match_str_idx)?,
            AST::Question(e) => self.gen_question(e, register_idx, register_match_str_idx)?,
            AST::Sequence(v) => {
                proof {
                    lemma_sequence_view(*v);
                }
                self.gen_seq(v, register_idx, register_match_str_idx)?
            },
            AST::Caret => self.gen_caret()?,
            AST::Doller => self.gen_doller()?,
            AST::AnyNumber => self.get_number()?,
            AST::NotNumber => self.get_not_number()?,
            AST::Counter(e, count) => self.gen_counter(
                e,
                *count,
                register_idx,
                register_match_str_idx,
            )?,
            AST::Chapcher(e) => self.gen_capcher(e, register_idx, register_match_str_idx)?,
        }
        Ok(())
    }

    /// Lowers a sequence: its trees one after the other.
    #[verifier::rlimit(60)]
    fn gen_seq(
        &mut self,
        exprs: &Vec<AST>,
        register_idx: &mut i32,
        register_match_str_idx: &mut i32,
    ) -> (r: Result<(), CodeGenError>)
        requires
            old(self).wf(),
            *old(register_idx) >= 0,
            *old(register_match_str_idx) >= 0,
        ensures
            lowered(
                *old(self),
                *final(self),
                Tree::Sequence(trees(exprs@)),
                *old(register_idx),
                *final(register_idx),
                *old(register_match_str_idx),
                *final(register_match_str_idx),
                r,
            ),
        decreases 1 + seq_nodes(trees(exprs@), exprs@.len()), 0nat,
    {
        let ghost ts = trees(exprs@);
        let ghost pc0 = self.pc as int;
        let ghost reg0 = *register_idx as int;
        let ghost cap0 = *register_match_str_idx as int;
        let mut i: usize = 0;
        proof {
            assert(ops(self.insts@) + seq_code(ts, 0, pc0, reg0, cap0) =~= ops(self.insts@));
        }
        while i < exprs.len()
            invariant
                i <= exprs.len(),
                ts == trees(exprs@),
                ts.len() == exprs.len(),
                pc0 == old(self).pc,
                reg0 == *old(register_idx),
                cap0 == *old(register_match_str_idx),
                reg0 >= 0,
                cap0 >= 0,
                self.wf(),
                ops(self.insts@) == ops(old(self).insts@) + seq_code(ts, i as nat, pc0, reg0, cap0),
                self.pc == pc0 + seq_size(ts, i as nat),
                *register_idx == reg0 + seq_counters(ts, i as nat),
                *register_match_str_idx == cap0 + seq_captures(ts, i as nat),
            decreases exprs.len() - i,
        {
            proof {
                lemma_seq_prefix_le(ts, (i + 1) as nat, ts.len());
            }
            self.gen_expr(&exprs[i], register_idx, register_match_str_idx)?;
            proof {
                assert(ops(self.insts@) =~= ops(old(self).insts@) + seq_code(
                    ts,
                    (i + 1) as nat,
                    pc0,
                    reg0,
                    cap0,
                ));
            }
            i = i + 1;
        }
        Ok(())
    }

    /// Emits the instruction that consumes a digit.
    fn get_number(&mut self) -> (r: Result<(), CodeGenError>)
        requires
            old(self).wf(),
        ensures
            lowered(*old(self), *final(self), Tree::AnyNumber, 0, 0, 0, 0, r),
    {
        let inst = Instruction::AnyNumber;
        proof {
            lemma_ops_push(self.insts@, inst);
        }
        self.insts.push(inst);
        self.inc_pc()?;
        Ok(())
    }

    /// Emits the instruction that consumes what is no digit.
    fn get_not_number(&mut self) -> (r: Result<(), CodeGenError>)
        requires
            old(self).wf(),
        ensures
            lowered(*old(self), *final(self), Tree::NotNumber, 0, 0, 0, 0, r),
    {
        let inst = Instruction::NotNumber;
        proof {
            lemma_ops_push(self.insts@, inst);
        }
        self.insts.push(inst);
        self.inc_pc()?;
        Ok(())
    }

    /// Emits the instruction that consumes one character.
    fn gen_char(&mut self, c: char) -> (r: Result<(), CodeGenError>)
        requires
            old(self).wf(),
        ensures
            lowered(*old(self), *final(self), Tree::Char(c), 0, 0, 0, 0, r),
    {
        let inst = Instruction::Char(c);
        proof {
            lemma_ops_push(self.insts@, inst);
        }
        self.insts.push(inst);
        self.inc_pc()?;
        Ok(())
    }

    /// Emits the instruction that consumes a character outside a set.
    fn gen_unmacth_chars(&mut self, c: Vec<char>) -> (r: Result<(), CodeGenError>)
        requires
            old(self).wf(),
        ensures
            lowered(*old(self), *final(self), Tree::UnmatchChars(c@), 0, 0, 0, 0, r),
    {
        let inst = Instruction::UnmatchChars(c);
        proof {
            lemma_ops_push(self.insts@, inst);
        }
        self.insts.push(inst);
        self.inc_pc()?;
        Ok(())
    }

    /// Emits the start anchor.
    fn gen_caret(&mut self) -> (r: Result<(), CodeGenError>)
        requires
            old(self).wf(),
        ensures
            lowered(*old(self), *final(self), Tree::Caret, 0, 0, 0, 0, r),
    {
        let inst = Instruction::Caret;
        proof {
            lemma_ops_push(self.insts@, inst);
        }
        self.insts.push(inst);
        self.inc_pc()?;
        Ok(())
    }

    /// Emits the end anchor.
    fn gen_doller(&mut self) -> (r: Result<(), CodeGenError>)
        requires
            old(self).wf(),
        ensures
            lowered(*old(self), *final(self), Tree::Doller, 0, 0, 0, 0, r),
    {
        let inst = Instruction::Doller;
        proof {
            lemma_ops_push(self.insts@, inst);
        }
        self.insts.push(inst);
        self.inc_pc()?;
        Ok(())
    }

    /// Sets the second target of the branch at `addr` to the next address.
    /// With `plain`, only a branch without a repetition count is accepted.
    /// Returns whether such a branch stood there.
    fn patch_split(&mut self, addr: usize, plain: bool) -> (done: bool)
        ensures
            final(self).pc == old(self).pc,
            final(self).insts@.len() == old(self).insts@.len(),
            done <==> addr < old(self).insts@.len() && (old(self).insts@[addr as int]@
                matches Op::Split(_, _, count, reg) && (plain ==> count == (-1i32, None::<i32>)
                && reg == -1)),
            done ==> (old(self).insts@[addr as int]@ matches Op::Split(first, _, count, reg)
                && ops(final(self).insts@) == ops(old(self).insts@).update(
                addr as int,
                Op::Split(first, old(self).pc, count, reg),
            )),
            !done ==> final(self).insts == old(self).insts,
    {
        if addr >= self.insts.len() {
            return false;
        }
        let found = match &self.insts[addr] {
            Instruction::Split(first, _, count, reg) => {
                if !plain || (count.0 == -1 && count.1.is_none() && *reg == -1) {
                    Some((*first, *count, *reg))
                } else {
                    None
                }
            },
            _ => None,
        };
        match found {
            Some((first, count, reg)) => {
                let inst = Instruction::Split(first, self.pc, count, reg);
                proof {
                    lemma_ops_update(self.insts@, addr as int, inst);
                }
                self.insts.set(addr, inst);
                true
            },
            None => false,
        }
    }

    /// Sets the target of the jump at `addr` to the next address. Returns
    /// whether a jump stood there.
    fn patch_jump(&mut self, addr: usize) -> (done: bool)
        ensures
            final(self).pc == old(self).pc,
            final(self).insts@.len() == old(self).insts@.len(),
            done <==> addr < old(self).insts@.len() && old(self).insts@[addr as int]@ is Jump,
            done ==> ops(final(self).insts@) == ops(old(self).insts@).update(
                addr as int,
                Op::Jump(old(self).pc),
            ),
            !done ==> final(self).insts == old(self).insts,
    {
        if addr >= self.insts.len() {
            return false;
        }
        let found = match &self.insts[addr] {
            Instruction::Jump(_) => true,
            _ => false,
        };
        if found {
            let inst = Instruction::Jump(self.pc);
            proof {
                lemma_ops_update(self.insts@, addr as int, inst);
            }
            self.insts.set(addr, inst);
        }
        found
    }

    /// Lowers an alternation: a branch to the first or the second alternative,
    /// and behind the first a jump over the second.
    #[verifier::rlimit(60)]
    fn gen_or(
        &mut self,
        e1: &AST,
        e2: &AST,
        register_idx: &mut i32,
        register_match_str_idx: &mut i32,
    ) -> (r: Result<(), CodeGenError>)
        requires
            old(self).wf(),
            *old(register_idx) >= 0,
            *old(register_match_str_idx) >= 0,
        ensures
            lowered(
                *old(self),
                *final(self),
                Tree::Or(Box::new(e1@), Box::new(e2@)),
                *old(register_idx),
                *final(register_idx),
                *old(register_match_str_idx),
                *final(register_match_str_idx),
                r,
            ),
        decreases 1 + nodes(e1@) + nodes(e2@), 0nat,
    {
        let ghost base = ops(self.insts@);
        let ghost pc0 = self.pc as int;
        let ghost reg0 = *register_idx as int;
        let ghost cap0 = *register_match_str_idx as int;

        // split L1, L2
        let split_addr = self.pc;
        self.inc_pc()?;
        let split = Instruction::Split(self.pc, 0, (-1, None), -1);
        proof {
            lemma_ops_push(self.insts@, split);
        }
        self.insts.push(split);

        // L1: the first alternative
        self.gen_expr(e1, register_idx, register_match_str_idx)?;

        // jump L3
        let jmp_addr = self.pc;
        proof {
            lemma_ops_push(self.insts@, Instruction::Jump(0));
        }
        self.insts.push(Instruction::Jump(0));
        self.inc_pc()?;

        // L2 is known now
        proof {
            assert(ops(self.insts@)[split_addr as int] == self.insts@[split_addr as int]@);
            assert(ops(self.insts@)[split_addr as int] == plain_split(pc0 + 1, 0));
        }
        if !self.patch_split(split_addr, true) {
            return Err(CodeGenError::FailOr);
        }
        // L2: the second alternative

        self.gen_expr(e2, register_idx, register_match_str_idx)?;

        // L3 is known now
        proof {
            assert(ops(self.insts@)[jmp_addr as int] == self.insts@[jmp_addr as int]@);
            assert(ops(self.insts@)[jmp_addr as int] == Op::Jump(0));
        }
        if !self.patch_jump(jmp_addr) {
            return Err(CodeGenError::FailOr);
        }
        proof {
            assert(ops(self.insts@) =~= base + code(
                Tree::Or(Box::new(e1@), Box::new(e2@)),
                pc0,
                reg0,
                cap0,
            ));
        }
        Ok(())
    }

    /// Lowers an optional part: a branch into the part or past it.
    #[verifier::rlimit(60)]
    fn gen_question(
        &mut self,
        e: &AST,
        register_idx: &mut i32,
        register_match_str_idx: &mut i32,
    ) -> (r: Result<(), CodeGenError>)
        requires
            old(self).wf(),
            *old(register_idx) >= 0,
            *old(register_match_str_idx) >= 0,
        ensures
            lowered(
                *old(self),
                *final(self),
                Tree::Question(Box::new(e@)),
                *old(register_idx),
                *final(register_idx),
                *old(register_match_str_idx),
                *final(register_match_str_idx),
                r,
            ),
        decreases 1 + nodes(e@), 0nat,
    {
        let ghost base = ops(self.insts@);
        let ghost pc0 = self.pc as int;
        let ghost reg0 = *register_idx as int;
        let ghost cap0 = *register_match_str_idx as int;

        // split L1, L2
        let split_addr = self.pc;
        self.inc_pc()?;
        let split = Instruction::Split(self.pc, 0, (-1, None), -1);
        proof {
            lemma_ops_push(self.insts@, split);
        }
        self.insts.push(split);

        // L1: the optional part
        self.gen_expr(e, register_idx, register_match_str_idx)?;

        // L2 is known now
        proof {
            assert(ops(self.insts@)[split_addr as int] == self.insts@[split_addr as int]@);
            assert(ops(self.insts@)[split_addr as int] == plain_split(pc0 + 1, 0));
        }
        if self.patch_split(split_addr, true) {
            proof {
                assert(ops(self.insts@) =~= base + code(
                    Tree::Question(Box::new(e@)),
                    pc0,
                    reg0,
                    cap0,
                ));
            }
            Ok(())
        } else {
            Err(CodeGenError::FailQuestion)
        }
    }

    /// Lowers a repetition of one or more: the part, then a branch back to
    /// its start or on.
    fn gen_plus(
        &mut self,
        e: &AST,
        register_idx: &mut i32,
        register_match_str_idx: &mut i32,
    ) -> (r: Result<(), CodeGenError>)
        requires
            old(self).wf(),
            *old(register_idx) >= 0,
            *old(register_match_str_idx) >= 0,
        ensures
            lowered(
                *old(self),
                *final(self),
                Tree::Plus(Box::new(e@)),
                *old(register_idx),
                *final(register_idx),
                *old(register_match_str_idx),
                *final(register_match_str_idx),
                r,
            ),
        decreases 1 + nodes(e@), 0nat,
    {
        let ghost base = ops(self.insts@);
        let ghost pc0 = self.pc as int;
        let ghost reg0 = *register_idx as int;
        let ghost cap0 = *register_match_str_idx as int;

        // L1: the repeated part
        let l1 = self.pc;
        self.gen_expr(e, register_idx, register_match_str_idx)?;

        // split L1, L2
        self.inc_pc()?;
        let split = Instruction::Split(l1, self.pc, (-1, None), -1);
        proof {
            lemma_ops_push(self.insts@, split);
        }
        self.insts.push(split);
        proof {
            assert(ops(self.insts@) =~= base + code(
                Tree::Plus(Box::new(e@)),
                pc0,
                reg0,
                cap0,
            ));
        }
        Ok(())
    }

    /// Lowers a repetition of zero or more: a branch into the part or past
    /// the loop, and behind the part a jump back to the branch.
    #[verifier::rlimit(60)]
    fn gen_star(
        &mut self,
        e: &AST,
        register_idx: &mut i32,
        register_match_str_idx: &mut i32,
    ) -> (r: Result<(), CodeGenError>)
        requires
            old(self).wf(),
            *old(register_idx) >= 0,
            *old(register_match_str_idx) >= 0,
        ensures
            lowered(
                *old(self),
                *final(self),
                Tree::Star(Box::new(e@)),
                *old(register_idx),
                *final(register_idx),
                *old(register_match_str_idx),
                *final(register_match_str_idx),
                r,
            ),
        decreases 1 + nodes(e@), 0nat,
    {
        let ghost base = ops(self.insts@);
        let ghost pc0 = self.pc as int;
        let ghost reg0 = *register_idx as int;
        let ghost cap0 = *register_match_str_idx as int;

        // L1: split L2, L3
        let l1 = self.pc;
        self.inc_pc()?;
        let split = Instruction::Split(self.pc, 0, (-1, None), -1);
        proof {
            lemma_ops_push(self.insts@, split);
        }
        self.insts.push(split);

        // L2: the repeated part
        self.gen_expr(e, register_idx, register_match_str_idx)?;

        // jump L1
        self.inc_pc()?;
        proof {
            lemma_ops_push(self.insts@, Instruction::Jump(l1));
        }
        self.insts.push(Instruction::Jump(l1));

        // L3 is known now
        proof {
            assert(ops(self.insts@)[l1 as int] == self.insts@[l1 as int]@);
            assert(ops(self.insts@)[l1 as int] is Split);
        }
        if self.patch_split(l1, false) {
            proof {
                assert(ops(self.insts@) =~= base + code(
                    Tree::Star(Box::new(e@)),
                    pc0,
                    reg0,
                    cap0,
                ));
            }
            Ok(())
        } else {
            Err(CodeGenError::FailStar)
        }
    }

    /// Lowers a counted repetition: the loop of a repetition of zero or
    /// more, its branch tied to a fresh register, and a count-down before the
    /// part.
    #[verifier::rlimit(60)]
    fn gen_counter(
        &mut self,
        e: &AST,
        count: (usize, Option<usize>),
        register_idx: &mut i32,
        register_match_str_idx: &mut i32,
    ) -> (r: Result<(), CodeGenError>)
        requires
            old(self).wf(),
            *old(register_idx) >= 0,
            *old(register_match_str_idx) >= 0,
        ensures
            lowered(
                *old(self),
                *final(self),
                Tree::Counter(Box::new(e@), count),
                *old(register_idx),
                *final(register_idx),
                *old(register_match_str_idx),
                *final(register_match_str_idx),
                r,
            ),
        decreases 1 + nodes(e@), 0nat,
    {
        let ghost base = ops(self.insts@);
        let ghost pc0 = self.pc as int;
        let ghost reg0 = *register_idx as int;
        let ghost cap0 = *register_match_str_idx as int;

        // L1: split L2, L3
        let l1 = self.pc;
        self.inc_pc()?;
        let bound = (
            #[verifier::truncate]
            (count.0 as i32),
            match count.1 {
                Some(max) => Some(
                    #[verifier::truncate]
                    (max as i32),
                ),
                None => None,
            },
        );
        let split = Instruction::Split(self.pc, 0, bound, *register_idx);
        proof {
            lemma_ops_push(self.insts@, split);
        }
        self.insts.push(split);
        let decrement = Instruction::Descrement(*register_idx as usize);
        if *register_idx == i32::MAX {
            return Err(CodeGenError::PCOverFlow);
        }
        *register_idx = *register_idx + 1;
        proof {
            lemma_ops_push(self.insts@, decrement);
        }
        self.insts.push(decrement);
        self.inc_pc()?;

        // L2: the repeated part
        self.gen_expr(e, register_idx, register_match_str_idx)?;

        // jump L1
        self.inc_pc()?;
        proof {
            lemma_ops_push(self.insts@, Instruction::Jump(l1));
        }
        self.insts.push(Instruction::Jump(l1));

        // L3 is known now
        proof {
            assert(ops(self.insts@)[l1 as int] == self.insts@[l1 as int]@);
            assert(ops(self.insts@)[l1 as int] is Split);
        }
        if self.patch_split(l1, false) {
            proof {
                assert(ops(self.insts@) =~= base + code(
                    Tree::Counter(Box::new(e@), count),
                    pc0,
                    reg0,
                    cap0,
                ));
            }
            Ok(())
        } else {
            Err(CodeGenError::FailCounter)
        }
    }

    /// Lowers a capture group: the part between the opening and the closing
    /// of a fresh slot.
    #[verifier::rlimit(60)]
    fn gen_capcher(
        &mut self,
        e: &AST,
        register_idx: &mut i32,
        register_match_str_idx: &mut i32,
    ) -> (r: Result<(), CodeGenError>)
        requires
            old(self).wf(),
            *old(register_idx) >= 0,
            *old(register_match_str_idx) >= 0,
        ensures
            lowered(
                *old(self),
                *final(self),
                Tree::Chapcher(Box::new(e@)),
                *old(register_idx),
                *final(register_idx),
                *old(register_match_str_idx),
                *final(register_match_str_idx),
                r,
            ),
        decreases 1 + nodes(e@), 0nat,
    {
        let ghost base = ops(self.insts@);
        let ghost pc0 = self.pc as int;
        let ghost reg0 = *register_idx as int;
        let ghost cap0 = *register_match_str_idx as int;

        let idx = *register_match_str_idx;
        let inst = Instruction::CapcherBegin(idx);
        if *register_match_str_idx == i32::MAX {
            return Err(CodeGenError::PCOverFlow);
        }
        *register_match_str_idx = *register_match_str_idx + 1;
        proof {
            lemma_ops_push(self.insts@, inst);
        }
        self.insts.push(inst);
        self.inc_pc()?;

        self.gen_expr(e, register_idx, register_match_str_idx)?;
        self.inc_pc()?;
        let inst = Instruction::CapcherEnd(idx);
        proof {
            lemma_ops_push(self.insts@, inst);
        }
        self.insts.push(inst);
        proof {
            assert(ops(self.insts@) =~= base + code(
                Tree::Chapcher(Box::new(e@)),
                pc0,
                reg0,
                cap0,
            ));
        }
        Ok(())
    }
}

/// Lowers a syntax tree into its program.
pub fn get_code(ast: &AST) -> (r: Result<Vec<Instruction>, CodeGenError>)
    ensures
        compiles(ast@) ==> (r matches Ok(insts) && ops(insts@) == program(ast@)),
        !compiles(ast@) ==> r matches Err(CodeGenError::PCOverFlow),
{
    let mut generator = Generator { pc: 0, insts: Vec::new() };
    match generator.gen_code(ast) {
        Ok(()) => Ok(generator.insts),
        Err(e) => Err(e),
    }
}

} // verus!
