//! Peephole rewrites that put the IR into a shape a native backend compiles
//! well: strength reduction, folding of literal operands, and removal of
//! operations that cancel out.
use vstd::prelude::*;
use crate::optimizer::ir::{ForthIR, Instruction, WordDef, effect_fits, seq_effect, copy_instructions, rebuild_word, words_instruction_total};
use crate::optimizer::error::OptimizerError;
use crate::optimizer::semantics::{run, exec_instr, lemma_run_one, lemma_run_two, lemma_run_three, lemma_run_append, lemma_run_replace};
use crate::optimizer::arith::{trunc_div, wrapping_div, wrapping_neg, wrapping_abs, spec_wrapping_div, spec_wrapping_neg, spec_wrapping_abs};

verus! {

/// Counters of the rewrites performed.
#[derive(Debug, Default, Clone, Copy)]
pub struct PeepholeStats {
    pub strength_reductions: usize,
    pub constant_folds: usize,
    pub comparison_chains: usize,
    pub dead_stores: usize,
    pub total_passes: usize,
}

/// 2 to the power `k`.
pub open spec fn two_pow(k: nat) -> int
    decreases k,
{
    if k == 0 { 1 } else { 2 * two_pow((k - 1) as nat) }
}

/// `n` is a positive power of two.
pub open spec fn spec_is_pow2(n: i64) -> bool {
    exists|k: nat| k < 63 && two_pow(k) == n
}

/// The exponent `k` with `2^k == n`, for a power of two `n`.
pub open spec fn log2_of(n: i64) -> u32 {
    (choose|k: nat| k < 63 && two_pow(k) == n) as u32
}

proof fn lemma_two_pow_strict(a: nat, b: nat)
    requires
        a < b,
    ensures
        two_pow(a) < two_pow(b),
    decreases b,
{
    lemma_two_pow_pos(a);
    if b > a + 1 {
        lemma_two_pow_strict(a, (b - 1) as nat);
    }
}

proof fn lemma_two_pow_is_pow2(k: nat)
    ensures
        two_pow(k) == vstd::arithmetic::power2::pow2(k),
    decreases k,
{
    if k > 0 {
        lemma_two_pow_is_pow2((k - 1) as nat);
        vstd::arithmetic::power2::lemma_pow2_unfold(k);
    } else {
        vstd::arithmetic::power2::lemma2_to64();
    }
}

proof fn lemma_two_pow_pos(a: nat)
    ensures
        two_pow(a) >= 1,
    decreases a,
{
    if a > 0 {
        lemma_two_pow_pos((a - 1) as nat);
    }
}

/// The exponent of `n` when it is a power of two below `2^63`.
pub fn exact_log2(n: i64) -> (r: Option<u32>)
    ensures
        r is Some <==> spec_is_pow2(n),
        r matches Some(k) ==> k == log2_of(n) && k < 63 && two_pow(k as nat) == n,
{
    let mut p: i64 = 1;
    let mut k: u32 = 0;
    while k < 63
        invariant
            k <= 63,
            k < 63 ==> p == two_pow(k as nat),
            forall|j: nat| j < k ==> two_pow(j) != n,
        decreases 63 - k,
    {
        if n == p {
            proof {
                let c = choose|j: nat| j < 63 && two_pow(j) == n;
                if c < k { lemma_two_pow_strict(c, k as nat); }
                if c > k { lemma_two_pow_strict(k as nat, c); }
            }
            return Some(k);
        }
        if k < 62 {
            proof {
                if k < 61 { lemma_two_pow_strict(k as nat, 61); }
                lemma_two_pow_is_pow2(61);
                vstd::arithmetic::power2::lemma2_to64_rest();
                assert(two_pow(61) == 0x2000_0000_0000_0000);
                assert(p <= two_pow(61));
                lemma_two_pow_pos(k as nat);
                assert(0 < p <= 0x2000_0000_0000_0000);
            }
            p = p * 2;
        }
        k = k + 1;
    }
    None
}

/// Whether `n` is a power of two.
pub fn is_power_of_2(n: i64) -> (r: bool)
    ensures
        r == spec_is_pow2(n),
{
    exact_log2(n).is_some()
}

/// Strength reduction from position `i`: the rewritten sequence and the number of rewrites.
pub open spec fn strength_from(s: Seq<Instruction>, i: int) -> (Seq<Instruction>, nat)
    decreases 2 * s.len() - i,
{
    if i < 0 || i + 1 >= s.len() {
        (s, 0)
    } else {
        match (s[i], s[i + 1]) {
            (Instruction::Literal(n), Instruction::Mul) if spec_is_pow2(n) => {
                let r = strength_from(s.update(i, Instruction::Literal(log2_of(n) as i64)).update(i + 1, Instruction::Shl), i + 1);
                (r.0, r.1 + 1)
            },
            (Instruction::Literal(n), Instruction::Div) if spec_is_pow2(n) && n > 0 => {
                let r = strength_from(s.update(i, Instruction::Literal(log2_of(n) as i64)).update(i + 1, Instruction::Shr), i + 1);
                (r.0, r.1 + 1)
            },
            (Instruction::Literal(1), Instruction::Add) => {
                let r = strength_from(s.take(i).push(Instruction::IncOne) + s.skip(i + 2), i);
                (r.0, r.1 + 1)
            },
            (Instruction::Literal(1), Instruction::Sub) => {
                let r = strength_from(s.take(i).push(Instruction::DecOne) + s.skip(i + 2), i);
                (r.0, r.1 + 1)
            },
            _ => strength_from(s, i + 1),
        }
    }
}

/// The literal result of folding a pair of literals with a binary operation, if it folds.
pub open spec fn fold_pair(a: i64, b: i64, op: Instruction) -> Option<i64> {
    match op {
        Instruction::Add => Some(a.wrapping_add(b)),
        Instruction::Sub => Some(a.wrapping_sub(b)),
        Instruction::Mul => Some(a.wrapping_mul(b)),
        Instruction::Div => if b != 0 { Some(spec_wrapping_div(a, b)) } else { None },
        Instruction::And => Some(a & b),
        Instruction::Or => Some(a | b),
        Instruction::Xor => Some(a ^ b),
        Instruction::Shl => if 0 <= b < 64 { Some(a.wrapping_shl(b as u32)) } else { None },
        Instruction::Shr => if 0 <= b < 64 { Some(a.wrapping_shr(b as u32)) } else { None },
        _ => None,
    }
}

/// The literal result of a unary operation on a literal, if it folds.
pub open spec fn fold_single(a: i64, op: Instruction) -> Option<i64> {
    match op {
        Instruction::Neg => Some(spec_wrapping_neg(a)),
        Instruction::Abs => Some(spec_wrapping_abs(a)),
        Instruction::Not => Some(!a),
        _ => None,
    }
}

/// Literal folding from position `i`: rewrites `a b op` and `a op` into one literal.
/// Only positions with at least two instructions after them are examined.
pub open spec fn fold_from(s: Seq<Instruction>, i: int) -> (Seq<Instruction>, nat)
    decreases 2 * s.len() - i,
{
    if i < 0 || i + 2 >= s.len() {
        (s, 0)
    } else if s[i] is Literal && s[i + 1] is Literal
        && fold_pair(s[i]->Literal_0, s[i + 1]->Literal_0, s[i + 2]) is Some {
        let v = fold_pair(s[i]->Literal_0, s[i + 1]->Literal_0, s[i + 2])->Some_0;
        let r = fold_from(s.take(i).push(Instruction::Literal(v)) + s.skip(i + 3), i);
        (r.0, r.1 + 1)
    } else if s[i] is Literal && fold_single(s[i]->Literal_0, s[i + 1]) is Some {
        let v = fold_single(s[i]->Literal_0, s[i + 1])->Some_0;
        let r = fold_from(s.take(i).push(Instruction::Literal(v)) + s.skip(i + 2), i);
        (r.0, r.1 + 1)
    } else {
        fold_from(s, i + 1)
    }
}

/// The pair at `i` cancels out: `dup drop`, `literal drop` or `swap swap`.
pub open spec fn cancels(a: Instruction, b: Instruction) -> bool {
    (a is Dup && b is Drop) || (a is Literal && b is Drop) || (a is Swap && b is Swap)
}

/// Removal of cancelling pairs from position `i`.
pub open spec fn dead_from(s: Seq<Instruction>, i: int) -> (Seq<Instruction>, nat)
    decreases 2 * s.len() - i,
{
    if i < 0 || i + 1 >= s.len() {
        (s, 0)
    } else if cancels(s[i], s[i + 1]) {
        let r = dead_from(s.take(i) + s.skip(i + 2), i);
        (r.0, r.1 + 1)
    } else {
        dead_from(s, i + 1)
    }
}

/// The counts of one round: strength reductions, literal folds, removed pairs.
pub struct RoundCounts {
    pub strength: nat,
    pub folds: nat,
    pub dead: nat,
}

/// One round of the rewrites: strength reduction, literal folding, then removal of cancelling pairs.
pub open spec fn peephole_round(s: Seq<Instruction>) -> (Seq<Instruction>, RoundCounts) {
    let a = strength_from(s, 0);
    let b = fold_from(a.0, 0);
    let c = dead_from(b.0, 0);
    (c.0, RoundCounts { strength: a.1, folds: b.1, dead: c.1 })
}

/// Up to `k` rounds, stopping after a round that changed nothing.
pub open spec fn peephole_rounds(s: Seq<Instruction>, k: nat) -> (Seq<Instruction>, RoundCounts)
    decreases k,
{
    if k == 0 {
        (s, RoundCounts { strength: 0, folds: 0, dead: 0 })
    } else {
        let r = peephole_round(s);
        if r.1.strength + r.1.folds + r.1.dead == 0 {
            r
        } else {
            let rest = peephole_rounds(r.0, (k - 1) as nat);
            (rest.0, RoundCounts {
                strength: r.1.strength + rest.1.strength,
                folds: r.1.folds + rest.1.folds,
                dead: r.1.dead + rest.1.dead,
            })
        }
    }
}

/// The peephole result for one sequence: at most five rounds.
pub open spec fn spec_peephole(s: Seq<Instruction>) -> Seq<Instruction> {
    peephole_rounds(s, 5).0
}

/// The rewrite counts for one sequence.
pub open spec fn peephole_counts(s: Seq<Instruction>) -> RoundCounts {
    peephole_rounds(s, 5).1
}

/// Sum of a count over the top-level sequence and the first `n` words.
pub open spec fn total_counts(main: Seq<Instruction>, ws: Seq<WordDef>) -> RoundCounts
    decreases ws.len(),
{
    if ws.len() == 0 {
        peephole_counts(main)
    } else {
        let a = total_counts(main, ws.drop_last());
        let b = peephole_counts(ws.last().instructions@);
        RoundCounts { strength: a.strength + b.strength, folds: a.folds + b.folds, dead: a.dead + b.dead }
    }
}

/// Peephole optimizer for a native backend.
pub struct CraneliftPeephole {
    pub stats: PeepholeStats,
}

impl CraneliftPeephole {
    pub fn new() -> (r: Self)
        ensures
            r.stats.strength_reductions == 0,
            r.stats.constant_folds == 0,
            r.stats.comparison_chains == 0,
            r.stats.dead_stores == 0,
            r.stats.total_passes == 0,
    {
        CraneliftPeephole {
            stats: PeepholeStats {
                strength_reductions: 0,
                constant_folds: 0,
                comparison_chains: 0,
                dead_stores: 0,
                total_passes: 0,
            },
        }
    }

    /// The rewrite counters.
    pub fn stats(&self) -> (r: &PeepholeStats)
        ensures
            *r == self.stats,
    {
        &self.stats
    }

    /// Applies the rewrites to the top-level sequence and to every word,
    /// recomputing each word's stack effect and cost.
    pub fn optimize(&mut self, ir: &ForthIR) -> (r: Result<ForthIR, OptimizerError>)
        requires
            old(self).stats.total_passes < usize::MAX,
            old(self).stats.strength_reductions + total_counts(ir.main@, ir.words@).strength <= usize::MAX,
            old(self).stats.constant_folds + total_counts(ir.main@, ir.words@).folds <= usize::MAX,
            old(self).stats.dead_stores + total_counts(ir.main@, ir.words@).dead <= usize::MAX,
        ensures
            r is Ok <==> forall|i: int| 0 <= i < ir.words@.len() ==> effect_fits(#[trigger] spec_peephole(ir.words@[i].instructions@)),
            r matches Err(e) ==> e is InvalidStackEffect,
            r matches Ok(out) ==> {
                &&& out.main@ == spec_peephole(ir.main@)
                &&& out.words@.len() == ir.words@.len()
                &&& forall|i: int| 0 <= i < ir.words@.len() ==> {
                    &&& (#[trigger] out.words@[i]).name == ir.words@[i].name
                    &&& out.words@[i].instructions@ == spec_peephole(ir.words@[i].instructions@)
                    &&& out.words@[i].is_inline == ir.words@[i].is_inline
                    &&& out.words@[i].stack_effect == seq_effect(out.words@[i].instructions@)
                    &&& out.words@[i].cost == out.words@[i].instructions@.len()
                }
            },
            final(self).stats.total_passes == old(self).stats.total_passes + 1,
            r is Ok ==> final(self).stats.strength_reductions == old(self).stats.strength_reductions + total_counts(ir.main@, ir.words@).strength,
            r is Ok ==> final(self).stats.constant_folds == old(self).stats.constant_folds + total_counts(ir.main@, ir.words@).folds,
            r is Ok ==> final(self).stats.dead_stores == old(self).stats.dead_stores + total_counts(ir.main@, ir.words@).dead,
            final(self).stats.comparison_chains == old(self).stats.comparison_chains,
            r is Ok ==> optimized_once(*old(self), *ir, *final(self)),
    {
        let mut optimized = ir.duplicate();
        self.stats.total_passes = self.stats.total_passes + 1;
        proof { lemma_total_counts_prefix(ir.main@, ir.words@, 0); }
        self.optimize_instructions(&mut optimized.main);
        let mut i: usize = 0;
        let n = optimized.words.len();
        let ghost s0 = old(self).stats;
        let mut failure: Option<OptimizerError> = None;
        while i < n && failure.is_none()
            invariant
                failure matches Some(e) ==> e is InvalidStackEffect && i < n
                    && !effect_fits(spec_peephole(ir.words@[i as int].instructions@)),
                n == ir.words@.len(),
                n == optimized.words@.len(),
                i <= n,
                optimized.main@ == spec_peephole(ir.main@),
                forall|j: int| 0 <= j < i ==> effect_fits(#[trigger] spec_peephole(ir.words@[j].instructions@)),
                forall|j: int| 0 <= j < i ==> {
                    &&& (#[trigger] optimized.words@[j]).name == ir.words@[j].name
                    &&& optimized.words@[j].instructions@ == spec_peephole(ir.words@[j].instructions@)
                    &&& optimized.words@[j].is_inline == ir.words@[j].is_inline
                    &&& optimized.words@[j].stack_effect == seq_effect(optimized.words@[j].instructions@)
                    &&& optimized.words@[j].cost == optimized.words@[j].instructions@.len()
                },
                forall|j: int| i <= j < n ==> {
                    &&& (#[trigger] optimized.words@[j]).name == ir.words@[j].name
                    &&& optimized.words@[j].instructions@ == ir.words@[j].instructions@
                    &&& optimized.words@[j].is_inline == ir.words@[j].is_inline
                },
                self.stats.total_passes == s0.total_passes + 1,
                self.stats.comparison_chains == s0.comparison_chains,
                failure is None ==> self.stats.strength_reductions == s0.strength_reductions + total_counts(ir.main@, ir.words@.take(i as int)).strength,
                failure is None ==> self.stats.constant_folds == s0.constant_folds + total_counts(ir.main@, ir.words@.take(i as int)).folds,
                failure is None ==> self.stats.dead_stores == s0.dead_stores + total_counts(ir.main@, ir.words@.take(i as int)).dead,
                s0.strength_reductions + total_counts(ir.main@, ir.words@).strength <= usize::MAX,
                s0.constant_folds + total_counts(ir.main@, ir.words@).folds <= usize::MAX,
                s0.dead_stores + total_counts(ir.main@, ir.words@).dead <= usize::MAX,
            decreases n - i + (if failure is None { 1int } else { 0int }),
        {
            proof {
                assert(ir.words@.take(i + 1).drop_last() =~= ir.words@.take(i as int));
                lemma_total_counts_prefix(ir.main@, ir.words@, i + 1);
            }
            let mut instructions = copy_instructions(&optimized.words[i].instructions);
            self.optimize_instructions(&mut instructions);
            match rebuild_word(&optimized.words[i], instructions) {
                Ok(w) => {
                    optimized.words.set(i, w);
                },
                Err(e) => {
                    failure = Some(e);
                },
            }
            if failure.is_none() {
                i = i + 1;
            }
        }
        if let Some(e) = failure {
            return Err(e);
        }
        assert(ir.words@.take(n as int) =~= ir.words@);
        Ok(optimized)
    }

    /// Applies up to five rounds of the rewrites to one sequence.
    pub fn optimize_instructions(&mut self, instructions: &mut Vec<Instruction>)
        requires
            old(self).stats.strength_reductions + peephole_counts(old(instructions)@).strength <= usize::MAX,
            old(self).stats.constant_folds + peephole_counts(old(instructions)@).folds <= usize::MAX,
            old(self).stats.dead_stores + peephole_counts(old(instructions)@).dead <= usize::MAX,
        ensures
            final(instructions)@ == spec_peephole(old(instructions)@),
            final(self).stats.strength_reductions == old(self).stats.strength_reductions + peephole_counts(old(instructions)@).strength,
            final(self).stats.constant_folds == old(self).stats.constant_folds + peephole_counts(old(instructions)@).folds,
            final(self).stats.dead_stores == old(self).stats.dead_stores + peephole_counts(old(instructions)@).dead,
            final(self).stats.comparison_chains == old(self).stats.comparison_chains,
            final(self).stats.total_passes == old(self).stats.total_passes,
    {
        let ghost orig = instructions@;
        let ghost s0 = self.stats;
        let mut changed = true;
        let mut iterations: usize = 0;
        while changed && iterations < 5
            invariant
                iterations <= 5,
                changed ==> peephole_rounds(orig, 5) == ({
                    let r = peephole_rounds(instructions@, (5 - iterations) as nat);
                    (r.0, RoundCounts {
                        strength: (self.stats.strength_reductions - s0.strength_reductions + r.1.strength) as nat,
                        folds: (self.stats.constant_folds - s0.constant_folds + r.1.folds) as nat,
                        dead: (self.stats.dead_stores - s0.dead_stores + r.1.dead) as nat,
                    })
                }),
                !changed ==> peephole_rounds(orig, 5) == (instructions@, RoundCounts {
                        strength: (self.stats.strength_reductions - s0.strength_reductions) as nat,
                        folds: (self.stats.constant_folds - s0.constant_folds) as nat,
                        dead: (self.stats.dead_stores - s0.dead_stores) as nat,
                    }),
                self.stats.strength_reductions >= s0.strength_reductions,
                self.stats.constant_folds >= s0.constant_folds,
                self.stats.dead_stores >= s0.dead_stores,
                s0.strength_reductions + peephole_rounds(orig, 5).1.strength <= usize::MAX,
                s0.constant_folds + peephole_rounds(orig, 5).1.folds <= usize::MAX,
                s0.dead_stores + peephole_rounds(orig, 5).1.dead <= usize::MAX,
                self.stats.comparison_chains == s0.comparison_chains,
                self.stats.total_passes == s0.total_passes,
            decreases 5 - iterations,
        {
            let ghost before = instructions@;
            let ghost st = self.stats;
            let ghost rest = peephole_rounds(before, (5 - iterations) as nat);
            proof {
                let r = peephole_round(before);
                let more = peephole_rounds(r.0, (5 - iterations - 1) as nat);
                lemma_rounds_counts_nonneg(r.0, (5 - iterations - 1) as nat);
            }
            let c1 = self.strength_reduction(instructions);
            let c2 = self.fold_constants(instructions);
            let c3 = self.chain_comparisons(instructions);
            let c4 = self.eliminate_dead_stores(instructions);
            changed = c1 || c2 || c3 || c4;
            iterations = iterations + 1;
        }
        proof {
            if changed {
                assert(iterations == 5);
                assert(peephole_rounds(instructions@, 0).1.strength == 0);
            }
        }
    }

    /// Applies the rewrites to one word and recomputes its stack effect and cost.
    pub fn optimize_word(&mut self, word: &mut WordDef) -> (r: Result<(), OptimizerError>)
        requires
            effect_fits(spec_peephole(old(word).instructions@)),
            old(self).stats.strength_reductions + peephole_counts(old(word).instructions@).strength <= usize::MAX,
            old(self).stats.constant_folds + peephole_counts(old(word).instructions@).folds <= usize::MAX,
            old(self).stats.dead_stores + peephole_counts(old(word).instructions@).dead <= usize::MAX,
        ensures
            final(word).name == old(word).name,
            final(word).is_inline == old(word).is_inline,
            final(word).instructions@ == spec_peephole(old(word).instructions@),
            final(word).stack_effect == seq_effect(final(word).instructions@),
            final(word).cost == final(word).instructions@.len(),
            final(self).stats.strength_reductions == old(self).stats.strength_reductions + peephole_counts(old(word).instructions@).strength,
            final(self).stats.constant_folds == old(self).stats.constant_folds + peephole_counts(old(word).instructions@).folds,
            final(self).stats.dead_stores == old(self).stats.dead_stores + peephole_counts(old(word).instructions@).dead,
            final(self).stats.comparison_chains == old(self).stats.comparison_chains,
            final(self).stats.total_passes == old(self).stats.total_passes,
            r is Ok,
    {
        self.optimize_instructions(&mut word.instructions);
        word.update();
        Ok(())
    }

    /// Strength reduction: multiplications and divisions by powers of two become
    /// shifts, and adding or subtracting 1 becomes an increment or decrement.
    pub fn strength_reduction(&mut self, instructions: &mut Vec<Instruction>) -> (changed: bool)
        requires
            old(self).stats.strength_reductions + strength_from(old(instructions)@, 0).1 <= usize::MAX,
        ensures
            final(instructions)@ == strength_from(old(instructions)@, 0).0,
            final(self).stats.strength_reductions == old(self).stats.strength_reductions + strength_from(old(instructions)@, 0).1,
            changed == (strength_from(old(instructions)@, 0).1 > 0),
            final(self).stats.constant_folds == old(self).stats.constant_folds,
            final(self).stats.dead_stores == old(self).stats.dead_stores,
            final(self).stats.comparison_chains == old(self).stats.comparison_chains,
            final(self).stats.total_passes == old(self).stats.total_passes,
    {
        let ghost orig = instructions@;
        let ghost base = self.stats.strength_reductions;
        let mut changed = false;
        let mut i: usize = 0;
        while instructions.len() > 1 && i < instructions.len() - 1
            invariant
                strength_from(orig, 0) == ({
                    let r = strength_from(instructions@, i as int);
                    (r.0, (self.stats.strength_reductions - base + r.1) as nat)
                }),
                self.stats.strength_reductions >= base,
                base + strength_from(orig, 0).1 <= usize::MAX,
                changed == (self.stats.strength_reductions > base),
                self.stats.constant_folds == old(self).stats.constant_folds,
                self.stats.dead_stores == old(self).stats.dead_stores,
                self.stats.comparison_chains == old(self).stats.comparison_chains,
                self.stats.total_passes == old(self).stats.total_passes,
            decreases 2 * instructions@.len() - i,
        {
            let ghost cur = instructions@;
            proof { lemma_strength_count_nonneg(cur, i as int); }
            let pair = (instructions[i].as_constant(), &instructions[i + 1]);
            match pair {
                (Some(n), Instruction::Mul) if exact_log2(n).is_some() => {
                    let k = exact_log2(n).unwrap();
                    proof { lemma_strength_count_nonneg(cur.update(i as int, Instruction::Literal(k as i64)).update(i + 1, Instruction::Shl), i + 1); }
                    instructions.set(i, Instruction::Literal(k as i64));
                    instructions.set(i + 1, Instruction::Shl);
                    self.stats.strength_reductions = self.stats.strength_reductions + 1;
                    changed = true;
                }
                (Some(n), Instruction::Div) if n > 0 && exact_log2(n).is_some() => {
                    let k = exact_log2(n).unwrap();
                    proof { lemma_strength_count_nonneg(cur.update(i as int, Instruction::Literal(k as i64)).update(i + 1, Instruction::Shr), i + 1); }
                    instructions.set(i, Instruction::Literal(k as i64));
                    instructions.set(i + 1, Instruction::Shr);
                    self.stats.strength_reductions = self.stats.strength_reductions + 1;
                    changed = true;
                }
                (Some(1), Instruction::Add) => {
                    proof { lemma_strength_count_nonneg(cur.take(i as int).push(Instruction::IncOne) + cur.skip(i + 2), i as int); }
                    instructions.remove(i + 1);
                    instructions.set(i, Instruction::IncOne);
                    assert(instructions@ =~= cur.take(i as int).push(Instruction::IncOne) + cur.skip(i + 2));
                    self.stats.strength_reductions = self.stats.strength_reductions + 1;
                    changed = true;
                    continue;
                }
                (Some(1), Instruction::Sub) => {
                    proof { lemma_strength_count_nonneg(cur.take(i as int).push(Instruction::DecOne) + cur.skip(i + 2), i as int); }
                    instructions.remove(i + 1);
                    instructions.set(i, Instruction::DecOne);
                    assert(instructions@ =~= cur.take(i as int).push(Instruction::DecOne) + cur.skip(i + 2));
                    self.stats.strength_reductions = self.stats.strength_reductions + 1;
                    changed = true;
                    continue;
                }
                _ => {}
            }
            i = i + 1;
        }
        changed
    }

    /// Folds `literal literal op` and `literal op` into a single literal.
    pub fn fold_constants(&mut self, instructions: &mut Vec<Instruction>) -> (changed: bool)
        requires
            old(self).stats.constant_folds + fold_from(old(instructions)@, 0).1 <= usize::MAX,
        ensures
            final(instructions)@ == fold_from(old(instructions)@, 0).0,
            final(self).stats.constant_folds == old(self).stats.constant_folds + fold_from(old(instructions)@, 0).1,
            changed == (fold_from(old(instructions)@, 0).1 > 0),
            final(self).stats.strength_reductions == old(self).stats.strength_reductions,
            final(self).stats.dead_stores == old(self).stats.dead_stores,
            final(self).stats.comparison_chains == old(self).stats.comparison_chains,
            final(self).stats.total_passes == old(self).stats.total_passes,
    {
        let ghost orig = instructions@;
        let ghost base = self.stats.constant_folds;
        let mut changed = false;
        let mut i: usize = 0;
        while instructions.len() > 2 && i < instructions.len() - 2
            invariant
                fold_from(orig, 0) == ({
                    let r = fold_from(instructions@, i as int);
                    (r.0, (self.stats.constant_folds - base + r.1) as nat)
                }),
                self.stats.constant_folds >= base,
                base + fold_from(orig, 0).1 <= usize::MAX,
                changed == (self.stats.constant_folds > base),
                self.stats.strength_reductions == old(self).stats.strength_reductions,
                self.stats.dead_stores == old(self).stats.dead_stores,
                self.stats.comparison_chains == old(self).stats.comparison_chains,
                self.stats.total_passes == old(self).stats.total_passes,
            decreases 2 * instructions@.len() - i,
        {
            let ghost cur = instructions@;
            proof { lemma_fold_count_nonneg(cur, i as int); }
            let a = instructions[i].as_constant();
            let b = instructions[i + 1].as_constant();
            let mut folded: Option<i64> = None;
            if let (Some(av), Some(bv)) = (a, b) {
                folded = fold_literal_pair(av, bv, &instructions[i + 2]);
            }
            if let Some(v) = folded {
                proof { lemma_fold_count_nonneg(cur.take(i as int).push(Instruction::Literal(v)) + cur.skip(i + 3), i as int); }
                instructions.remove(i + 2);
                instructions.remove(i + 1);
                instructions.set(i, Instruction::Literal(v));
                assert(instructions@ =~= cur.take(i as int).push(Instruction::Literal(v)) + cur.skip(i + 3));
                self.stats.constant_folds = self.stats.constant_folds + 1;
                changed = true;
                continue;
            }
            let mut single: Option<i64> = None;
            if let Some(av) = a {
                single = fold_literal_single(av, &instructions[i + 1]);
            }
            if let Some(v) = single {
                proof { lemma_fold_count_nonneg(cur.take(i as int).push(Instruction::Literal(v)) + cur.skip(i + 2), i as int); }
                instructions.remove(i + 1);
                instructions.set(i, Instruction::Literal(v));
                assert(instructions@ =~= cur.take(i as int).push(Instruction::Literal(v)) + cur.skip(i + 2));
                self.stats.constant_folds = self.stats.constant_folds + 1;
                changed = true;
                continue;
            }
            i = i + 1;
        }
        changed
    }

    /// Comparison chaining: recognizes no pattern yet and changes nothing.
    pub fn chain_comparisons(&mut self, instructions: &mut Vec<Instruction>) -> (changed: bool)
        ensures
            !changed,
            final(instructions)@ == old(instructions)@,
            final(self).stats == old(self).stats,
    {
        false
    }

    /// Removes `dup drop`, `literal drop` and `swap swap`.
    pub fn eliminate_dead_stores(&mut self, instructions: &mut Vec<Instruction>) -> (changed: bool)
        requires
            old(self).stats.dead_stores + dead_from(old(instructions)@, 0).1 <= usize::MAX,
        ensures
            final(instructions)@ == dead_from(old(instructions)@, 0).0,
            final(self).stats.dead_stores == old(self).stats.dead_stores + dead_from(old(instructions)@, 0).1,
            changed == (dead_from(old(instructions)@, 0).1 > 0),
            final(self).stats.strength_reductions == old(self).stats.strength_reductions,
            final(self).stats.constant_folds == old(self).stats.constant_folds,
            final(self).stats.comparison_chains == old(self).stats.comparison_chains,
            final(self).stats.total_passes == old(self).stats.total_passes,
    {
        let ghost orig = instructions@;
        let ghost base = self.stats.dead_stores;
        let mut changed = false;
        let mut i: usize = 0;
        while instructions.len() > 1 && i < instructions.len() - 1
            invariant
                dead_from(orig, 0) == ({
                    let r = dead_from(instructions@, i as int);
                    (r.0, (self.stats.dead_stores - base + r.1) as nat)
                }),
                self.stats.dead_stores >= base,
                base + dead_from(orig, 0).1 <= usize::MAX,
                changed == (self.stats.dead_stores > base),
                self.stats.strength_reductions == old(self).stats.strength_reductions,
                self.stats.constant_folds == old(self).stats.constant_folds,
                self.stats.comparison_chains == old(self).stats.comparison_chains,
                self.stats.total_passes == old(self).stats.total_passes,
            decreases 2 * instructions@.len() - i,
        {
            let ghost cur = instructions@;
            proof { lemma_dead_count_nonneg(cur, i as int); }
            let cancel = match (&instructions[i], &instructions[i + 1]) {
                (Instruction::Dup, Instruction::Drop) => true,
                (Instruction::Literal(_), Instruction::Drop) => true,
                (Instruction::Swap, Instruction::Swap) => true,
                _ => false,
            };
            if cancel {
                proof { lemma_dead_count_nonneg(cur.take(i as int) + cur.skip(i + 2), i as int); }
                instructions.remove(i + 1);
                instructions.remove(i);
                assert(instructions@ =~= cur.take(i as int) + cur.skip(i + 2));
                self.stats.dead_stores = self.stats.dead_stores + 1;
                changed = true;
                continue;
            }
            i = i + 1;
        }
        changed
    }
}

/// The literal `a b op` folds to, if any.
pub fn fold_literal_pair(a: i64, b: i64, op: &Instruction) -> (r: Option<i64>)
    ensures
        r == fold_pair(a, b, *op),
{
    match op {
        Instruction::Add => Some(a.wrapping_add(b)),
        Instruction::Sub => Some(a.wrapping_sub(b)),
        Instruction::Mul => Some(a.wrapping_mul(b)),
        Instruction::Div => if b != 0 { Some(wrapping_div(a, b)) } else { None },
        Instruction::And => Some(a & b),
        Instruction::Or => Some(a | b),
        Instruction::Xor => Some(a ^ b),
        Instruction::Shl => if 0 <= b && b < 64 { Some(a.wrapping_shl(b as u32)) } else { None },
        Instruction::Shr => if 0 <= b && b < 64 { Some(a.wrapping_shr(b as u32)) } else { None },
        _ => None,
    }
}

/// The literal `a op` folds to, if any.
pub fn fold_literal_single(a: i64, op: &Instruction) -> (r: Option<i64>)
    ensures
        r == fold_single(a, *op),
{
    match op {
        Instruction::Neg => Some(wrapping_neg(a)),
        Instruction::Abs => Some(wrapping_abs(a)),
        Instruction::Not => Some(!a),
        _ => None,
    }
}

proof fn lemma_strength_count_nonneg(s: Seq<Instruction>, i: int)
    ensures
        strength_from(s, i).1 >= 0,
{
}

proof fn lemma_fold_count_nonneg(s: Seq<Instruction>, i: int)
    ensures
        fold_from(s, i).1 >= 0,
{
}

proof fn lemma_dead_count_nonneg(s: Seq<Instruction>, i: int)
    ensures
        dead_from(s, i).1 >= 0,
{
}

proof fn lemma_rounds_counts_nonneg(s: Seq<Instruction>, k: nat)
    ensures
        peephole_rounds(s, k).1.strength >= 0,
{
}

/// The counts over a prefix of the words never exceed the counts over all of them.
proof fn lemma_total_counts_prefix(main: Seq<Instruction>, ws: Seq<WordDef>, k: int)
    requires
        0 <= k <= ws.len(),
    ensures
        total_counts(main, ws.take(k)).strength <= total_counts(main, ws).strength,
        total_counts(main, ws.take(k)).folds <= total_counts(main, ws).folds,
        total_counts(main, ws.take(k)).dead <= total_counts(main, ws).dead,
        total_counts(main, ws.take(0)) == peephole_counts(main),
    decreases ws.len() - k,
{
    assert(ws.take(0) =~= Seq::<WordDef>::empty());
    if k < ws.len() {
        lemma_total_counts_prefix(main, ws, k + 1);
        assert(ws.take(k + 1).drop_last() =~= ws.take(k));
    } else {
        assert(ws.take(k) =~= ws);
    }
}

proof fn lemma_strength_bound(s: Seq<Instruction>, i: int)
    requires
        0 <= i <= s.len(),
    ensures
        strength_from(s, i).1 + i <= 2 * s.len(),
        strength_from(s, i).0.len() <= s.len(),
    decreases 2 * s.len() - i,
{
    if i + 1 < s.len() {
        match (s[i], s[i + 1]) {
            (Instruction::Literal(n), Instruction::Mul) if spec_is_pow2(n) => {
                lemma_strength_bound(s.update(i, Instruction::Literal(log2_of(n) as i64)).update(i + 1, Instruction::Shl), i + 1);
            },
            (Instruction::Literal(n), Instruction::Div) if spec_is_pow2(n) && n > 0 => {
                lemma_strength_bound(s.update(i, Instruction::Literal(log2_of(n) as i64)).update(i + 1, Instruction::Shr), i + 1);
            },
            (Instruction::Literal(1), Instruction::Add) => {
                lemma_strength_bound(s.take(i).push(Instruction::IncOne) + s.skip(i + 2), i);
            },
            (Instruction::Literal(1), Instruction::Sub) => {
                lemma_strength_bound(s.take(i).push(Instruction::DecOne) + s.skip(i + 2), i);
            },
            _ => {
                lemma_strength_bound(s, i + 1);
            },
        }
    }
}

proof fn lemma_fold_bound(s: Seq<Instruction>, i: int)
    requires
        0 <= i <= s.len(),
    ensures
        fold_from(s, i).1 + i <= s.len(),
        fold_from(s, i).0.len() <= s.len(),
    decreases 2 * s.len() - i,
{
    if i + 2 < s.len() {
        if s[i] is Literal && s[i + 1] is Literal
            && fold_pair(s[i]->Literal_0, s[i + 1]->Literal_0, s[i + 2]) is Some {
            let v = fold_pair(s[i]->Literal_0, s[i + 1]->Literal_0, s[i + 2])->Some_0;
            lemma_fold_bound(s.take(i).push(Instruction::Literal(v)) + s.skip(i + 3), i);
        } else if s[i] is Literal && fold_single(s[i]->Literal_0, s[i + 1]) is Some {
            let v = fold_single(s[i]->Literal_0, s[i + 1])->Some_0;
            lemma_fold_bound(s.take(i).push(Instruction::Literal(v)) + s.skip(i + 2), i);
        } else {
            lemma_fold_bound(s, i + 1);
        }
    }
}

proof fn lemma_dead_bound(s: Seq<Instruction>, i: int)
    requires
        0 <= i <= s.len(),
    ensures
        dead_from(s, i).1 + i <= s.len(),
        dead_from(s, i).0.len() <= s.len(),
    decreases 2 * s.len() - i,
{
    if i + 1 < s.len() {
        if cancels(s[i], s[i + 1]) {
            lemma_dead_bound(s.take(i) + s.skip(i + 2), i);
        } else {
            lemma_dead_bound(s, i + 1);
        }
    }
}

/// Each of the counts of `k` rounds is at most `2 k` times the length of the sequence.
proof fn lemma_rounds_bound(s: Seq<Instruction>, k: nat)
    ensures
        peephole_rounds(s, k).1.strength <= 2 * k * s.len(),
        peephole_rounds(s, k).1.folds <= 2 * k * s.len(),
        peephole_rounds(s, k).1.dead <= 2 * k * s.len(),
    decreases k,
{
    if k > 0 {
        lemma_strength_bound(s, 0);
        let a = strength_from(s, 0);
        lemma_fold_bound(a.0, 0);
        let b = fold_from(a.0, 0);
        lemma_dead_bound(b.0, 0);
        let r = peephole_round(s);
        lemma_rounds_bound(r.0, (k - 1) as nat);
        assert(2 * (k - 1) * r.0.len() <= 2 * (k - 1) * s.len()) by (nonlinear_arith)
            requires r.0.len() <= s.len(), k >= 1;
        assert(2 * k * s.len() == 2 * s.len() + 2 * (k - 1) * s.len()) by (nonlinear_arith);
    }
}

/// Each rewrite count over a program is at most ten times its number of instructions.
pub proof fn lemma_total_counts_bound(main: Seq<Instruction>, ws: Seq<WordDef>)
    ensures
        total_counts(main, ws).strength <= 10 * (main.len() + words_instruction_total(ws)),
        total_counts(main, ws).folds <= 10 * (main.len() + words_instruction_total(ws)),
        total_counts(main, ws).dead <= 10 * (main.len() + words_instruction_total(ws)),
    decreases ws.len(),
{
    if ws.len() == 0 {
        lemma_rounds_bound(main, 5);
        assert(words_instruction_total(ws) == 0);
    } else {
        lemma_total_counts_bound(main, ws.drop_last());
        lemma_rounds_bound(ws.last().instructions@, 5);
        assert(words_instruction_total(ws) == words_instruction_total(ws.drop_last()) + ws.last().instructions@.len());
        let a = total_counts(main, ws.drop_last());
        let b = peephole_counts(ws.last().instructions@);
        assert(b.strength <= 10 * ws.last().instructions@.len());
        assert(b.folds <= 10 * ws.last().instructions@.len());
        assert(b.dead <= 10 * ws.last().instructions@.len());
    }
}

impl Default for CraneliftPeephole {
    fn default() -> (r: Self)
        ensures
            r.stats.strength_reductions == 0,
            r.stats.constant_folds == 0,
            r.stats.comparison_chains == 0,
            r.stats.dead_stores == 0,
            r.stats.total_passes == 0,
    {
        CraneliftPeephole::new()
    }
}

/// The rewrites that the first `k` programs of `irs` count, added up.
pub open spec fn counts_of_runs(irs: Seq<ForthIR>, k: int) -> RoundCounts
    decreases k,
{
    if k <= 0 {
        RoundCounts { strength: 0, folds: 0, dead: 0 }
    } else {
        let a = counts_of_runs(irs, k - 1);
        let b = total_counts(irs[k - 1].main@, irs[k - 1].words@);
        RoundCounts { strength: a.strength + b.strength, folds: a.folds + b.folds, dead: a.dead + b.dead }
    }
}

/// One successful `optimize` of `ir` takes the optimizer from `a` to `b`.
pub open spec fn optimized_once(a: CraneliftPeephole, ir: ForthIR, b: CraneliftPeephole) -> bool {
    &&& b.stats.total_passes == a.stats.total_passes + 1
    &&& b.stats.strength_reductions == a.stats.strength_reductions + total_counts(ir.main@, ir.words@).strength
    &&& b.stats.constant_folds == a.stats.constant_folds + total_counts(ir.main@, ir.words@).folds
    &&& b.stats.dead_stores == a.stats.dead_stores + total_counts(ir.main@, ir.words@).dead
    &&& b.stats.comparison_chains == a.stats.comparison_chains
}

/// After `k` successful runs of a fresh optimizer on the programs `irs`, the
/// pass counter is `k`, each rewrite counter is the sum of what the runs
/// counted, and no comparison chain is counted.
pub proof fn law_stats_add_up(states: Seq<CraneliftPeephole>, irs: Seq<ForthIR>, k: int)
    requires
        0 <= k < states.len(),
        k <= irs.len(),
        states[0].stats.total_passes == 0,
        states[0].stats.strength_reductions == 0,
        states[0].stats.constant_folds == 0,
        states[0].stats.comparison_chains == 0,
        states[0].stats.dead_stores == 0,
        forall|i: int| 0 <= i < k ==> optimized_once(#[trigger] states[i], irs[i], states[i + 1]),
    ensures
        states[k].stats.total_passes == k,
        states[k].stats.strength_reductions == counts_of_runs(irs, k).strength,
        states[k].stats.constant_folds == counts_of_runs(irs, k).folds,
        states[k].stats.dead_stores == counts_of_runs(irs, k).dead,
        states[k].stats.comparison_chains == 0,
    decreases k,
{
    if k > 0 {
        law_stats_add_up(states, irs, k - 1);
        assert(optimized_once(states[k - 1], irs[k - 1], states[k]));
    }
}


/// Folding two literals and an operation gives the literal of the value
/// that the operation computes on them, on every stack.
pub proof fn law_pair_folds_keep_meaning(a: i64, b: i64, op: Instruction, st: Seq<i64>)
    requires
        fold_pair(a, b, op) is Some,
    ensures
        run(seq![Instruction::Literal(a), Instruction::Literal(b), op], st)
            == run(seq![Instruction::Literal(fold_pair(a, b, op)->0)], st),
{
    lemma_run_three(Instruction::Literal(a), Instruction::Literal(b), op, st);
    lemma_run_two(Instruction::Literal(a), Instruction::Literal(b), st);
    lemma_run_one(Instruction::Literal(fold_pair(a, b, op)->0), st);
    let t = st.push(a).push(b);
    assert(t.drop_last().drop_last() =~= st);
    assert(t[t.len() - 2] == a);
    if op is Shl || op is Shr {
        assert((b as u32) as int == b);
    }
}

/// Folding a literal and a one-cell operation gives the literal of its
/// value, on every stack.
pub proof fn law_single_folds_keep_meaning(a: i64, op: Instruction, st: Seq<i64>)
    requires
        fold_single(a, op) is Some,
    ensures
        run(seq![Instruction::Literal(a), op], st) == run(seq![Instruction::Literal(fold_single(a, op)->0)], st),
{
    lemma_run_two(Instruction::Literal(a), op, st);
    lemma_run_one(Instruction::Literal(fold_single(a, op)->0), st);
    assert(st.push(a).drop_last() =~= st);
}

/// A cancelling pair leaves the stack as it was, wherever it runs.
pub proof fn law_cancelling_pairs_keep_meaning(x: Instruction, y: Instruction, st: Seq<i64>)
    requires
        cancels(x, y),
        run(seq![x, y], st) is Some,
    ensures
        run(seq![x, y], st) == Some(st),
{
    lemma_run_two(x, y, st);
    let n = st.len();
    if x is Swap {
        let sw = st.drop_last().drop_last().push(st[n - 1]).push(st[n - 2]);
        assert(sw.drop_last().drop_last() =~= st.drop_last().drop_last());
        assert(sw.drop_last().drop_last().push(sw[n - 1]).push(sw[n - 2]) =~= st);
    } else {
        assert(exec_instr(x, st) matches Some(t) && t.drop_last() =~= st);
    }
}

/// Replacing one plus or one minus by an increment or a decrement keeps the
/// meaning, on every stack.
pub proof fn law_increments_keep_meaning(st: Seq<i64>)
    ensures
        run(seq![Instruction::Literal(1), Instruction::Add], st) == run(seq![Instruction::IncOne], st),
        run(seq![Instruction::Literal(1), Instruction::Sub], st) == run(seq![Instruction::DecOne], st),
{
    lemma_run_two(Instruction::Literal(1), Instruction::Add, st);
    lemma_run_two(Instruction::Literal(1), Instruction::Sub, st);
    lemma_run_one(Instruction::IncOne, st);
    lemma_run_one(Instruction::DecOne, st);
    if st.len() > 0 {
        assert(st.push(1).drop_last().drop_last() =~= st.drop_last());
    }
}

/// Literal folding keeps the meaning of a sequence: from any stack, the
/// folded sequence leaves the stack the unrewritten sequence leaves, and fails exactly
/// where it fails.
pub proof fn law_literal_folding_keeps_meaning(s: Seq<Instruction>, i: int, st: Seq<i64>)
    ensures
        run(fold_from(s, i).0, st) == run(s, st),
    decreases 2 * s.len() - i,
{
    if i < 0 || i + 2 >= s.len() {
    } else if s[i] is Literal && s[i + 1] is Literal && fold_pair(s[i]->Literal_0, s[i + 1]->Literal_0, s[i + 2]) is Some {
        let (a, b, op) = (s[i]->Literal_0, s[i + 1]->Literal_0, s[i + 2]);
        let v = fold_pair(a, b, op)->0;
        let s2 = s.take(i).push(Instruction::Literal(v)) + s.skip(i + 3);
        assert forall|t: Seq<i64>| run(seq![s[i], s[i + 1], s[i + 2]], t) == run(seq![Instruction::Literal(v)], t) by {
            law_pair_folds_keep_meaning(a, b, op, t);
        }
        assert(s =~= s.take(i) + seq![s[i], s[i + 1], s[i + 2]] + s.skip(i + 3));
        assert(s2 =~= s.take(i) + seq![Instruction::Literal(v)] + s.skip(i + 3));
        lemma_run_replace(s.take(i), seq![s[i], s[i + 1], s[i + 2]], seq![Instruction::Literal(v)], s.skip(i + 3), st);
        law_literal_folding_keeps_meaning(s2, i, st);
    } else if s[i] is Literal && fold_single(s[i]->Literal_0, s[i + 1]) is Some {
        let (a, op) = (s[i]->Literal_0, s[i + 1]);
        let v = fold_single(a, op)->0;
        let s2 = s.take(i).push(Instruction::Literal(v)) + s.skip(i + 2);
        assert forall|t: Seq<i64>| run(seq![s[i], s[i + 1]], t) == run(seq![Instruction::Literal(v)], t) by {
            law_single_folds_keep_meaning(a, op, t);
        }
        assert(s =~= s.take(i) + seq![s[i], s[i + 1]] + s.skip(i + 2));
        assert(s2 =~= s.take(i) + seq![Instruction::Literal(v)] + s.skip(i + 2));
        lemma_run_replace(s.take(i), seq![s[i], s[i + 1]], seq![Instruction::Literal(v)], s.skip(i + 2), st);
        law_literal_folding_keeps_meaning(s2, i, st);
    } else {
        law_literal_folding_keeps_meaning(s, i + 1, st);
    }
}

/// Removing cancelling pairs keeps the meaning of a sequence: from any
/// stack on which the sequence runs, what is left leaves the same stack.
pub proof fn law_pair_removal_keeps_meaning(s: Seq<Instruction>, i: int, st: Seq<i64>)
    requires
        run(s, st) is Some,
    ensures
        run(dead_from(s, i).0, st) == run(s, st),
    decreases 2 * s.len() - i,
{
    if i < 0 || i + 1 >= s.len() {
    } else if cancels(s[i], s[i + 1]) {
        let s2 = s.take(i) + s.skip(i + 2);
        let pair = seq![s[i], s[i + 1]];
        assert(s =~= s.take(i) + pair + s.skip(i + 2));
        lemma_run_append(s.take(i) + pair, s.skip(i + 2), st);
        lemma_run_append(s.take(i), pair, st);
        lemma_run_append(s.take(i), s.skip(i + 2), st);
        let t = run(s.take(i), st)->0;
        law_cancelling_pairs_keep_meaning(s[i], s[i + 1], t);
        law_pair_removal_keeps_meaning(s2, i, st);
    } else {
        law_pair_removal_keeps_meaning(s, i + 1, st);
    }
}


/// Doubling a wrapped product wraps the doubled product.
proof fn lemma_crop_double(y: int)
    ensures
        vstd::wrapping::i64_specs::signed_crop(2 * (vstd::wrapping::i64_specs::signed_crop(y) as int))
            == vstd::wrapping::i64_specs::signed_crop(2 * y),
{
    let m: int = 0x1_0000_0000_0000_0000;
    let c = vstd::wrapping::i64_specs::signed_crop(y) as int;
    assert(c == y % m || c == y % m - m);
    vstd::arithmetic::div_mod::lemma_fundamental_div_mod(y, m);
    vstd::arithmetic::div_mod::lemma_mod_multiples_vanish(2 * (y / m), 2 * c, m);
    vstd::arithmetic::div_mod::lemma_mod_multiples_vanish(-1, 2 * (y % m), m);
    assert(2 * y == m * (2 * (y / m)) + 2 * (y % m)) by (nonlinear_arith)
        requires y == m * (y / m) + y % m;
    vstd::arithmetic::div_mod::lemma_mod_multiples_vanish(2 * (y / m), 2 * (y % m), m);
    assert((m * (2 * (y / m)) + 2 * (y % m)) % m == (2 * (y % m)) % m);
    if c == y % m - m {
        assert(2 * c == m * (-2) + 2 * (y % m));
        vstd::arithmetic::div_mod::lemma_mod_multiples_vanish(-2, 2 * (y % m), m);
    }
}

/// Multiplying by two to the `k`, wrapped, is shifting left by `k`.
proof fn lemma_multiply_is_shift(a: i64, k: nat)
    requires
        k < 63,
    ensures
        two_pow(k) <= i64::MAX,
        a.wrapping_mul(two_pow(k) as i64) == a << (k as u32),
    decreases k,
{
    lemma_two_pow_is_pow2(k);
    vstd::arithmetic::power2::lemma2_to64();
    vstd::arithmetic::power2::lemma2_to64_rest();
    if k < 62 { lemma_two_pow_strict(k, 62); }
    if k == 0 {
        assert(a << 0u32 == a) by (bit_vector);
    } else {
        let j = (k - 1) as nat;
        lemma_multiply_is_shift(a, j);
        let x = a << (j as u32);
        let ju = j as u32;
        assert((a << ((ju + 1) as u32)) == ((a << ju) << 1u32)) by (bit_vector)
            requires ju < 62;
        crate::optimizer::superinstructions::lemma_shift_doubles(x);
        assert(x.wrapping_shl(1) == x << 1u32);
        lemma_crop_double(a * two_pow(j));
        assert(two_pow(k) == 2 * two_pow(j));
        assert(a * two_pow(k) == 2 * (a * two_pow(j))) by (nonlinear_arith)
            requires two_pow(k) == 2 * two_pow(j);
    }
}

/// Reducing a multiplication by a literal power of two to a shift left by
/// its exponent keeps the meaning, on every stack.
pub proof fn law_shift_for_multiply_keeps_meaning(n: i64, st: Seq<i64>)
    requires
        spec_is_pow2(n),
    ensures
        run(seq![Instruction::Literal(n), Instruction::Mul], st)
            == run(seq![Instruction::Literal(log2_of(n) as i64), Instruction::Shl], st),
{
    let k = choose|k: nat| k < 63 && two_pow(k) == n;
    assert(log2_of(n) == k as u32);
    lemma_run_two(Instruction::Literal(n), Instruction::Mul, st);
    lemma_run_two(Instruction::Literal(log2_of(n) as i64), Instruction::Shl, st);
    if st.len() > 0 {
        let a = st.last();
        lemma_multiply_is_shift(a, k);
        assert(((k as u32) as i64) as u32 == k as u32);
        assert(a.wrapping_shl(k as u32) == a << (k as u32));
        assert(st.push(n).drop_last().drop_last() =~= st.drop_last());
        assert(st.push(log2_of(n) as i64).drop_last().drop_last() =~= st.drop_last());
    }
}


/// Dividing by `c` and then by `d`, rounding down, is dividing by `c * d`.
proof fn lemma_floor_div_twice(a: int, c: int, d: int)
    requires
        c > 0,
        d > 0,
    ensures
        (a / c) / d == a / (c * d),
{
    let q1 = a / c;
    let r1 = a % c;
    let q2 = q1 / d;
    let r2 = q1 % d;
    vstd::arithmetic::div_mod::lemma_fundamental_div_mod(a, c);
    vstd::arithmetic::div_mod::lemma_fundamental_div_mod(q1, d);
    vstd::arithmetic::div_mod::lemma_mod_bound(a, c);
    vstd::arithmetic::div_mod::lemma_mod_bound(q1, d);
    assert(a == q2 * (c * d) + (c * r2 + r1) && 0 <= c * r2 + r1 < c * d) by (nonlinear_arith)
        requires
            a == c * q1 + r1,
            q1 == d * q2 + r2,
            0 <= r1 < c,
            0 <= r2 < d,
            c > 0,
            d > 0;
    vstd::arithmetic::div_mod::lemma_fundamental_div_mod_converse(a, c * d, q2, c * r2 + r1);
}

/// Shifting right by `k` divides by two to the `k`, rounding down.
proof fn lemma_shift_is_floor_div(a: i64, k: nat)
    requires
        k < 63,
    ensures
        (a >> (k as u32)) as int == (a as int) / two_pow(k),
    decreases k,
{
    lemma_two_pow_pos(k);
    if k == 0 {
        assert(a >> 0u32 == a) by (bit_vector);
    } else {
        let j = (k - 1) as nat;
        lemma_shift_is_floor_div(a, j);
        lemma_two_pow_pos(j);
        let x = a >> (j as u32);
        let ju = j as u32;
        assert((a >> ((ju + 1) as u32)) == ((a >> ju) >> 1u32)) by (bit_vector)
            requires ju < 62;
        assert((x >> 1u32) * 2 == x || (x >> 1u32) * 2 + 1 == x) by (bit_vector);
        assert((x >> 1u32) as int == (x as int) / 2);
        lemma_floor_div_twice(a as int, two_pow(j), 2);
        assert(two_pow(j) * 2 == two_pow(k));
    }
}

/// Reducing a division by a literal positive power of two to a shift right
/// by its exponent keeps the meaning, on every stack whose dividend is not
/// negative or is a multiple of the divisor; a shift rounds any other
/// negative quotient down, where division rounds it toward zero.
pub proof fn law_shift_for_divide_keeps_meaning(n: i64, st: Seq<i64>)
    requires
        spec_is_pow2(n),
        n > 0,
        st.len() > 0 ==> st.last() >= 0 || st.last() % n == 0,
    ensures
        run(seq![Instruction::Literal(n), Instruction::Div], st)
            == run(seq![Instruction::Literal(log2_of(n) as i64), Instruction::Shr], st),
{
    let k = choose|k: nat| k < 63 && two_pow(k) == n;
    assert(log2_of(n) == k as u32);
    lemma_run_two(Instruction::Literal(n), Instruction::Div, st);
    lemma_run_two(Instruction::Literal(log2_of(n) as i64), Instruction::Shr, st);
    if st.len() > 0 {
        let a = st.last();
        lemma_shift_is_floor_div(a, k);
        assert(((k as u32) as i64) as u32 == k as u32);
        assert(a.wrapping_shr(k as u32) == a >> (k as u32));
        let q = (a as int) / (n as int);
        vstd::arithmetic::div_mod::lemma_fundamental_div_mod(a as int, n as int);
        if a < 0 {
            assert(a % n == 0);
            assert(-(a as int) == (-q) * (n as int) + 0) by (nonlinear_arith)
                requires a as int == (n as int) * q + 0;
            vstd::arithmetic::div_mod::lemma_fundamental_div_mod_converse(-(a as int), n as int, -q, 0);
        }
        assert(trunc_div(a as int, n as int) == q);
        assert(st.push(n).drop_last().drop_last() =~= st.drop_last());
        assert(st.push(log2_of(n) as i64).drop_last().drop_last() =~= st.drop_last());
    }
}


/// The stack `o` reached before a division by `n` holds a dividend that a
/// shift divides as division does: one that is not negative or is a
/// multiple of `n`.
pub open spec fn exact_division(o: Option<Seq<i64>>, n: i64) -> bool {
    match o {
        Some(u) => u.len() > 0 ==> u.last() >= 0 || u.last() % n == 0,
        None => true,
    }
}

/// Every division by a literal positive power of two in `s` from position
/// `i` on, run from `st`, divides a dividend that a shift divides as
/// division does.
pub open spec fn shift_divisions_exact(s: Seq<Instruction>, i: int, st: Seq<i64>) -> bool {
    forall|p: int| #![trigger s[p], s[p + 1]] i <= p && p + 1 < s.len() && s[p] is Literal && spec_is_pow2(s[p]->Literal_0)
        && s[p]->Literal_0 > 0 && s[p + 1] == Instruction::Div
        ==> exact_division(run(s.take(p), st), s[p]->Literal_0)
}

/// The divisions after a rewrite of the pair at `i` into another pair of
/// the same meaning there, which is no division, are reached as before.
proof fn lemma_exact_after_pair(s: Seq<Instruction>, s2: Seq<Instruction>, i: int, st: Seq<i64>)
    requires
        0 <= i,
        i + 1 < s.len(),
        s2.len() == s.len(),
        s2.skip(i + 2) == s.skip(i + 2),
        !(s2[i + 1] is Literal),
        run(s2.take(i + 2), st) == run(s.take(i + 2), st),
        shift_divisions_exact(s, i, st),
    ensures
        shift_divisions_exact(s2, i + 1, st),
{
    assert forall|p: int| #![trigger s2[p], s2[p + 1]] i + 1 <= p && p + 1 < s2.len() && s2[p] is Literal
        && spec_is_pow2(s2[p]->Literal_0) && s2[p]->Literal_0 > 0 && s2[p + 1] == Instruction::Div
        implies exact_division(run(s2.take(p), st), s2[p]->Literal_0) by {
        assert(p >= i + 2);
        assert(s2[p] == s2.skip(i + 2)[p - i - 2] && s2[p + 1] == s2.skip(i + 2)[p + 1 - i - 2]);
        assert(s[p] == s.skip(i + 2)[p - i - 2] && s[p + 1] == s.skip(i + 2)[p + 1 - i - 2]);
        let mid = s.subrange(i + 2, p);
        assert(s.take(p) =~= s.take(i + 2) + mid);
        assert(s2.take(p) =~= s2.take(i + 2) + mid);
        lemma_run_append(s.take(i + 2), mid, st);
        lemma_run_append(s2.take(i + 2), mid, st);
    }
}

/// The divisions after a rewrite of the pair at `i` into one instruction of
/// the same meaning there, which is no literal, are reached as before.
proof fn lemma_exact_after_single(s: Seq<Instruction>, s2: Seq<Instruction>, i: int, st: Seq<i64>)
    requires
        0 <= i,
        i + 1 < s.len(),
        s2 == s.take(i).push(s2[i]) + s.skip(i + 2),
        !(s2[i] is Literal),
        run(s2.take(i + 1), st) == run(s.take(i + 2), st),
        shift_divisions_exact(s, i, st),
    ensures
        shift_divisions_exact(s2, i, st),
{
    assert forall|p: int| #![trigger s2[p], s2[p + 1]] i <= p && p + 1 < s2.len() && s2[p] is Literal
        && spec_is_pow2(s2[p]->Literal_0) && s2[p]->Literal_0 > 0 && s2[p + 1] == Instruction::Div
        implies exact_division(run(s2.take(p), st), s2[p]->Literal_0) by {
        assert(p > i);
        let q = p + 1;
        assert(s2[p] == s.skip(i + 2)[p - i - 1] && s2[p + 1] == s.skip(i + 2)[p - i]);
        assert(s[q] == s2[p] && s[q + 1] == s2[p + 1]);
        assert(exact_division(run(s.take(q), st), s[q]->Literal_0));
        let mid = s.subrange(i + 2, p + 1);
        assert(s.take(p + 1) =~= s.take(i + 2) + mid);
        assert(s2.take(p) =~= s2.take(i + 1) + mid);
        lemma_run_append(s.take(i + 2), mid, st);
        lemma_run_append(s2.take(i + 1), mid, st);
    }
}

/// Strength reduction keeps the meaning of a sequence: from any stack, the
/// reduced sequence leaves the stack the unrewritten sequence leaves, where every
/// division it turns into a shift divides exactly or a non-negative
/// dividend.
pub proof fn law_strength_reduction_keeps_meaning(s: Seq<Instruction>, i: int, st: Seq<i64>)
    requires
        0 <= i,
        shift_divisions_exact(s, i, st),
    ensures
        run(strength_from(s, i).0, st) == run(s, st),
    decreases 2 * s.len() - i,
{
    if i + 1 >= s.len() {
    } else {
        let rest = s.skip(i + 2);
        let pre = s.take(i);
        let pair = seq![s[i], s[i + 1]];
        assert(s =~= pre + pair + rest);
        assert(s.take(i + 2) =~= pre + pair);
        lemma_run_append(pre + pair, rest, st);
        match (s[i], s[i + 1]) {
            (Instruction::Literal(n), Instruction::Mul) if spec_is_pow2(n) => {
                let rep = seq![Instruction::Literal(log2_of(n) as i64), Instruction::Shl];
                let s2 = s.update(i, Instruction::Literal(log2_of(n) as i64)).update(i + 1, Instruction::Shl);
                assert(s2 =~= pre + rep + rest);
                assert(s2.take(i + 2) =~= pre + rep);
                assert(s2.skip(i + 2) =~= rest);
                lemma_run_append(pre + rep, rest, st);
                lemma_run_append(pre, pair, st);
                lemma_run_append(pre, rep, st);
                match run(pre, st) {
                    Some(t) => { law_shift_for_multiply_keeps_meaning(n, t); },
                    None => {},
                }
                lemma_exact_after_pair(s, s2, i, st);
                law_strength_reduction_keeps_meaning(s2, i + 1, st);
            },
            (Instruction::Literal(n), Instruction::Div) if spec_is_pow2(n) && n > 0 => {
                let rep = seq![Instruction::Literal(log2_of(n) as i64), Instruction::Shr];
                let s2 = s.update(i, Instruction::Literal(log2_of(n) as i64)).update(i + 1, Instruction::Shr);
                assert(s2 =~= pre + rep + rest);
                assert(s2.take(i + 2) =~= pre + rep);
                assert(s2.skip(i + 2) =~= rest);
                assert(exact_division(run(s.take(i), st), n));
                lemma_run_append(pre + rep, rest, st);
                lemma_run_append(pre, pair, st);
                lemma_run_append(pre, rep, st);
                match run(pre, st) {
                    Some(t) => { law_shift_for_divide_keeps_meaning(n, t); },
                    None => {},
                }
                lemma_exact_after_pair(s, s2, i, st);
                law_strength_reduction_keeps_meaning(s2, i + 1, st);
            },
            (Instruction::Literal(1), Instruction::Add) => {
                let rep = seq![Instruction::IncOne];
                let s2 = s.take(i).push(Instruction::IncOne) + s.skip(i + 2);
                assert(s2 =~= pre + rep + rest);
                assert(s2.take(i + 1) =~= pre + rep);
                assert(s2[i] == Instruction::IncOne);
                lemma_run_append(pre + rep, rest, st);
                lemma_run_append(pre, pair, st);
                lemma_run_append(pre, rep, st);
                match run(pre, st) {
                    Some(t) => { law_increments_keep_meaning(t); },
                    None => {},
                }
                lemma_exact_after_single(s, s2, i, st);
                law_strength_reduction_keeps_meaning(s2, i, st);
            },
            (Instruction::Literal(1), Instruction::Sub) => {
                let rep = seq![Instruction::DecOne];
                let s2 = s.take(i).push(Instruction::DecOne) + s.skip(i + 2);
                assert(s2 =~= pre + rep + rest);
                assert(s2.take(i + 1) =~= pre + rep);
                assert(s2[i] == Instruction::DecOne);
                lemma_run_append(pre + rep, rest, st);
                lemma_run_append(pre, pair, st);
                lemma_run_append(pre, rep, st);
                match run(pre, st) {
                    Some(t) => { law_increments_keep_meaning(t); },
                    None => {},
                }
                lemma_exact_after_single(s, s2, i, st);
                law_strength_reduction_keeps_meaning(s2, i, st);
            },
            _ => {
                law_strength_reduction_keeps_meaning(s, i + 1, st);
            },
        }
    }
}


/// Up to `k` rounds from `s`, every division that strength reduction turns
/// into a shift divides exactly or a non-negative dividend.
pub open spec fn rounds_divide_exactly(s: Seq<Instruction>, k: nat, st: Seq<i64>) -> bool
    decreases k,
{
    k == 0 || (shift_divisions_exact(s, 0, st) && {
        let r = peephole_round(s);
        r.1.strength + r.1.folds + r.1.dead == 0 || rounds_divide_exactly(r.0, (k - 1) as nat, st)
    })
}

/// One round of rewrites keeps the meaning of a sequence on every stack on
/// which it runs, where its divisions turned into shifts divide exactly or
/// a non-negative dividend.
pub proof fn law_round_keeps_meaning(s: Seq<Instruction>, st: Seq<i64>)
    requires
        run(s, st) is Some,
        shift_divisions_exact(s, 0, st),
    ensures
        run(peephole_round(s).0, st) == run(s, st),
{
    let a = strength_from(s, 0);
    law_strength_reduction_keeps_meaning(s, 0, st);
    let b = fold_from(a.0, 0);
    law_literal_folding_keeps_meaning(a.0, 0, st);
    law_pair_removal_keeps_meaning(b.0, 0, st);
}

/// The peephole rewrites keep the meaning of a sequence: from any stack on
/// which it runs, the rewritten sequence leaves the same stack, where every
/// division that a round turns into a shift divides exactly or a
/// non-negative dividend.
pub proof fn law_peephole_keeps_meaning(s: Seq<Instruction>, k: nat, st: Seq<i64>)
    requires
        run(s, st) is Some,
        rounds_divide_exactly(s, k, st),
    ensures
        run(peephole_rounds(s, k).0, st) == run(s, st),
    decreases k,
{
    if k > 0 {
        law_round_keeps_meaning(s, st);
        let r = peephole_round(s);
        if r.1.strength + r.1.folds + r.1.dead != 0 {
            law_peephole_keeps_meaning(r.0, (k - 1) as nat, st);
        }
    }
}

} // verus!
