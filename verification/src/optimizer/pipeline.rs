//! The optimization levels and the optimizer that runs the passes in order.
use vstd::prelude::*;
use crate::optimizer::error::OptimizerError;
use crate::optimizer::ir::{ForthIR, WordDef, Instruction, names_distinct, words_instruction_total, verify_outcome, programs_match, same_program, effect_fits};
use crate::optimizer::constant_fold::{ConstantFolder, spec_fold_sequence};
use crate::optimizer::cranelift_peephole::{CraneliftPeephole, PeepholeStats, spec_peephole, lemma_total_counts_bound};
use crate::optimizer::inline::{InlineOptimizer, inline_seq};
use crate::optimizer::superinstructions::{SuperinstructionOptimizer, spec_recognize};
use crate::optimizer::dead_code::{DeadCodeEliminator, spec_eliminate};
use crate::optimizer::memory_opt::{MemoryOptimizer, memory_outcome};
use crate::optimizer::stack_cache::{StackCacheOptimizer, spec_cache_sequence};
use crate::optimizer::specializer::{TypeSpecializer, SpecializationStats, profile_views, record_all,
    site_events, word_events, site_type_view, apply_sites, typed_sites, first_missing, lists_after, rewritten,
    words_rewritten, wd_views, add_views, all_specialized, specialize_fits, polymorphic_count, gen_counts,
    rewrite_count, words_rewrite_count, last_should, cost_total, spec_list};
use crate::optimizer::type_specialization::TypeInferenceResults;
use crate::optimizer::zero_cost::{ZeroCostOptimizer, ZeroCostConfig, words_mapped, words_kept, after_inline, inline_stage, unroll_safe, zero_cost_succeeds};

verus! {

/// How much optimization to apply; each level includes the ones before it.
#[derive(Debug, Clone, Copy, PartialEq, Eq, PartialOrd, Ord, Structural)]
pub enum OptimizationLevel {
    /// No optimizations.
    Unoptimized,
    /// Constant folding, peephole rewrites, superinstructions, dead code elimination.
    Basic,
    /// Adds inlining, memory optimization and stack caching.
    Standard,
    /// Adds the zero-cost abstraction pass and more inlining.
    Aggressive,
}

/// The position of a level in the order `Unoptimized < Basic < Standard < Aggressive`.
pub open spec fn level_rank(l: OptimizationLevel) -> u8 {
    match l {
        OptimizationLevel::Unoptimized => 0,
        OptimizationLevel::Basic => 1,
        OptimizationLevel::Standard => 2,
        OptimizationLevel::Aggressive => 3,
    }
}

impl OptimizationLevel {
    /// The position of this level in the order of levels.
    pub fn rank(&self) -> (r: u8)
        ensures
            r == level_rank(*self),
    {
        match self {
            OptimizationLevel::Unoptimized => 0,
            OptimizationLevel::Basic => 1,
            OptimizationLevel::Standard => 2,
            OptimizationLevel::Aggressive => 3,
        }
    }

    /// Whether this level includes `other`.
    pub fn at_least(&self, other: OptimizationLevel) -> (r: bool)
        ensures
            r == (level_rank(*self) >= level_rank(other)),
    {
        self.rank() >= other.rank()
    }
}

/// Constant folding: the top-level sequence folded, the words kept.
pub open spec fn rel_fold(a: ForthIR, b: ForthIR) -> bool {
    b.main@ == spec_fold_sequence(a.main@) && words_kept(b.words@, a.words@)
}

/// The zero-cost passes.
pub open spec fn rel_zero_cost(cfg: ZeroCostConfig, a: ForthIR, b: ForthIR) -> bool {
    &&& b.main@ == after_inline(cfg, inline_stage(cfg, a.words@, a.main@)->Some_0, true)
    &&& words_mapped(b.words@, a.words@, |s: Seq<crate::optimizer::ir::Instruction>| after_inline(cfg, inline_stage(cfg, a.words@, s)->Some_0, false))
}

/// The peephole rewrites.
pub open spec fn rel_peephole(a: ForthIR, b: ForthIR) -> bool {
    b.main@ == spec_peephole(a.main@) && words_mapped(b.words@, a.words@, |s: Seq<crate::optimizer::ir::Instruction>| spec_peephole(s))
}

/// Inlining with the inliner `o` (which changes nothing at level `Unoptimized`).
pub open spec fn rel_inline(o: InlineOptimizer, a: ForthIR, b: ForthIR) -> bool {
    if o.level == OptimizationLevel::Unoptimized {
        b.main@ == a.main@ && words_kept(b.words@, a.words@)
    } else {
        b.main@ == inline_seq(o, a, a.main@) && words_mapped(b.words@, a.words@, |s: Seq<crate::optimizer::ir::Instruction>| inline_seq(o, a, s))
    }
}

/// Superinstruction recognition.
pub open spec fn rel_recognize(a: ForthIR, b: ForthIR) -> bool {
    b.main@ == spec_recognize(a.main@) && words_mapped(b.words@, a.words@, |s: Seq<crate::optimizer::ir::Instruction>| spec_recognize(s))
}

/// Dead code elimination.
pub open spec fn rel_eliminate(a: ForthIR, b: ForthIR) -> bool {
    b.main@ == spec_eliminate(a.main@) && words_mapped(b.words@, a.words@, |s: Seq<crate::optimizer::ir::Instruction>| spec_eliminate(s))
}

/// The memory optimizer `m`.
pub open spec fn rel_memory(m: MemoryOptimizer, a: ForthIR, b: ForthIR) -> bool {
    &&& memory_outcome(m, a.main@, b.main@)
    &&& b.words@.len() == a.words@.len()
    &&& forall|i: int| 0 <= i < a.words@.len() ==> {
        &&& (#[trigger] b.words@[i]).name == a.words@[i].name
        &&& memory_outcome(m, a.words@[i].instructions@, b.words@[i].instructions@)
        &&& b.words@[i].is_inline == a.words@[i].is_inline
        &&& b.words@[i].stack_effect == crate::optimizer::ir::seq_effect(b.words@[i].instructions@)
        &&& b.words@[i].cost == b.words@[i].instructions@.len()
    }
}

/// Stack caching with `c` cached items.
pub open spec fn rel_cache(c: u8, a: ForthIR, b: ForthIR) -> bool {
    b.main@ == spec_cache_sequence(c, a.main@)
        && words_mapped(b.words@, a.words@, |s: Seq<crate::optimizer::ir::Instruction>| spec_cache_sequence(c, s))
}

/// The zero-cost pass where the level is aggressive, else nothing.
pub open spec fn zero_cost_step(o: Optimizer, ir: ForthIR, a0: ForthIR) -> bool {
    if level_rank(o.level) >= 3 { rel_zero_cost(o.zero_cost.config, ir, a0) } else { a0 == ir }
}

/// Folding from `a0` to `a1`, then the peephole rewrites from `a1` to `a2`.
pub open spec fn fold_peep_chain(a0: ForthIR, a1: ForthIR, a2: ForthIR) -> bool {
    rel_fold(a0, a1) && rel_peephole(a1, a2)
}

/// `a2` is what folding and the peephole rewrites make of `a0`.
pub open spec fn fold_peep(a0: ForthIR, a2: ForthIR) -> bool {
    exists|a1: ForthIR| #[trigger] fold_peep_chain(a0, a1, a2)
}

/// The first passes: zero-cost removal (aggressive), folding, peephole rewrites.
pub open spec fn front_chain(o: Optimizer, ir: ForthIR, a0: ForthIR, a1: ForthIR, a2: ForthIR) -> bool {
    &&& zero_cost_step(o, ir, a0)
    &&& fold_peep_chain(a0, a1, a2)
}

/// A successful type specialization run of `sp0` (leaving `sp1`) on `a`, with
/// the type information `ti`, giving `b`.
pub open spec fn specialize_step(sp0: TypeSpecializer, sp1: TypeSpecializer, ti: TypeInferenceResults, a: ForthIR, b: ForthIR) -> bool {
    let pvs = profile_views(sp1.profiles@);
    let cst = site_type_view(sp1.call_site_types@);
    let v = sp1.specializations@;
    let c = gen_counts(pvs);
    &&& sp1.wf()
    &&& pvs == record_all(profile_views(sp0.profiles@), site_events(a.main@, ti) + word_events(a.words@, ti))
    &&& cst == apply_sites(site_type_view(sp0.call_site_types@).union_prefer_right(typed_sites(a.main@, ti)), a.words@, ti)
    &&& first_missing(pvs, a.words@) is None
    &&& lists_after(sp0.specializations@, v, pvs, pvs.len() as int, a.words@)
    &&& sp1.stats.words_analyzed == sp0.stats.words_analyzed + a.words@.len()
    &&& sp1.stats.polymorphic_words == polymorphic_count(pvs)
    &&& sp1.stats.specializations_created == sp0.stats.specializations_created + c.0
    &&& sp1.stats.int_specializations == sp0.stats.int_specializations + c.1
    &&& sp1.stats.float_specializations == sp0.stats.float_specializations + c.2
    &&& sp1.stats.dispatch_eliminations == sp0.stats.dispatch_eliminations + c.3
    &&& sp1.stats.call_sites_rewritten == sp0.stats.call_sites_rewritten
        + rewrite_count(a.main@, cst, v) + words_rewrite_count(a.words@, cst, v)
    &&& match last_should(pvs) {
        Some(k) => sp1.stats.last_specialized_cost == cost_total(spec_list(v, pvs[k].0))
            && sp1.stats.last_specialization_count == spec_list(v, pvs[k].0).len(),
        None => sp1.stats.last_specialized_cost == sp0.stats.last_specialized_cost
            && sp1.stats.last_specialization_count == sp0.stats.last_specialization_count,
    }
    &&& b.wf()
    &&& rewritten(a.main@, cst, v, b.main@)
    &&& exists|ws: Seq<WordDef>| #[trigger] words_rewritten(a.words@, ws, cst, v)
        && wd_views(b.words@) == add_views(wd_views(ws), wd_views(all_specialized(v)))
}

/// The first passes with type specialization: zero-cost removal (aggressive),
/// type specialization (standard; the specializer is left as `sp1`), folding and
/// the peephole rewrites.
pub open spec fn typed_front_chain(o: Optimizer, sp1: TypeSpecializer, ti: TypeInferenceResults,
    ir: ForthIR, a0: ForthIR, b: ForthIR, a2: ForthIR) -> bool
{
    &&& zero_cost_step(o, ir, a0)
    &&& if level_rank(o.level) >= 2 { specialize_step(o.type_specializer, sp1, ti, a0, b) }
        else { b == a0 && sp1 == o.type_specializer }
    &&& fold_peep(b, a2)
}

/// `out` is what the passes with type specialization make of `ir`.
pub open spec fn typed_from(o: Optimizer, sp1: TypeSpecializer, ti: TypeInferenceResults, ir: ForthIR, out: ForthIR) -> bool {
    exists|a0: ForthIR, b: ForthIR, a2: ForthIR| #[trigger] typed_front_chain(o, sp1, ti, ir, a0, b, a2) && back_from(o, a2, out)
}

/// The specializer's counters can take the run on what the zero-cost pass makes of `ir`.
pub open spec fn types_fit(o: Optimizer, ir: ForthIR, ti: TypeInferenceResults) -> bool {
    &&& level_rank(o.level) == 2 ==> specialize_fits(o.type_specializer, ir, ti)
    &&& level_rank(o.level) >= 3 ==> forall|a0: ForthIR| #[trigger] rel_zero_cost(o.zero_cost.config, ir, a0)
        ==> specialize_fits(o.type_specializer, a0, ti)
}

/// The last passes: inlining (standard), superinstructions, dead code
/// elimination, memory optimization and stack caching (standard).
pub open spec fn back_chain(o: Optimizer, a2: ForthIR, a3: ForthIR, a4: ForthIR, a5: ForthIR, a6: ForthIR, out: ForthIR) -> bool {
    let standard = level_rank(o.level) >= 2;
    &&& if standard { rel_inline(o.inline, a2, a3) } else { a3 == a2 }
    &&& rel_recognize(a3, a4)
    &&& rel_eliminate(a4, a5)
    &&& if standard { rel_memory(o.memory_opt, a5, a6) } else { a6 == a5 }
    &&& if standard { rel_cache(o.stack_cache.cache_size, a6, out) } else { out == a6 }
}

/// `a2` is what the first passes make of `ir`.
pub open spec fn front_from(o: Optimizer, ir: ForthIR, a2: ForthIR) -> bool {
    exists|a0: ForthIR, a1: ForthIR| #[trigger] front_chain(o, ir, a0, a1, a2)
}

/// `out` is what the last passes make of `a2`.
pub open spec fn back_from(o: Optimizer, a2: ForthIR, out: ForthIR) -> bool {
    exists|a3: ForthIR, a4: ForthIR, a5: ForthIR, a6: ForthIR| #[trigger] back_chain(o, a2, a3, a4, a5, a6, out)
}

/// `out` is what the passes make of `ir`, through some program after the first passes.
pub open spec fn optimized_from(o: Optimizer, ir: ForthIR, out: ForthIR) -> bool {
    exists|a2: ForthIR| #[trigger] front_from(o, ir, a2) && back_from(o, a2, out)
}

/// One run of `optimize` by an optimizer with the settings of `o`, from `a` to `b`.
pub open spec fn opt_step(o: Optimizer, a: ForthIR, b: ForthIR) -> bool {
    if o.level == OptimizationLevel::Unoptimized {
        b == a
    } else {
        &&& optimized_from(o, a, b)
        &&& verify_outcome(b.main@, b.words@, Ok(()))
        &&& same_names(b.words@, a.words@)
    }
}

/// `p` is what `n` runs of `optimize` make of `ir`.
pub open spec fn reachable(o: Optimizer, ir: ForthIR, p: ForthIR, n: nat) -> bool
    decreases n,
{
    if n == 0 {
        p == ir
    } else {
        exists|q: ForthIR| #[trigger] opt_step(o, q, p) && reachable(o, ir, q, (n - 1) as nat)
    }
}

/// Unrolling does not overflow anywhere in the program.
pub open spec fn program_unroll_safe(cfg: ZeroCostConfig, p: ForthIR) -> bool {
    &&& unroll_safe(cfg, p.words@, p.main@, true)
    &&& forall|i: int| 0 <= i < p.words@.len() ==> unroll_safe(cfg, p.words@, #[trigger] p.words@[i].instructions@, false)
}

/// `out` ends the repeated optimization of `ir`: it came from a program `q`
/// reached in at most ten runs, and either it is the same as `q` or ten runs
/// had been made before it.
pub open spec fn fixpoint_result(o: Optimizer, ir: ForthIR, out: ForthIR) -> bool {
    exists|q: ForthIR, n: nat| n <= 10 && #[trigger] reachable(o, ir, q, n) && opt_step(o, q, out)
        && (programs_match(out, q) || n == 10)
}

/// The result of the passes depends only on the settings of the optimizer.
proof fn lemma_optimized_from_settings(o1: Optimizer, o2: Optimizer, a: ForthIR, b: ForthIR)
    requires
        same_settings(o1, o2),
        opt_step(o1, a, b),
    ensures
        opt_step(o2, a, b),
{
    if o1.level != OptimizationLevel::Unoptimized {
        let a2 = choose|a2: ForthIR| #[trigger] front_from(o1, a, a2) && back_from(o1, a2, b);
        let (a0, a1) = choose|a0: ForthIR, a1: ForthIR| #[trigger] front_chain(o1, a, a0, a1, a2);
        assert(front_chain(o2, a, a0, a1, a2));
        let (a3, a4, a5, a6) = choose|a3: ForthIR, a4: ForthIR, a5: ForthIR, a6: ForthIR| #[trigger] back_chain(o1, a2, a3, a4, a5, a6, b);
        assert(back_chain(o2, a2, a3, a4, a5, a6, b));
        assert(front_from(o2, a, a2) && back_from(o2, a2, b));
    }
}

/// Every program reached from a well-formed one is well formed.
proof fn lemma_reachable_wf(o: Optimizer, ir: ForthIR, p: ForthIR, n: nat)
    requires
        ir.wf(),
        reachable(o, ir, p, n),
    ensures
        p.wf(),
    decreases n,
{
    if n > 0 {
        let q = choose|q: ForthIR| #[trigger] opt_step(o, q, p) && reachable(o, ir, q, (n - 1) as nat);
        lemma_reachable_wf(o, ir, q, (n - 1) as nat);
        if o.level != OptimizationLevel::Unoptimized {
            lemma_names_distinct_kept(p.words@, q.words@);
        }
    }
}

/// Inlining where the level is standard, else nothing.
pub open spec fn inline_step(o: Optimizer, a2: ForthIR, a3: ForthIR) -> bool {
    if level_rank(o.level) >= 2 { rel_inline(o.inline, a2, a3) } else { a3 == a2 }
}

/// Memory optimization where the level is standard, else nothing.
pub open spec fn memory_step(o: Optimizer, a5: ForthIR, a6: ForthIR) -> bool {
    if level_rank(o.level) >= 2 { rel_memory(o.memory_opt, a5, a6) } else { a6 == a5 }
}

/// The peephole counters `st` can take the rewrites of a program of `count` instructions.
pub open spec fn room_ok(st: PeepholeStats, count: int) -> bool {
    &&& count <= usize::MAX / 10
    &&& st.total_passes < usize::MAX
    &&& st.strength_reductions + 10 * count <= usize::MAX
    &&& st.constant_folds + 10 * count <= usize::MAX
    &&& st.dead_stores + 10 * count <= usize::MAX
}

/// Folding and the peephole rewrites succeed on `a0`: the folded program's size
/// fits, the peephole counters have room for it, and every rewritten word's
/// effect fits.
pub open spec fn fold_peep_ok(o: Optimizer, a0: ForthIR) -> bool {
    let count = spec_fold_sequence(a0.main@).len() + words_instruction_total(a0.words@);
    &&& count <= usize::MAX
    &&& room_ok(o.cranelift_peephole.stats, count)
    &&& forall|i: int| 0 <= i < a0.words@.len() ==> effect_fits(#[trigger] spec_peephole(a0.words@[i].instructions@))
}

/// The zero-cost step succeeds on `ir` (it runs only at the aggressive level).
pub open spec fn zero_cost_ok(o: Optimizer, ir: ForthIR) -> bool {
    level_rank(o.level) >= 3 ==> zero_cost_succeeds(o.zero_cost.config, ir)
}

/// The first passes succeed on `ir`, whatever program the zero-cost step gives.
pub open spec fn front_ok(o: Optimizer, ir: ForthIR) -> bool {
    &&& zero_cost_ok(o, ir)
    &&& forall|a0: ForthIR| #[trigger] zero_cost_step(o, ir, a0) ==> fold_peep_ok(o, a0)
}

/// The first passes fail on `ir`: the zero-cost step fails, or folding and the
/// peephole rewrites fail on a program it gives.
pub open spec fn front_fails(o: Optimizer, ir: ForthIR) -> bool {
    ||| !zero_cost_ok(o, ir)
    ||| exists|a0: ForthIR| #[trigger] zero_cost_step(o, ir, a0) && !fold_peep_ok(o, a0)
}

/// Every sequence of `p` has at most 2^28 instructions.
pub open spec fn sizes_ok(p: ForthIR) -> bool {
    p.main@.len() <= 0x1000_0000 && forall|i: int| 0 <= i < p.words@.len() ==> (#[trigger] p.words@[i]).instructions@.len() <= 0x1000_0000
}

/// The passes after memory optimization succeed on `a6`.
pub open spec fn cache_ok(o: Optimizer, a6: ForthIR) -> bool {
    let standard = level_rank(o.level) >= 2;
    standard ==> sizes_ok(a6) && forall|i: int| 0 <= i < a6.words@.len()
        ==> effect_fits(spec_cache_sequence(o.stack_cache.cache_size, #[trigger] a6.words@[i].instructions@))
}

/// Memory optimization and what follows succeed on `a5`, whatever its outcome.
pub open spec fn memory_ok(o: Optimizer, a5: ForthIR) -> bool {
    let standard = level_rank(o.level) >= 2;
    &&& standard ==> sizes_ok(a5)
    &&& standard ==> !(o.memory_opt.enable_cache_opt && o.memory_opt.cache_line_size < 8)
    &&& standard ==> forall|i: int, t: Seq<Instruction>| 0 <= i < a5.words@.len()
        && #[trigger] memory_outcome(o.memory_opt, a5.words@[i].instructions@, t) ==> effect_fits(t)
    &&& forall|a6: ForthIR| #[trigger] memory_step(o, a5, a6) ==> cache_ok(o, a6)
}

/// Memory optimization or what follows fails on `a5`, on some outcome of it.
pub open spec fn memory_fails(o: Optimizer, a5: ForthIR) -> bool {
    let standard = level_rank(o.level) >= 2;
    ||| standard && !sizes_ok(a5)
    ||| standard && o.memory_opt.enable_cache_opt && o.memory_opt.cache_line_size < 8
    ||| standard && exists|i: int, t: Seq<Instruction>| 0 <= i < a5.words@.len()
        && #[trigger] memory_outcome(o.memory_opt, a5.words@[i].instructions@, t) && !effect_fits(t)
    ||| exists|a6: ForthIR| #[trigger] memory_step(o, a5, a6) && !cache_ok(o, a6)
}

/// The passes before memory optimization succeed on `a2`: the program's size
/// fits (standard), inlining, superinstructions and dead code elimination keep
/// every word's effect within bounds, and the recognized program's sequences
/// are short enough.
pub open spec fn back_pre_ok(o: Optimizer, a2: ForthIR) -> bool {
    let standard = level_rank(o.level) >= 2;
    &&& standard ==> a2.main@.len() + words_instruction_total(a2.words@) <= usize::MAX
    &&& standard && o.inline.level != OptimizationLevel::Unoptimized ==> forall|i: int| 0 <= i < a2.words@.len()
        ==> effect_fits(inline_seq(o.inline, a2, #[trigger] a2.words@[i].instructions@))
    &&& forall|a3: ForthIR| #[trigger] inline_step(o, a2, a3) ==> {
        &&& forall|i: int| 0 <= i < a3.words@.len() ==> effect_fits(spec_recognize(#[trigger] a3.words@[i].instructions@))
        &&& forall|a4: ForthIR| #[trigger] rel_recognize(a3, a4) ==> {
            &&& sizes_ok(a4)
            &&& forall|i: int| 0 <= i < a4.words@.len() ==> effect_fits(spec_eliminate(#[trigger] a4.words@[i].instructions@))
        }
    }
}

/// The last passes succeed on `a2`, whatever the memory optimizer's outcome.
pub open spec fn back_ok(o: Optimizer, a2: ForthIR) -> bool {
    let standard = level_rank(o.level) >= 2;
    &&& back_pre_ok(o, a2)
    &&& forall|a3: ForthIR, a4: ForthIR, a5: ForthIR| #![trigger inline_step(o, a2, a3), rel_recognize(a3, a4), rel_eliminate(a4, a5)]
        inline_step(o, a2, a3) && rel_recognize(a3, a4)
        && rel_eliminate(a4, a5) ==> memory_ok(o, a5)
}

/// The last passes fail on `a2`: a pass before memory optimization fails, or
/// memory optimization or what follows fails on some outcome.
pub open spec fn back_fails(o: Optimizer, a2: ForthIR) -> bool {
    let standard = level_rank(o.level) >= 2;
    ||| !back_pre_ok(o, a2)
    ||| exists|a3: ForthIR, a4: ForthIR, a5: ForthIR| #![trigger inline_step(o, a2, a3), rel_recognize(a3, a4), rel_eliminate(a4, a5)]
        inline_step(o, a2, a3) && rel_recognize(a3, a4)
        && rel_eliminate(a4, a5) && memory_fails(o, a5)
}

/// The program `out` passes the final verification.
pub open spec fn verifies(out: ForthIR) -> bool {
    verify_outcome(out.main@, out.words@, Ok(()))
}

/// `optimize` succeeds on `ir`: the first passes succeed, and on whatever they
/// give, the last passes succeed and their result passes verification.
pub open spec fn opt_ok(o: Optimizer, ir: ForthIR) -> bool {
    o.level == OptimizationLevel::Unoptimized || {
        &&& front_ok(o, ir)
        &&& forall|a2: ForthIR| #[trigger] front_from(o, ir, a2) ==> back_ok(o, a2)
            && forall|out: ForthIR| #[trigger] back_from(o, a2, out) ==> verifies(out)
    }
}

/// `optimize` fails on `ir`: the first passes fail, or the last passes fail on
/// some program they give, or some result fails verification.
pub open spec fn opt_fails(o: Optimizer, ir: ForthIR) -> bool {
    &&& o.level != OptimizationLevel::Unoptimized
    &&& {
        ||| front_fails(o, ir)
        ||| exists|a2: ForthIR| #[trigger] front_from(o, ir, a2) && (back_fails(o, a2)
            || exists|out: ForthIR| #[trigger] back_from(o, a2, out) && !verifies(out))
    }
}

/// Type specialization, where the level is standard, from `a0` to `b`, leaving
/// the specializer `sp1`.
pub open spec fn spec_stage(o: Optimizer, ti: TypeInferenceResults, a0: ForthIR, sp1: TypeSpecializer, b: ForthIR) -> bool {
    if level_rank(o.level) >= 2 { specialize_step(o.type_specializer, sp1, ti, a0, b) } else { b == a0 && sp1 == o.type_specializer }
}

/// Type specialization finds every word it profiles.
pub open spec fn spec_ok(o: Optimizer, ti: TypeInferenceResults, a0: ForthIR) -> bool {
    level_rank(o.level) >= 2 ==> first_missing(record_all(profile_views(o.type_specializer.profiles@),
        site_events(a0.main@, ti) + word_events(a0.words@, ti)), a0.words@) is None
}

/// The passes after type specialization succeed on `b`.
pub open spec fn after_spec_ok(o: Optimizer, b: ForthIR) -> bool {
    &&& fold_peep_ok(o, b)
    &&& forall|a2: ForthIR| #[trigger] fold_peep(b, a2) ==> back_ok(o, a2)
        && forall|out: ForthIR| #[trigger] back_from(o, a2, out) ==> verifies(out)
}

/// `optimize_with_types` succeeds on `ir` with the type information `ti`.
pub open spec fn typed_ok(o: Optimizer, ti: TypeInferenceResults, ir: ForthIR) -> bool {
    o.level == OptimizationLevel::Unoptimized || {
        &&& zero_cost_ok(o, ir)
        &&& forall|a0: ForthIR| #[trigger] zero_cost_step(o, ir, a0) ==> spec_ok(o, ti, a0)
            && forall|sp1: TypeSpecializer, b: ForthIR| #[trigger] spec_stage(o, ti, a0, sp1, b) ==> after_spec_ok(o, b)
    }
}

/// `optimize_with_types` fails on `ir`: some stage fails on what the ones before give.
pub open spec fn typed_fails(o: Optimizer, ti: TypeInferenceResults, ir: ForthIR) -> bool {
    &&& o.level != OptimizationLevel::Unoptimized
    &&& {
        ||| !zero_cost_ok(o, ir)
        ||| exists|a0: ForthIR| #[trigger] zero_cost_step(o, ir, a0) && (!spec_ok(o, ti, a0)
            || exists|sp1: TypeSpecializer, b: ForthIR| #[trigger] spec_stage(o, ti, a0, sp1, b) && (!fold_peep_ok(o, b)
                || exists|a2: ForthIR| #[trigger] fold_peep(b, a2) && (back_fails(o, a2)
                    || exists|out: ForthIR| #[trigger] back_from(o, a2, out) && !verifies(out))))
    }
}

/// The last passes, and whether they succeed, depend only on the settings.
proof fn lemma_back_settings(o1: Optimizer, o2: Optimizer, a2: ForthIR)
    requires
        same_settings(o1, o2),
    ensures
        back_ok(o1, a2) == back_ok(o2, a2),
        back_fails(o1, a2) == back_fails(o2, a2),
        forall|out: ForthIR| #[trigger] back_from(o1, a2, out) == back_from(o2, a2, out),
{
    assert forall|out: ForthIR| #[trigger] back_from(o1, a2, out) == back_from(o2, a2, out) by {
        if back_from(o1, a2, out) {
            let (a3, a4, a5, a6) = choose|a3: ForthIR, a4: ForthIR, a5: ForthIR, a6: ForthIR| #[trigger] back_chain(o1, a2, a3, a4, a5, a6, out);
            assert(back_chain(o2, a2, a3, a4, a5, a6, out));
        }
        if back_from(o2, a2, out) {
            let (a3, a4, a5, a6) = choose|a3: ForthIR, a4: ForthIR, a5: ForthIR, a6: ForthIR| #[trigger] back_chain(o2, a2, a3, a4, a5, a6, out);
            assert(back_chain(o1, a2, a3, a4, a5, a6, out));
        }
    }
    assert forall|a3: ForthIR| inline_step(o1, a2, a3) == inline_step(o2, a2, a3) by {}
    assert forall|a5: ForthIR, a6: ForthIR| memory_step(o1, a5, a6) == memory_step(o2, a5, a6) by {}
    assert forall|a6: ForthIR| cache_ok(o1, a6) == cache_ok(o2, a6) by {}
    assert forall|a5: ForthIR| memory_ok(o1, a5) == memory_ok(o2, a5) && memory_fails(o1, a5) == memory_fails(o2, a5) by {}
    assert(back_pre_ok(o1, a2) == back_pre_ok(o2, a2));
}

/// The words keep their names, in order.
pub open spec fn same_names(out: Seq<WordDef>, ws: Seq<WordDef>) -> bool {
    out.len() == ws.len() && forall|i: int| 0 <= i < ws.len() ==> (#[trigger] out[i]).name == ws[i].name
}

proof fn lemma_names_distinct_kept(out: Seq<WordDef>, ws: Seq<WordDef>)
    requires
        same_names(out, ws),
        names_distinct(ws),
    ensures
        names_distinct(out),
{
    assert forall|i: int, j: int| 0 <= i < out.len() && 0 <= j < out.len() && i != j implies out[i].name@ != out[j].name@ by {
        assert(out[i].name == ws[i].name);
        assert(out[j].name == ws[j].name);
    }
}

/// Words kept as they are hold as many instructions.
proof fn lemma_total_kept(out: Seq<WordDef>, ws: Seq<WordDef>)
    requires
        words_kept(out, ws),
    ensures
        words_instruction_total(out) == words_instruction_total(ws),
    decreases ws.len(),
{
    if ws.len() > 0 {
        assert(crate::optimizer::ir::same_word(out[ws.len() - 1], ws[ws.len() - 1]));
        assert forall|i: int| 0 <= i < ws.drop_last().len() implies crate::optimizer::ir::same_word(#[trigger] out.drop_last()[i], ws.drop_last()[i]) by {
            assert(crate::optimizer::ir::same_word(out[i], ws[i]));
        }
        lemma_total_kept(out.drop_last(), ws.drop_last());
    }
}

/// A failure of the last passes rules out their success.
proof fn lemma_back_fails_not_ok(o: Optimizer, a2: ForthIR)
    requires
        back_fails(o, a2),
    ensures
        !back_ok(o, a2),
{
    let standard = level_rank(o.level) >= 2;
    if back_pre_ok(o, a2) {
        let (a3, a4, a5) = choose|a3: ForthIR, a4: ForthIR, a5: ForthIR| #![trigger inline_step(o, a2, a3), rel_recognize(a3, a4), rel_eliminate(a4, a5)]
            inline_step(o, a2, a3) && rel_recognize(a3, a4)
            && rel_eliminate(a4, a5) && memory_fails(o, a5);
        if memory_ok(o, a5) {
            if standard && exists|i: int, t: Seq<Instruction>| 0 <= i < a5.words@.len()
                && #[trigger] memory_outcome(o.memory_opt, a5.words@[i].instructions@, t) && !effect_fits(t) {
                let (i, t) = choose|i: int, t: Seq<Instruction>| 0 <= i < a5.words@.len()
                    && #[trigger] memory_outcome(o.memory_opt, a5.words@[i].instructions@, t) && !effect_fits(t);
                assert(effect_fits(t));
            }
            if exists|a6: ForthIR| #[trigger] memory_step(o, a5, a6) && !cache_ok(o, a6) {
                let a6 = choose|a6: ForthIR| #[trigger] memory_step(o, a5, a6) && !cache_ok(o, a6);
                assert(cache_ok(o, a6));
            }
        }
    }
}

/// Whether the top-level sequence and every word have at most `bound` instructions.
fn sizes_within(ir: &ForthIR, bound: usize) -> (r: bool)
    ensures
        r == (ir.main@.len() <= bound && forall|i: int| 0 <= i < ir.words@.len() ==> (#[trigger] ir.words@[i]).instructions@.len() <= bound),
{
    if ir.main.len() > bound {
        return false;
    }
    let mut i: usize = 0;
    while i < ir.words.len()
        invariant
            i <= ir.words@.len(),
            forall|k: int| 0 <= k < i ==> (#[trigger] ir.words@[k]).instructions@.len() <= bound,
        decreases ir.words@.len() - i,
    {
        if ir.words[i].instructions.len() > bound {
            return false;
        }
        i = i + 1;
    }
    true
}

/// Runs the optimization passes in order.
pub struct Optimizer {
    pub level: OptimizationLevel,
    pub zero_cost: ZeroCostOptimizer,
    pub stack_cache: StackCacheOptimizer,
    pub superinstructions: SuperinstructionOptimizer,
    pub constant_fold: ConstantFolder,
    pub dead_code: DeadCodeEliminator,
    pub inline: InlineOptimizer,
    pub type_specializer: TypeSpecializer,
    pub memory_opt: MemoryOptimizer,
    pub cranelift_peephole: CraneliftPeephole,
}

impl Optimizer {
    /// The type specializer's tables are well formed.
    pub open spec fn wf(&self) -> bool {
        self.type_specializer.wf()
    }

    pub fn new(level: OptimizationLevel) -> (r: Self)
        ensures
            r.wf(),
            r.level == level,
            r.stack_cache.cache_size == 3,
            r.inline.level == level,
            r.cranelift_peephole.stats.total_passes == 0,
            r.cranelift_peephole.stats.strength_reductions == 0,
            r.cranelift_peephole.stats.constant_folds == 0,
            r.cranelift_peephole.stats.dead_stores == 0,
            r.cranelift_peephole.stats.comparison_chains == 0,
            r.memory_opt.cache_line_size == 64,
            r.memory_opt.enable_cache_opt,
            r.zero_cost.config.unconditional_inline_threshold == 3,
            r.zero_cost.config.max_loop_unroll == 20,
            r.type_specializer.profiles@.len() == 0,
            r.type_specializer.specializations@.len() == 0,
            r.type_specializer.call_site_types@.len() == 0,
            r.type_specializer.stats == crate::optimizer::specializer::zero_stats(),
    {
        Optimizer {
            level,
            zero_cost: ZeroCostOptimizer::default(),
            stack_cache: StackCacheOptimizer::new(3),
            superinstructions: SuperinstructionOptimizer::new(),
            constant_fold: ConstantFolder::new(),
            dead_code: DeadCodeEliminator::new(),
            inline: InlineOptimizer::new(level),
            type_specializer: TypeSpecializer::new(),
            memory_opt: MemoryOptimizer::new(),
            cranelift_peephole: CraneliftPeephole::new(),
        }
    }

    /// The type specialization counters.
    pub fn specialization_stats(&self) -> (r: &SpecializationStats)
        ensures
            *r == self.type_specializer.stats,
    {
        self.type_specializer.stats()
    }

    /// The memory optimizer.
    pub fn memory_optimizer(&self) -> (r: &MemoryOptimizer)
        ensures
            *r == self.memory_opt,
    {
        &self.memory_opt
    }

    /// The peephole counters.
    pub fn peephole_stats(&self) -> (r: &PeepholeStats)
        ensures
            *r == self.cranelift_peephole.stats,
    {
        self.cranelift_peephole.stats()
    }
}

/// The passes other than the peephole rewrites keep their settings.
pub open spec fn same_settings(a: Optimizer, b: Optimizer) -> bool {
    &&& a.level == b.level
    &&& a.zero_cost == b.zero_cost
    &&& a.stack_cache == b.stack_cache
    &&& a.superinstructions == b.superinstructions
    &&& a.constant_fold == b.constant_fold
    &&& a.dead_code == b.dead_code
    &&& a.inline == b.inline
    &&& a.memory_opt == b.memory_opt
}

impl Optimizer {
    /// Peephole counters can take the rewrites of a program of `count` instructions.
    fn peephole_room(&self, count: usize) -> (r: bool)
        ensures
            r == room_ok(self.cranelift_peephole.stats, count as int),
    {
        let st = &self.cranelift_peephole.stats;
        count <= usize::MAX / 10
            && st.total_passes < usize::MAX
            && st.strength_reductions <= usize::MAX - 10 * count
            && st.constant_folds <= usize::MAX - 10 * count
            && st.dead_stores <= usize::MAX - 10 * count
    }

    /// Constant folding, then the peephole rewrites.
    fn fold_and_peephole(&mut self, a0: ForthIR) -> (r: Result<ForthIR, OptimizerError>)
        requires
            a0.wf(),
        ensures
            same_settings(*old(self), *final(self)),
            final(self).type_specializer == old(self).type_specializer,
            r is Ok <==> fold_peep_ok(*old(self), a0),
            r matches Ok(a2) ==> fold_peep(a0, a2) && same_names(a2.words@, a0.words@) && a2.wf(),
    {
        let ghost o = *self;
        let a1 = match self.constant_fold.fold(&a0) {
            Ok(x) => x,
            Err(e) => {
                return Err(e);
            },
        };
        proof {
            lemma_total_kept(a1.words@, a0.words@);
            assert forall|i: int| 0 <= i < a0.words@.len() implies a1.words@[i].instructions@ == #[trigger] a0.words@[i].instructions@ by {
                assert(crate::optimizer::ir::same_word(a1.words@[i], a0.words@[i]));
            }
        }
        let count = match a1.checked_instruction_count() {
            Some(c) => c,
            None => {
                return Err(OptimizerError::OptimizationFailed("Program too large".to_owned()));
            },
        };
        if !self.peephole_room(count) {
            return Err(OptimizerError::OptimizationFailed("Peephole statistics overflow".to_owned()));
        }
        proof { lemma_total_counts_bound(a1.main@, a1.words@); }
        let a2 = match self.cranelift_peephole.optimize(&a1) {
            Ok(x) => x,
            Err(e) => {
                proof {
                    let i = choose|i: int| 0 <= i < a1.words@.len() && !effect_fits(#[trigger] spec_peephole(a1.words@[i].instructions@));
                    assert(a1.words@[i].instructions@ == a0.words@[i].instructions@);
                }
                return Err(e);
            },
        };
        proof {
            assert forall|i: int| 0 <= i < a0.words@.len() implies effect_fits(#[trigger] spec_peephole(a0.words@[i].instructions@)) by {
                assert(a1.words@[i].instructions@ == a0.words@[i].instructions@);
                assert(effect_fits(spec_peephole(a1.words@[i].instructions@)));
            }
            assert(fold_peep_chain(a0, a1, a2));
            assert(same_names(a2.words@, a0.words@));
            lemma_names_distinct_kept(a2.words@, a0.words@);
        }
        Ok(a2)
    }

    /// The first passes.
    fn optimize_front(&mut self, ir: ForthIR) -> (r: Result<ForthIR, OptimizerError>)
        requires
            ir.wf(),
            level_rank(old(self).level) >= 3 ==> unroll_safe(old(self).zero_cost.config, ir.words@, ir.main@, true),
            level_rank(old(self).level) >= 3 ==> forall|i: int| 0 <= i < ir.words@.len() ==>
                unroll_safe(old(self).zero_cost.config, ir.words@, #[trigger] ir.words@[i].instructions@, false),
        ensures
            same_settings(*old(self), *final(self)),
            final(self).type_specializer == old(self).type_specializer,
            r matches Ok(a2) ==> front_from(*old(self), ir, a2) && same_names(a2.words@, ir.words@) && a2.wf(),
            front_ok(*old(self), ir) ==> r is Ok,
            r is Err ==> front_fails(*old(self), ir),
    {
        let ghost o = *self;
        let a0 = match self.zero_cost_stage(ir) {
            Ok(x) => x,
            Err(e) => {
                return Err(e);
            },
        };
        let ghost a0g = a0;
        assert(zero_cost_step(o, ir, a0g));
        let a2 = match self.fold_and_peephole(a0) {
            Ok(x) => x,
            Err(e) => {
                proof {
                    assert(!fold_peep_ok(o, a0g));
                    assert(front_fails(o, ir));
                }
                return Err(e);
            },
        };
        proof {
            let a1 = choose|a1: ForthIR| #[trigger] fold_peep_chain(a0g, a1, a2);
            assert(front_chain(o, ir, a0g, a1, a2));
            assert(same_names(a2.words@, ir.words@));
        }
        Ok(a2)
    }

    /// The zero-cost pass, where the level is aggressive.
    fn zero_cost_stage(&self, ir: ForthIR) -> (r: Result<ForthIR, OptimizerError>)
        requires
            ir.wf(),
            level_rank(self.level) >= 3 ==> unroll_safe(self.zero_cost.config, ir.words@, ir.main@, true),
            level_rank(self.level) >= 3 ==> forall|i: int| 0 <= i < ir.words@.len() ==>
                unroll_safe(self.zero_cost.config, ir.words@, #[trigger] ir.words@[i].instructions@, false),
        ensures
            r is Ok <==> zero_cost_ok(*self, ir),
            r matches Ok(a0) ==> zero_cost_step(*self, ir, a0) && same_names(a0.words@, ir.words@) && a0.wf(),
    {
        if self.level.at_least(OptimizationLevel::Aggressive) {
            match self.zero_cost.optimize(&ir) {
                Ok(x) => {
                    proof {
                        assert(same_names(x.words@, ir.words@));
                        lemma_names_distinct_kept(x.words@, ir.words@);
                    }
                    Ok(x)
                },
                Err(e) => Err(e),
            }
        } else {
            Ok(ir)
        }
    }

    /// The last passes.
    fn optimize_back(&self, a2: ForthIR) -> (r: Result<ForthIR, OptimizerError>)
        requires
            a2.wf(),
        ensures
            r matches Ok(out) ==> back_from(*self, a2, out) && same_names(out.words@, a2.words@),
            back_ok(*self, a2) ==> r is Ok,
            r is Err ==> back_fails(*self, a2),
    {
        let ghost o = *self;
        let standard = self.level.at_least(OptimizationLevel::Standard);
        let a3 = if standard {
            if a2.checked_instruction_count().is_none() {
                proof { lemma_back_fails_not_ok(o, a2); }
                return Err(OptimizerError::OptimizationFailed("Program too large".to_owned()));
            }
            match self.inline.inline(&a2) {
                Ok(x) => x,
                Err(e) => {
                    proof { lemma_back_fails_not_ok(o, a2); }
                    return Err(e);
                },
            }
        } else {
            a2
        };
        let ghost a3g = a3;
        assert(inline_step(o, a2, a3g));
        let a4 = match self.superinstructions.recognize(&a3) {
            Ok(x) => x,
            Err(e) => {
                proof {
                    assert(!back_pre_ok(o, a2));
                    lemma_back_fails_not_ok(o, a2);
                }
                return Err(e);
            },
        };
        let ghost a4g = a4;
        assert(rel_recognize(a3g, a4g));
        if !sizes_within(&a4, 0x1000_0000) {
            proof {
                assert(!sizes_ok(a4g));
                assert(!back_pre_ok(o, a2));
                lemma_back_fails_not_ok(o, a2);
            }
            return Err(OptimizerError::OptimizationFailed("Sequence too long".to_owned()));
        }
        let a5 = match self.dead_code.eliminate(&a4) {
            Ok(x) => x,
            Err(e) => {
                proof {
                    assert(!back_pre_ok(o, a2));
                    lemma_back_fails_not_ok(o, a2);
                }
                return Err(e);
            },
        };
        let ghost a5g = a5;
        assert(rel_eliminate(a4g, a5g));
        let a6 = if standard {
            if !sizes_within(&a5, 0x1000_0000) {
                proof {
                    assert(memory_fails(o, a5g));
                    lemma_back_fails_not_ok(o, a2);
                }
                return Err(OptimizerError::OptimizationFailed("Sequence too long".to_owned()));
            }
            if self.memory_opt.enable_cache_opt && self.memory_opt.cache_line_size < 8 {
                proof {
                    assert(memory_fails(o, a5g));
                    lemma_back_fails_not_ok(o, a2);
                }
                return Err(OptimizerError::OptimizationFailed("Cache line too small".to_owned()));
            }
            match self.memory_opt.optimize(&a5) {
                Ok(x) => x,
                Err(e) => {
                    proof {
                        assert(memory_fails(o, a5g));
                        lemma_back_fails_not_ok(o, a2);
                    }
                    return Err(e);
                },
            }
        } else {
            a5
        };
        let ghost a6g = a6;
        assert(memory_step(o, a5g, a6g));
        let out = if standard {
            if !sizes_within(&a6, 0x1000_0000) {
                proof {
                    assert(!cache_ok(o, a6g));
                    assert(memory_fails(o, a5g));
                    lemma_back_fails_not_ok(o, a2);
                }
                return Err(OptimizerError::OptimizationFailed("Sequence too long".to_owned()));
            }
            match self.stack_cache.optimize(&a6) {
                Ok(x) => x,
                Err(e) => {
                    proof {
                        assert(!cache_ok(o, a6g));
                        assert(memory_fails(o, a5g));
                        lemma_back_fails_not_ok(o, a2);
                    }
                    return Err(e);
                },
            }
        } else {
            a6
        };
        proof {
            if standard {
                assert(rel_cache(self.stack_cache.cache_size, a6, out));
            }
            assert(back_chain(*self, a2, a3g, a4g, a5g, a6g, out));
            assert(same_names(out.words@, a2.words@));
        }
        Ok(out)
    }

    /// Runs the passes that the level enables, in order: zero-cost abstraction
    /// removal (aggressive), constant folding, peephole rewrites, inlining
    /// (standard), superinstructions, dead code elimination, memory optimization
    /// and stack caching (standard), then verifies the stack effects. At level
    /// `Unoptimized` the program is returned as it is.
    pub fn optimize(&mut self, ir: ForthIR) -> (r: Result<ForthIR, OptimizerError>)
        requires
            ir.wf(),
            level_rank(old(self).level) >= 3 ==> unroll_safe(old(self).zero_cost.config, ir.words@, ir.main@, true),
            level_rank(old(self).level) >= 3 ==> forall|i: int| 0 <= i < ir.words@.len() ==>
                unroll_safe(old(self).zero_cost.config, ir.words@, #[trigger] ir.words@[i].instructions@, false),
        ensures
            same_settings(*old(self), *final(self)),
            final(self).type_specializer == old(self).type_specializer,
            old(self).level == OptimizationLevel::Unoptimized ==> r == Ok::<ForthIR, OptimizerError>(ir),
            old(self).level != OptimizationLevel::Unoptimized ==> (r matches Ok(out) ==> {
                &&& optimized_from(*old(self), ir, out)
                &&& verify_outcome(out.main@, out.words@, Ok(()))
                &&& same_names(out.words@, ir.words@)
            }),
            opt_ok(*old(self), ir) ==> r is Ok,
            r is Err ==> opt_fails(*old(self), ir),
    {
        if self.level == OptimizationLevel::Unoptimized {
            return Ok(ir);
        }
        let ghost o = *self;
        let ghost ir0 = ir;
        let a2 = match self.optimize_front(ir) {
            Ok(x) => x,
            Err(e) => {
                proof {
                    if opt_ok(o, ir0) {
                        assert(front_ok(o, ir0));
                    }
                }
                return Err(e);
            },
        };
        let ghost a2g = a2;
        proof { lemma_back_settings(o, *self, a2g); }
        assert(front_from(o, ir0, a2g));
        let out = match self.optimize_back(a2) {
            Ok(x) => x,
            Err(e) => {
                proof {
                    assert(back_fails(o, a2g));
                    assert(opt_fails(o, ir0));
                    lemma_back_fails_not_ok(o, a2g);
                }
                return Err(e);
            },
        };
        proof {
            assert(same_settings(o, *self));
            let s1 = *self;
            let (a3, a4, a5, a6) = choose|a3: ForthIR, a4: ForthIR, a5: ForthIR, a6: ForthIR| #[trigger] back_chain(s1, a2g, a3, a4, a5, a6, out);
            assert(back_chain(o, a2g, a3, a4, a5, a6, out));
            assert(back_from(o, a2g, out));
            assert(front_from(o, ir0, a2g) && back_from(o, a2g, out));
        }
        match out.verify() {
            Ok(()) => Ok(out),
            Err(e) => {
                proof {
                    assert(!verifies(out));
                    assert(opt_fails(o, ir0));
                }
                Err(e)
            },
        }
    }

    /// Runs the passes as `optimize` does, with type specialization after the
    /// zero-cost pass (at level standard and above), using the type information
    /// `type_info`. At level `Unoptimized` the program is returned as it is.
    pub fn optimize_with_types(&mut self, ir: ForthIR, type_info: &TypeInferenceResults) -> (r: Result<ForthIR, OptimizerError>)
        requires
            old(self).wf(),
            ir.wf(),
            type_info.wf(),
            types_fit(*old(self), ir, *type_info),
            level_rank(old(self).level) >= 3 ==> unroll_safe(old(self).zero_cost.config, ir.words@, ir.main@, true),
            level_rank(old(self).level) >= 3 ==> forall|i: int| 0 <= i < ir.words@.len() ==>
                unroll_safe(old(self).zero_cost.config, ir.words@, #[trigger] ir.words@[i].instructions@, false),
        ensures
            same_settings(*old(self), *final(self)),
            final(self).wf(),
            old(self).level == OptimizationLevel::Unoptimized ==> r == Ok::<ForthIR, OptimizerError>(ir)
                && final(self).type_specializer == old(self).type_specializer,
            old(self).level != OptimizationLevel::Unoptimized ==> (r matches Ok(out) ==> {
                &&& typed_from(*old(self), final(self).type_specializer, *type_info, ir, out)
                &&& verify_outcome(out.main@, out.words@, Ok(()))
            }),
            typed_ok(*old(self), *type_info, ir) ==> r is Ok,
            r is Err ==> typed_fails(*old(self), *type_info, ir),
    {
        if self.level == OptimizationLevel::Unoptimized {
            return Ok(ir);
        }
        let ghost o = *self;
        let ghost ir0 = ir;
        let a0 = match self.zero_cost_stage(ir) {
            Ok(x) => x,
            Err(e) => {
                return Err(e);
            },
        };
        let ghost a0g = a0;
        assert(zero_cost_step(o, ir0, a0g));
        let mut b = a0;
        if self.level.at_least(OptimizationLevel::Standard) {
            match self.type_specializer.specialize(&mut b, type_info) {
                Ok(_) => {},
                Err(e) => {
                    proof {
                        assert(!spec_ok(o, *type_info, a0g));
                        assert(typed_fails(o, *type_info, ir0));
                    }
                    return Err(e);
                },
            }
        }
        let ghost bg = b;
        let ghost sp1 = self.type_specializer;
        assert(spec_stage(o, *type_info, a0g, sp1, bg));
        let a2 = match self.fold_and_peephole(b) {
            Ok(x) => x,
            Err(e) => {
                proof {
                    assert(!fold_peep_ok(o, bg));
                    assert(typed_fails(o, *type_info, ir0));
                }
                return Err(e);
            },
        };
        let ghost a2g = a2;
        proof {
            assert(typed_front_chain(o, sp1, *type_info, ir, a0g, bg, a2g));
            lemma_back_settings(o, *self, a2g);
        }
        assert(fold_peep(bg, a2g));
        let out = match self.optimize_back(a2) {
            Ok(x) => x,
            Err(e) => {
                proof {
                    assert(back_fails(o, a2g));
                    assert(typed_fails(o, *type_info, ir0));
                    lemma_back_fails_not_ok(o, a2g);
                }
                return Err(e);
            },
        };
        proof {
            let s1 = *self;
            let (a3, a4, a5, a6) = choose|a3: ForthIR, a4: ForthIR, a5: ForthIR, a6: ForthIR| #[trigger] back_chain(s1, a2g, a3, a4, a5, a6, out);
            assert(back_chain(o, a2g, a3, a4, a5, a6, out));
            assert(back_from(o, a2g, out));
            assert(typed_front_chain(o, sp1, *type_info, ir, a0g, bg, a2g) && back_from(o, a2g, out));
        }
        match out.verify() {
            Ok(()) => Ok(out),
            Err(e) => {
                proof {
                    assert(!verifies(out));
                    assert(typed_fails(o, *type_info, ir0));
                }
                Err(e)
            },
        }
    }

    /// Runs `optimize` again and again, until a run changes nothing or ten
    /// runs have been followed by an eleventh.
    pub fn optimize_until_fixpoint(&mut self, ir: ForthIR) -> (r: Result<ForthIR, OptimizerError>)
        requires
            ir.wf(),
            level_rank(old(self).level) >= 3 ==> forall|p: ForthIR, n: nat| n <= 10 && #[trigger] reachable(*old(self), ir, p, n)
                ==> program_unroll_safe(old(self).zero_cost.config, p),
        ensures
            same_settings(*old(self), *final(self)),
            final(self).type_specializer == old(self).type_specializer,
            old(self).level == OptimizationLevel::Unoptimized ==> r == Ok::<ForthIR, OptimizerError>(ir),
            r matches Ok(out) ==> fixpoint_result(*old(self), ir, out),
    {
        let ghost o = *self;
        let mut current = ir;
        let mut iterations: usize = 0;
        loop
            invariant
                iterations <= 10,
                *old(self) == o,
                reachable(o, ir, current, iterations as nat),
                current.wf(),
                same_settings(o, *self),
                self.type_specializer == o.type_specializer,
                o.level == OptimizationLevel::Unoptimized ==> current == ir,
                ir.wf(),
                level_rank(o.level) >= 3 ==> forall|p: ForthIR, n: nat| n <= 10 && #[trigger] reachable(o, ir, p, n)
                    ==> program_unroll_safe(o.zero_cost.config, p),
            decreases 10 - iterations,
        {
            let previous = current.duplicate();
            let ghost cur = current;
            let ghost s0 = *self;
            proof {
                if level_rank(o.level) >= 3 {
                    assert(program_unroll_safe(o.zero_cost.config, cur));
                }
            }
            let optimized = match self.optimize(current) {
                Ok(x) => x,
                Err(e) => {
                    return Err(e);
                },
            };
            proof {
                assert(opt_step(s0, cur, optimized));
                lemma_optimized_from_settings(s0, o, cur, optimized);
                assert(reachable(o, ir, cur, iterations as nat) && opt_step(o, cur, optimized));
                assert(reachable(o, ir, optimized, (iterations + 1) as nat));
                lemma_reachable_wf(o, ir, optimized, (iterations + 1) as nat);
                assert(programs_match(optimized, previous) == programs_match(optimized, cur));
            }
            if same_program(&optimized, &previous) || iterations >= 10 {
                proof {
                    assert(fixpoint_result(o, ir, optimized) ) by {
                        assert(iterations <= 10 && reachable(o, ir, cur, iterations as nat) && opt_step(o, cur, optimized)
                            && (programs_match(optimized, cur) || iterations == 10));
                    }
                }
                return Ok(optimized);
            }
            proof {
                if o.level == OptimizationLevel::Unoptimized {
                    crate::optimizer::ir::lemma_programs_match_refl(cur);
                }
            }
            current = optimized;
            iterations = iterations + 1;
        }
    }
}


impl Default for Optimizer {
    /// An optimizer at level `Standard`.
    fn default() -> (r: Self)
        ensures
            r.wf(),
            r.level == OptimizationLevel::Standard,
            r.stack_cache.cache_size == 3,
            r.inline.level == OptimizationLevel::Standard,
            r.memory_opt.cache_line_size == 64,
            r.memory_opt.enable_cache_opt,
            r.type_specializer.profiles@.len() == 0,
            r.type_specializer.specializations@.len() == 0,
            r.type_specializer.call_site_types@.len() == 0,
    {
        Optimizer::new(OptimizationLevel::Standard)
    }
}

} // verus!
