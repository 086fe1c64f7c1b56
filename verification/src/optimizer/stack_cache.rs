//! Stack caching: keeps the top stack items in registers, rewriting stack
//! operations on cached items into their cached forms and flushing the cache
//! before operations that need the stack in memory.
use vstd::prelude::*;
use crate::optimizer::ir::{ForthIR, Instruction, WordDef, instr_effect, effect_fits, seq_effect, rebuild_word};
use crate::optimizer::error::OptimizerError;
use crate::optimizer::semantics::{run, exec_instr, lemma_run_one, lemma_run_two, lemma_run_append};

verus! {

/// Register holding a cached stack item (0 is the top of stack).
#[derive(Debug, Clone, Copy, PartialEq, Eq, Hash, Structural)]
pub struct Register(pub u8);

/// Stack cache state at a program point.
#[derive(Debug, Clone, Copy, PartialEq, Eq, Structural)]
pub struct CacheState {
    /// Number of items currently cached in registers.
    pub cached_depth: u8,
    /// Total stack depth, cached items included.
    pub total_depth: i32,
}

impl CacheState {
    /// An empty cache; the cache size does not affect the initial state.
    pub fn new(cache_size: u8) -> (r: Self)
        ensures
            r.cached_depth == 0,
            r.total_depth == 0,
    {
        CacheState { cached_depth: 0, total_depth: 0 }
    }

    /// Whether the item at `depth` from the top is cached.
    pub fn is_cached(&self, depth: u8) -> (r: bool)
        ensures
            r == (depth < self.cached_depth),
    {
        depth < self.cached_depth
    }

    /// The register holding the item at `depth` from the top, if it is cached.
    pub fn get_register(&self, depth: u8) -> (r: Option<Register>)
        ensures
            r == (if depth < self.cached_depth { Some(Register(depth)) } else { None }),
    {
        if self.is_cached(depth) {
            Some(Register(depth))
        } else {
            None
        }
    }
}

/// The state after pushing one item.
pub open spec fn spec_push(cs: u8, st: CacheState) -> CacheState {
    CacheState {
        cached_depth: if st.cached_depth < cs { (st.cached_depth + 1) as u8 } else { st.cached_depth },
        total_depth: (st.total_depth + 1) as i32,
    }
}

/// The state after popping one item.
pub open spec fn spec_pop(st: CacheState) -> CacheState {
    CacheState {
        cached_depth: if st.cached_depth > 0 { (st.cached_depth - 1) as u8 } else { 0 },
        total_depth: (st.total_depth - 1) as i32,
    }
}

/// The code and state after flushing the cache.
pub open spec fn spec_flush(st: CacheState) -> (CacheState, Seq<Instruction>) {
    if st.cached_depth > 0 {
        (CacheState { cached_depth: 0, total_depth: st.total_depth }, seq![Instruction::FlushCache])
    } else {
        (st, Seq::empty())
    }
}

/// Adds `d` to the total depth.
pub open spec fn shift_total(st: CacheState, d: int) -> CacheState {
    CacheState { cached_depth: st.cached_depth, total_depth: (st.total_depth + d) as i32 }
}

/// Flush, emit `inst`, then change the total depth by `d`.
pub open spec fn flush_then(st: CacheState, inst: Instruction, d: int) -> (CacheState, Seq<Instruction>) {
    let f = spec_flush(st);
    (shift_total(f.0, d), f.1.push(inst))
}

/// `inst` is a binary operation consuming two items and producing one.
pub open spec fn is_binary(inst: Instruction) -> bool {
    inst is Add || inst is Sub || inst is Mul || inst is Div || inst is Mod || inst is And || inst is Or
        || inst is Xor || inst is Eq || inst is Ne || inst is Lt || inst is Le || inst is Gt || inst is Ge
        || inst is Shl || inst is Shr
}

/// `inst` operates on the top item in place.
pub open spec fn is_unary(inst: Instruction) -> bool {
    inst is Neg || inst is Abs || inst is Not || inst is ZeroEq || inst is ZeroLt || inst is ZeroGt
        || inst is DupAdd || inst is DupMul
}

/// One instruction under stack caching with `cs` registers: the new state and the code emitted.
pub open spec fn cache_step(cs: u8, inst: Instruction, st: CacheState) -> (CacheState, Seq<Instruction>) {
    let net = instr_effect(inst).produced - instr_effect(inst).consumed;
    match inst {
        Instruction::Literal(_) | Instruction::FloatLiteral(_) => (spec_push(cs, st), seq![inst]),
        Instruction::Dup => if st.cached_depth >= 1 {
            (spec_push(cs, st), seq![Instruction::CachedDup { depth: st.cached_depth }])
        } else {
            (shift_total(st, 1), seq![Instruction::Dup])
        },
        Instruction::Drop => if st.cached_depth >= 1 {
            (spec_pop(st), seq![Instruction::Drop])
        } else {
            (shift_total(st, -1), seq![Instruction::Drop])
        },
        Instruction::Swap => if st.cached_depth >= 2 {
            (st, seq![Instruction::CachedSwap { depth: st.cached_depth }])
        } else {
            flush_then(st, inst, 0)
        },
        Instruction::Over => if st.cached_depth >= 2 {
            (spec_push(cs, st), seq![Instruction::CachedOver { depth: st.cached_depth }])
        } else {
            flush_then(st, inst, 1)
        },
        Instruction::Call(_) | Instruction::Return | Instruction::Branch(_) | Instruction::BranchIf(_)
        | Instruction::BranchIfNot(_) => flush_then(st, inst, 0),
        Instruction::Store | Instruction::Store8 | Instruction::Load | Instruction::Load8
        | Instruction::ToR | Instruction::FromR | Instruction::RFetch => flush_then(st, inst, net),
        Instruction::Comment(_) | Instruction::Label(_) | Instruction::Nop | Instruction::FlushCache
        | Instruction::CachedDup { .. } | Instruction::CachedSwap { .. } | Instruction::CachedOver { .. } => (st, seq![inst]),
        _ => if is_binary(inst) {
            if st.cached_depth >= 2 { (spec_pop(st), seq![inst]) } else { flush_then(st, inst, -1) }
        } else if is_unary(inst) {
            if st.cached_depth >= 1 { (st, seq![inst]) } else { flush_then(st, inst, 0) }
        } else {
            flush_then(st, inst, net)
        },
    }
}

/// Running the stack cache over `s` from state `st`.
pub open spec fn cache_run(cs: u8, s: Seq<Instruction>, st: CacheState) -> (CacheState, Seq<Instruction>)
    decreases s.len(),
{
    if s.len() == 0 {
        (st, Seq::empty())
    } else {
        let a = cache_run(cs, s.drop_last(), st);
        let b = cache_step(cs, s.last(), a.0);
        (b.0, a.1 + b.1)
    }
}

/// The cached form of a sequence: the code emitted from an empty cache, then a
/// final flush when items are still cached.
pub open spec fn spec_cache_sequence(cs: u8, s: Seq<Instruction>) -> Seq<Instruction> {
    let r = cache_run(cs, s, CacheState { cached_depth: 0, total_depth: 0 });
    if r.0.cached_depth > 0 { r.1.push(Instruction::FlushCache) } else { r.1 }
}

/// The state stays within the cache size and the total depth within the steps taken.
pub open spec fn state_bounded(cs: u8, st: CacheState, k: int) -> bool {
    st.cached_depth <= cs && -2 * k <= st.total_depth <= 2 * k
}

/// Stack caching optimizer.
pub struct StackCacheOptimizer {
    /// Number of stack items cached in registers.
    pub cache_size: u8,
}

impl StackCacheOptimizer {
    pub fn new(cache_size: u8) -> (r: Self)
        requires
            0 < cache_size <= 8,
        ensures
            r.cache_size == cache_size,
    {
        StackCacheOptimizer { cache_size }
    }

    /// Applies stack caching to the top-level sequence and to every word,
    /// recomputing each word's stack effect and cost.
    pub fn optimize(&self, ir: &ForthIR) -> (r: Result<ForthIR, OptimizerError>)
        requires
            ir.main@.len() <= 0x1000_0000,
            forall|i: int| 0 <= i < ir.words@.len() ==> (#[trigger] ir.words@[i]).instructions@.len() <= 0x1000_0000,
        ensures
            r is Ok <==> forall|i: int| 0 <= i < ir.words@.len() ==> effect_fits(spec_cache_sequence(self.cache_size, #[trigger] ir.words@[i].instructions@)),
            r matches Ok(out) ==> {
                &&& out.main@ == spec_cache_sequence(self.cache_size, ir.main@)
                &&& out.words@.len() == ir.words@.len()
                &&& forall|i: int| 0 <= i < ir.words@.len() ==> {
                    &&& (#[trigger] out.words@[i]).name == ir.words@[i].name
                    &&& out.words@[i].instructions@ == spec_cache_sequence(self.cache_size, ir.words@[i].instructions@)
                    &&& out.words@[i].is_inline == ir.words@[i].is_inline
                    &&& out.words@[i].stack_effect == seq_effect(out.words@[i].instructions@)
                    &&& out.words@[i].cost == out.words@[i].instructions@.len()
                }
            },
            r matches Err(e) ==> e is InvalidStackEffect,
    {
        let mut optimized = ir.duplicate();
        optimized.main = self.optimize_sequence(&ir.main);
        let n = optimized.words.len();
        let mut i: usize = 0;
        while i < n
            invariant
                n == ir.words@.len(),
                n == optimized.words@.len(),
                i <= n,
                optimized.main@ == spec_cache_sequence(self.cache_size, ir.main@),
                forall|j: int| 0 <= j < ir.words@.len() ==> (#[trigger] ir.words@[j]).instructions@.len() <= 0x1000_0000,
                forall|j: int| 0 <= j < i ==> effect_fits(spec_cache_sequence(self.cache_size, #[trigger] ir.words@[j].instructions@)),
                forall|j: int| 0 <= j < i ==> {
                    &&& (#[trigger] optimized.words@[j]).name == ir.words@[j].name
                    &&& optimized.words@[j].instructions@ == spec_cache_sequence(self.cache_size, ir.words@[j].instructions@)
                    &&& optimized.words@[j].is_inline == ir.words@[j].is_inline
                    &&& optimized.words@[j].stack_effect == seq_effect(optimized.words@[j].instructions@)
                    &&& optimized.words@[j].cost == optimized.words@[j].instructions@.len()
                },
                forall|j: int| i <= j < n ==> {
                    &&& (#[trigger] optimized.words@[j]).name == ir.words@[j].name
                    &&& optimized.words@[j].instructions@ == ir.words@[j].instructions@
                    &&& optimized.words@[j].is_inline == ir.words@[j].is_inline
                },
            decreases n - i,
        {
            let instructions = self.optimize_sequence(&optimized.words[i].instructions);
            match rebuild_word(&optimized.words[i], instructions) {
                Ok(w) => {
                    optimized.words.set(i, w);
                },
                Err(e) => {
                    return Err(e);
                },
            }
            i = i + 1;
        }
        Ok(optimized)
    }

    /// Applies stack caching to one word and recomputes its stack effect and cost.
    pub fn optimize_word(&self, word: &WordDef) -> (r: WordDef)
        requires
            word.instructions@.len() <= 0x1000_0000,
            effect_fits(spec_cache_sequence(self.cache_size, word.instructions@)),
        ensures
            r.name == word.name,
            r.is_inline == word.is_inline,
            r.instructions@ == spec_cache_sequence(self.cache_size, word.instructions@),
            r.stack_effect == seq_effect(r.instructions@),
            r.cost == r.instructions@.len(),
    {
        let mut optimized = word.duplicate();
        optimized.instructions = self.optimize_sequence(&word.instructions);
        optimized.update();
        optimized
    }

    /// Applies stack caching to one instruction sequence.
    pub fn optimize_sequence(&self, instructions: &[Instruction]) -> (r: Vec<Instruction>)
        requires
            instructions@.len() <= 0x1000_0000,
        ensures
            r@ == spec_cache_sequence(self.cache_size, instructions@),
    {
        let mut result: Vec<Instruction> = Vec::new();
        let mut state = CacheState::new(self.cache_size);
        let mut i: usize = 0;
        while i < instructions.len()
            invariant
                i <= instructions.len(),
                instructions@.len() <= 0x1000_0000,
                (state, result@) == cache_run(self.cache_size, instructions@.take(i as int), CacheState { cached_depth: 0, total_depth: 0 }),
                state_bounded(self.cache_size, state, i as int),
            decreases instructions.len() - i,
        {
            assert(instructions@.take(i + 1).drop_last() =~= instructions@.take(i as int));
            let ghost before = result@;
            let out = self.transform_instruction(&instructions[i], &mut state, i);
            let mut j: usize = 0;
            while j < out.len()
                invariant
                    j <= out.len(),
                    result@ == before + out@.take(j as int),
                decreases out.len() - j,
            {
                result.push(out[j].duplicate());
                assert(before + out@.take(j + 1) =~= (before + out@.take(j as int)).push(out@[j as int]));
                j = j + 1;
            }
            assert(out@.take(out.len() as int) =~= out@);
            i = i + 1;
        }
        assert(instructions@.take(instructions.len() as int) =~= instructions@);
        if state.cached_depth > 0 {
            result.push(Instruction::FlushCache);
        }
        result
    }

    /// Transforms one instruction under the current cache state.
    pub fn transform_instruction(&self, inst: &Instruction, state: &mut CacheState, steps: usize) -> (r: Vec<Instruction>)
        requires
            steps < 0x1000_0000,
            state_bounded(self.cache_size, *old(state), steps as int),
        ensures
            (*final(state), r@) == cache_step(self.cache_size, *inst, *old(state)),
            state_bounded(self.cache_size, *final(state), steps + 1),
    {
        let mut result: Vec<Instruction> = Vec::new();
        match inst {
            Instruction::Literal(_) | Instruction::FloatLiteral(_) => {
                result.push(inst.duplicate());
                self.push_cache(state);
            }
            Instruction::Dup => {
                if state.cached_depth >= 1 {
                    result.push(Instruction::CachedDup { depth: state.cached_depth });
                    self.push_cache(state);
                } else {
                    result.push(Instruction::Dup);
                    state.total_depth = state.total_depth + 1;
                }
            }
            Instruction::Drop => {
                if state.cached_depth >= 1 {
                    self.pop_cache(state);
                    result.push(Instruction::Drop);
                } else {
                    result.push(Instruction::Drop);
                    state.total_depth = state.total_depth - 1;
                }
            }
            Instruction::Swap => {
                if state.cached_depth >= 2 {
                    result.push(Instruction::CachedSwap { depth: state.cached_depth });
                } else {
                    self.flush_cache(&mut result, state);
                    result.push(Instruction::Swap);
                }
            }
            Instruction::Over => {
                if state.cached_depth >= 2 {
                    result.push(Instruction::CachedOver { depth: state.cached_depth });
                    self.push_cache(state);
                } else {
                    self.flush_cache(&mut result, state);
                    result.push(Instruction::Over);
                    state.total_depth = state.total_depth + 1;
                }
            }
            Instruction::Add | Instruction::Sub | Instruction::Mul | Instruction::Div | Instruction::Mod
            | Instruction::And | Instruction::Or | Instruction::Xor | Instruction::Eq | Instruction::Ne
            | Instruction::Lt | Instruction::Le | Instruction::Gt | Instruction::Ge | Instruction::Shl
            | Instruction::Shr => {
                if state.cached_depth >= 2 {
                    result.push(inst.duplicate());
                    self.pop_cache(state);
                } else {
                    self.flush_cache(&mut result, state);
                    result.push(inst.duplicate());
                    state.total_depth = state.total_depth - 1;
                }
            }
            Instruction::Neg | Instruction::Abs | Instruction::Not | Instruction::ZeroEq | Instruction::ZeroLt
            | Instruction::ZeroGt | Instruction::DupAdd | Instruction::DupMul => {
                if state.cached_depth >= 1 {
                    result.push(inst.duplicate());
                } else {
                    self.flush_cache(&mut result, state);
                    result.push(inst.duplicate());
                }
            }
            Instruction::Call(_) | Instruction::Return | Instruction::Branch(_) | Instruction::BranchIf(_)
            | Instruction::BranchIfNot(_) => {
                self.flush_cache(&mut result, state);
                result.push(inst.duplicate());
            }
            Instruction::Comment(_) | Instruction::Label(_) | Instruction::Nop | Instruction::FlushCache
            | Instruction::CachedDup { .. } | Instruction::CachedSwap { .. } | Instruction::CachedOver { .. } => {
                result.push(inst.duplicate());
            }
            _ => {
                self.flush_cache(&mut result, state);
                result.push(inst.duplicate());
                let effect = inst.stack_effect();
                state.total_depth = state.total_depth + effect.produced as i32 - effect.consumed as i32;
            }
        }
        result
    }

    /// Pushes one item onto the cache.
    pub fn push_cache(&self, state: &mut CacheState)
        requires
            old(state).total_depth < i32::MAX,
        ensures
            *final(state) == spec_push(self.cache_size, *old(state)),
    {
        if state.cached_depth < self.cache_size {
            state.cached_depth = state.cached_depth + 1;
        }
        state.total_depth = state.total_depth + 1;
    }

    /// Pops one item from the cache.
    pub fn pop_cache(&self, state: &mut CacheState)
        requires
            old(state).total_depth > i32::MIN,
        ensures
            *final(state) == spec_pop(*old(state)),
    {
        if state.cached_depth > 0 {
            state.cached_depth = state.cached_depth - 1;
        }
        state.total_depth = state.total_depth - 1;
    }

    /// Flushes the cache to memory.
    pub fn flush_cache(&self, result: &mut Vec<Instruction>, state: &mut CacheState)
        ensures
            *final(state) == spec_flush(*old(state)).0,
            final(result)@ == old(result)@ + spec_flush(*old(state)).1,
    {
        if state.cached_depth > 0 {
            result.push(Instruction::FlushCache);
            state.cached_depth = 0;
        }
        assert(result@ =~= old(result)@ + spec_flush(*old(state)).1);
    }
}


/// The code emitted for one instruction does what the instruction does, on
/// every stack: cached forms act as the operations they stand for, and a
/// flush leaves the stack as it is.
proof fn lemma_cache_step_meaning(cs: u8, inst: Instruction, st: CacheState, u: Seq<i64>)
    ensures
        run(cache_step(cs, inst, st).1, u) == exec_instr(inst, u),
{
    let code = cache_step(cs, inst, st).1;
    lemma_run_one(inst, u);
    lemma_run_two(Instruction::FlushCache, inst, u);
    if code.len() == 1 {
        lemma_run_one(code[0], u);
        assert(code =~= seq![code[0]]);
    } else {
        assert(code =~= seq![Instruction::FlushCache, inst]);
    }
}

proof fn lemma_cache_run_meaning(cs: u8, s: Seq<Instruction>, st: CacheState, u: Seq<i64>)
    ensures
        run(cache_run(cs, s, st).1, u) == run(s, u),
    decreases s.len(),
{
    if s.len() == 0 {
        assert(run(Seq::<Instruction>::empty(), u) == Some(u));
    } else {
        let a = cache_run(cs, s.drop_last(), st);
        let b = cache_step(cs, s.last(), a.0);
        lemma_cache_run_meaning(cs, s.drop_last(), st, u);
        lemma_run_append(a.1, b.1, u);
        match run(a.1, u) {
            Some(w) => { lemma_cache_step_meaning(cs, s.last(), a.0, w); },
            None => {},
        }
    }
}

/// Stack caching keeps the meaning of a sequence: from any stack, the cached
/// form leaves the stack the unrewritten sequence leaves, and fails exactly where the
/// unrewritten sequence fails.
pub proof fn law_caching_keeps_meaning(cs: u8, s: Seq<Instruction>, st: Seq<i64>)
    ensures
        run(spec_cache_sequence(cs, s), st) == run(s, st),
{
    let r = cache_run(cs, s, CacheState { cached_depth: 0, total_depth: 0 });
    lemma_cache_run_meaning(cs, s, CacheState { cached_depth: 0, total_depth: 0 }, st);
    if r.0.cached_depth > 0 {
        assert(r.1.push(Instruction::FlushCache).drop_last() =~= r.1);
    }
}

} // verus!
