//! Inlining: calls to small, non-recursive words that are not called too
//! often are replaced by the words' instructions.
use vstd::prelude::*;
use crate::optimizer::ir::{ForthIR, Instruction, WordDef, effect_fits, seq_effect, word_index, names_distinct, words_instruction_total, rebuild_word};
use crate::optimizer::error::OptimizerError;
use crate::optimizer::pipeline::OptimizationLevel;

verus! {

/// Largest word inlined at the basic level.
pub const INLINE_THRESHOLD_BASIC: usize = 3;
/// Largest word inlined at the standard level.
pub const INLINE_THRESHOLD_STANDARD: usize = 10;
/// Largest word inlined at the aggressive level.
pub const INLINE_THRESHOLD_AGGRESSIVE: usize = 25;
/// Most call sites a word may have to be inlined below the aggressive level.
pub const MAX_INLINE_SITES_STANDARD: usize = 5;
/// Most call sites a word may have to be inlined at the aggressive level.
pub const MAX_INLINE_SITES_AGGRESSIVE: usize = 20;

/// The decision taken for a word.
#[derive(Debug, Clone, Copy, PartialEq, Eq, Structural)]
pub enum InlineDecision {
    Inline,
    NoInline,
    TooLarge,
    TooManyCalls,
    Recursive,
}

/// Inlining optimizer.
pub struct InlineOptimizer {
    pub level: OptimizationLevel,
    pub inline_threshold: usize,
    pub max_inline_sites: usize,
}

/// Number of calls to `name` in `s`.
pub open spec fn calls_in(s: Seq<Instruction>, name: Seq<char>) -> nat
    decreases s.len(),
{
    if s.len() == 0 {
        0
    } else {
        calls_in(s.drop_last(), name) + if s.last() matches Instruction::Call(n) && n@ == name { 1nat } else { 0nat }
    }
}

/// Number of calls to `name` in the words `ws`.
pub open spec fn calls_in_words(ws: Seq<WordDef>, name: Seq<char>) -> nat
    decreases ws.len(),
{
    if ws.len() == 0 {
        0
    } else {
        calls_in_words(ws.drop_last(), name) + calls_in(ws.last().instructions@, name)
    }
}

/// Number of calls to `name` in the whole program.
pub open spec fn call_count(ir: ForthIR, name: Seq<char>) -> nat {
    calls_in(ir.main@, name) + calls_in_words(ir.words@, name)
}

/// `inst` calls the word `name`.
pub open spec fn is_call_to(inst: Instruction, name: Seq<char>) -> bool {
    inst matches Instruction::Call(n) && n@ == name
}

/// The word calls itself.
pub open spec fn calls_itself(w: WordDef) -> bool {
    exists|i: int| 0 <= i < w.instructions@.len() && is_call_to(#[trigger] w.instructions@[i], w.name@)
}

/// The decision for a word called `count` times.
pub open spec fn decide(o: InlineOptimizer, w: WordDef, count: nat) -> InlineDecision {
    if w.is_inline {
        InlineDecision::Inline
    } else if calls_itself(w) {
        InlineDecision::Recursive
    } else if w.cost > o.inline_threshold {
        InlineDecision::TooLarge
    } else if count > o.max_inline_sites {
        InlineDecision::TooManyCalls
    } else {
        InlineDecision::Inline
    }
}

/// What a call to `name` expands to: the word's instructions when it is inlined.
pub open spec fn expansion(o: InlineOptimizer, ir: ForthIR, name: Seq<char>) -> Option<Seq<Instruction>> {
    match word_index(ir.words@, name) {
        Some(i) => if decide(o, ir.words@[i], call_count(ir, name)) == InlineDecision::Inline {
            Some(ir.words@[i].instructions@)
        } else {
            None
        },
        None => None,
    }
}

/// `s` with every inlined call replaced by the called word's instructions.
pub open spec fn inline_seq(o: InlineOptimizer, ir: ForthIR, s: Seq<Instruction>) -> Seq<Instruction>
    decreases s.len(),
{
    if s.len() == 0 {
        Seq::empty()
    } else {
        inline_seq(o, ir, s.drop_last()) + match s.last() {
            Instruction::Call(n) => match expansion(o, ir, n@) {
                Some(body) => body,
                None => seq![s.last()],
            },
            _ => seq![s.last()],
        }
    }
}

/// Inlining statistics.
#[derive(Debug, Clone, Copy)]
pub struct InlineStats {
    pub calls_before: usize,
    pub calls_after: usize,
    pub calls_inlined: usize,
    pub instructions_before: usize,
    pub instructions_after: usize,
}

/// Number of calls of any word in `s`.
pub open spec fn all_calls_in(s: Seq<Instruction>) -> nat
    decreases s.len(),
{
    if s.len() == 0 {
        0
    } else {
        all_calls_in(s.drop_last()) + if s.last() is Call { 1nat } else { 0nat }
    }
}

/// Number of calls of any word in the words `ws`.
pub open spec fn all_calls_in_words(ws: Seq<WordDef>) -> nat
    decreases ws.len(),
{
    if ws.len() == 0 {
        0
    } else {
        all_calls_in_words(ws.drop_last()) + all_calls_in(ws.last().instructions@)
    }
}

/// Number of calls in the whole program.
pub open spec fn total_calls(ir: ForthIR) -> nat {
    all_calls_in(ir.main@) + all_calls_in_words(ir.words@)
}

/// Fewer instructions than `usize` can count.
pub open spec fn program_size_fits(ir: ForthIR) -> bool {
    ir.main@.len() + words_instruction_total(ir.words@) <= usize::MAX
}

proof fn lemma_calls_in_le(s: Seq<Instruction>, name: Seq<char>)
    ensures
        calls_in(s, name) <= all_calls_in(s) <= s.len(),
    decreases s.len(),
{
    if s.len() > 0 {
        lemma_calls_in_le(s.drop_last(), name);
    }
}

proof fn lemma_calls_in_words_le(ws: Seq<WordDef>, name: Seq<char>)
    ensures
        calls_in_words(ws, name) <= all_calls_in_words(ws) <= words_instruction_total(ws),
    decreases ws.len(),
{
    if ws.len() > 0 {
        lemma_calls_in_words_le(ws.drop_last(), name);
        lemma_calls_in_le(ws.last().instructions@, name);
    }
}

/// Counts the calls to `name` in `s`.
fn count_calls_in(s: &[Instruction], name: &String) -> (r: usize)
    ensures
        r == calls_in(s@, name@),
{
    let mut c: usize = 0;
    let mut i: usize = 0;
    while i < s.len()
        invariant
            i <= s.len(),
            c == calls_in(s@.take(i as int), name@),
            c <= i,
        decreases s.len() - i,
    {
        assert(s@.take(i + 1).drop_last() =~= s@.take(i as int));
        match &s[i] {
            Instruction::Call(n) => {
                if *n == *name {
                    c = c + 1;
                }
            }
            _ => {}
        }
        i = i + 1;
    }
    assert(s@.take(s.len() as int) =~= s@);
    c
}

/// Counts the calls of any word in `s`.
fn count_all_calls_in(s: &[Instruction]) -> (r: usize)
    ensures
        r == all_calls_in(s@),
{
    let mut c: usize = 0;
    let mut i: usize = 0;
    while i < s.len()
        invariant
            i <= s.len(),
            c == all_calls_in(s@.take(i as int)),
            c <= i,
        decreases s.len() - i,
    {
        assert(s@.take(i + 1).drop_last() =~= s@.take(i as int));
        if matches!(&s[i], Instruction::Call(_)) {
            c = c + 1;
        }
        i = i + 1;
    }
    assert(s@.take(s.len() as int) =~= s@);
    c
}

impl InlineOptimizer {
    pub fn new(level: OptimizationLevel) -> (r: Self)
        ensures
            r.level == level,
            r.inline_threshold == (match level {
                OptimizationLevel::Unoptimized => 0usize,
                OptimizationLevel::Basic => INLINE_THRESHOLD_BASIC,
                OptimizationLevel::Standard => INLINE_THRESHOLD_STANDARD,
                OptimizationLevel::Aggressive => INLINE_THRESHOLD_AGGRESSIVE,
            }),
            r.max_inline_sites == (match level {
                OptimizationLevel::Unoptimized => 0usize,
                OptimizationLevel::Basic => MAX_INLINE_SITES_STANDARD,
                OptimizationLevel::Standard => MAX_INLINE_SITES_STANDARD,
                OptimizationLevel::Aggressive => MAX_INLINE_SITES_AGGRESSIVE,
            }),
    {
        let (inline_threshold, max_inline_sites) = match level {
            OptimizationLevel::Unoptimized => (0, 0),
            OptimizationLevel::Basic => (INLINE_THRESHOLD_BASIC, MAX_INLINE_SITES_STANDARD),
            OptimizationLevel::Standard => (INLINE_THRESHOLD_STANDARD, MAX_INLINE_SITES_STANDARD),
            OptimizationLevel::Aggressive => (INLINE_THRESHOLD_AGGRESSIVE, MAX_INLINE_SITES_AGGRESSIVE),
        };
        InlineOptimizer { level, inline_threshold, max_inline_sites }
    }

    /// Inlines small words in the top-level sequence and in every word,
    /// recomputing each word's stack effect and cost; at level `None` the IR is
    /// returned unchanged.
    pub fn inline(&self, ir: &ForthIR) -> (r: Result<ForthIR, OptimizerError>)
        requires
            ir.wf(),
            program_size_fits(*ir),
        ensures
            r is Ok <==> (self.level != OptimizationLevel::Unoptimized ==>
                forall|i: int| 0 <= i < ir.words@.len() ==> effect_fits(inline_seq(*self, *ir, #[trigger] ir.words@[i].instructions@))),
            r matches Err(e) ==> e is InvalidStackEffect,
            r matches Ok(out) ==> out.words@.len() == ir.words@.len() && if self.level == OptimizationLevel::Unoptimized {
                &&& out.main@ == ir.main@
                &&& forall|i: int| 0 <= i < ir.words@.len() ==> crate::optimizer::ir::same_word(#[trigger] out.words@[i], ir.words@[i])
            } else {
                &&& out.main@ == inline_seq(*self, *ir, ir.main@)
                &&& forall|i: int| 0 <= i < ir.words@.len() ==> {
                    &&& (#[trigger] out.words@[i]).name == ir.words@[i].name
                    &&& out.words@[i].instructions@ == inline_seq(*self, *ir, ir.words@[i].instructions@)
                    &&& out.words@[i].is_inline == ir.words@[i].is_inline
                    &&& out.words@[i].stack_effect == seq_effect(out.words@[i].instructions@)
                    &&& out.words@[i].cost == out.words@[i].instructions@.len()
                }
            },
    {
        if self.level == OptimizationLevel::Unoptimized {
            return Ok(ir.duplicate());
        }
        let decisions = self.make_inline_decisions(ir);
        let mut optimized = ir.duplicate();
        optimized.main = self.inline_sequence(&ir.main, ir, &decisions);
        let n = optimized.words.len();
        let mut i: usize = 0;
        while i < n
            invariant
                n == ir.words@.len(),
                n == optimized.words@.len(),
                i <= n,
                self.level != OptimizationLevel::Unoptimized,
                ir.wf(),
                decisions@.len() == ir.words@.len(),
                forall|j: int| 0 <= j < ir.words@.len() ==> #[trigger] decisions@[j] == decide(*self, ir.words@[j], call_count(*ir, ir.words@[j].name@)),
                optimized.main@ == inline_seq(*self, *ir, ir.main@),
                forall|j: int| 0 <= j < i ==> effect_fits(inline_seq(*self, *ir, #[trigger] ir.words@[j].instructions@)),
                forall|j: int| 0 <= j < i ==> {
                    &&& (#[trigger] optimized.words@[j]).name == ir.words@[j].name
                    &&& optimized.words@[j].instructions@ == inline_seq(*self, *ir, ir.words@[j].instructions@)
                    &&& optimized.words@[j].is_inline == ir.words@[j].is_inline
                    &&& optimized.words@[j].stack_effect == seq_effect(optimized.words@[j].instructions@)
                    &&& optimized.words@[j].cost == optimized.words@[j].instructions@.len()
                },
                forall|j: int| i <= j < n ==> {
                    &&& (#[trigger] optimized.words@[j]).name == ir.words@[j].name
                    &&& optimized.words@[j].is_inline == ir.words@[j].is_inline
                },
            decreases n - i,
        {
            let instructions = self.inline_sequence(&ir.words[i].instructions, ir, &decisions);
            match rebuild_word(&optimized.words[i], instructions) {
                Ok(w) => {
                    optimized.words.set(i, w);
                },
                Err(e) => {
                    assert(!effect_fits(inline_seq(*self, *ir, ir.words@[i as int].instructions@)));
                        return Err(e);
                },
            }
            i = i + 1;
        }
        Ok(optimized)
    }

    /// Number of calls to `name` in the whole program.
    pub fn count_calls(&self, ir: &ForthIR, name: &String) -> (r: usize)
        requires
            program_size_fits(*ir),
        ensures
            r == call_count(*ir, name@),
    {
        let mut total = count_calls_in(&ir.main, name);
        let mut i: usize = 0;
        proof {
            lemma_calls_in_le(ir.main@, name@);
            lemma_calls_in_words_le(ir.words@, name@);
            assert(ir.words@.take(0) =~= Seq::<WordDef>::empty());
        }
        while i < ir.words.len()
            invariant
                i <= ir.words.len(),
                program_size_fits(*ir),
                total == calls_in(ir.main@, name@) + calls_in_words(ir.words@.take(i as int), name@),
                calls_in(ir.main@, name@) <= ir.main@.len(),
            decreases ir.words.len() - i,
        {
            proof {
                assert(ir.words@.take(i + 1).drop_last() =~= ir.words@.take(i as int));
                lemma_calls_in_words_le(ir.words@.take(i + 1), name@);
                crate::optimizer::ir::lemma_words_total_prefix(ir.words@, i + 1);
            }
            let c = count_calls_in(&ir.words[i].instructions, name);
            total = total + c;
            i = i + 1;
        }
        assert(ir.words@.take(ir.words.len() as int) =~= ir.words@);
        total
    }

    /// The decision for every word, in order.
    pub fn make_inline_decisions(&self, ir: &ForthIR) -> (r: Vec<InlineDecision>)
        requires
            program_size_fits(*ir),
        ensures
            r@.len() == ir.words@.len(),
            forall|j: int| 0 <= j < ir.words@.len() ==> #[trigger] r@[j] == decide(*self, ir.words@[j], call_count(*ir, ir.words@[j].name@)),
    {
        let mut r: Vec<InlineDecision> = Vec::new();
        let mut i: usize = 0;
        while i < ir.words.len()
            invariant
                i <= ir.words.len(),
                program_size_fits(*ir),
                r@.len() == i,
                forall|j: int| 0 <= j < i ==> #[trigger] r@[j] == decide(*self, ir.words@[j], call_count(*ir, ir.words@[j].name@)),
            decreases ir.words.len() - i,
        {
            let count = self.count_calls(ir, &ir.words[i].name);
            r.push(self.should_inline(&ir.words[i], count));
            i = i + 1;
        }
        r
    }

    /// The decision for a word called `call_count` times.
    pub fn should_inline(&self, word: &WordDef, call_count: usize) -> (r: InlineDecision)
        ensures
            r == decide(*self, *word, call_count as nat),
    {
        if word.is_inline {
            return InlineDecision::Inline;
        }
        if self.is_recursive(word) {
            return InlineDecision::Recursive;
        }
        if word.cost > self.inline_threshold {
            return InlineDecision::TooLarge;
        }
        if call_count > self.max_inline_sites {
            return InlineDecision::TooManyCalls;
        }
        InlineDecision::Inline
    }

    /// Whether the word calls itself.
    pub fn is_recursive(&self, word: &WordDef) -> (r: bool)
        ensures
            r == calls_itself(*word),
    {
        let mut i: usize = 0;
        while i < word.instructions.len()
            invariant
                i <= word.instructions.len(),
                forall|j: int| 0 <= j < i ==> !is_call_to(#[trigger] word.instructions@[j], word.name@),
            decreases word.instructions.len() - i,
        {
            match &word.instructions[i] {
                Instruction::Call(n) => {
                    if *n == word.name {
                        return true;
                    }
                }
                _ => {}
            }
            i = i + 1;
        }
        false
    }

    /// Replaces inlined calls in one sequence.
    pub fn inline_sequence(&self, instructions: &[Instruction], ir: &ForthIR, decisions: &Vec<InlineDecision>) -> (r: Vec<Instruction>)
        requires
            ir.wf(),
            decisions@.len() == ir.words@.len(),
            forall|j: int| 0 <= j < ir.words@.len() ==> #[trigger] decisions@[j] == decide(*self, ir.words@[j], call_count(*ir, ir.words@[j].name@)),
        ensures
            r@ == inline_seq(*self, *ir, instructions@),
    {
        let mut result: Vec<Instruction> = Vec::new();
        let mut i: usize = 0;
        while i < instructions.len()
            invariant
                i <= instructions.len(),
                ir.wf(),
                decisions@.len() == ir.words@.len(),
                forall|j: int| 0 <= j < ir.words@.len() ==> #[trigger] decisions@[j] == decide(*self, ir.words@[j], call_count(*ir, ir.words@[j].name@)),
                result@ == inline_seq(*self, *ir, instructions@.take(i as int)),
            decreases instructions.len() - i,
        {
            assert(instructions@.take(i + 1).drop_last() =~= instructions@.take(i as int));
            let ghost before = result@;
            let mut expanded = false;
            match &instructions[i] {
                Instruction::Call(name) => {
                    match ir.find_word(name) {
                        Some(k) => {
                            if decisions[k] == InlineDecision::Inline {
                                let body = &ir.words[k].instructions;
                                let mut j: usize = 0;
                                while j < body.len()
                                    invariant
                                        j <= body.len(),
                                        result@ == before + body@.take(j as int),
                                    decreases body.len() - j,
                                {
                                    result.push(body[j].duplicate());
                                    assert(before + body@.take(j + 1) =~= (before + body@.take(j as int)).push(body@[j as int]));
                                    j = j + 1;
                                }
                                assert(body@.take(body.len() as int) =~= body@);
                                expanded = true;
                            }
                        }
                        None => {}
                    }
                }
                _ => {}
            }
            if !expanded {
                result.push(instructions[i].duplicate());
            }
            i = i + 1;
        }
        assert(instructions@.take(instructions.len() as int) =~= instructions@);
        result
    }

    /// Calls and instructions before and after inlining.
    pub fn get_stats(&self, before: &ForthIR, after: &ForthIR) -> (r: InlineStats)
        requires
            program_size_fits(*before),
            program_size_fits(*after),
        ensures
            r.calls_before == total_calls(*before),
            r.calls_after == total_calls(*after),
            r.calls_inlined == (if total_calls(*before) >= total_calls(*after) { total_calls(*before) - total_calls(*after) } else { 0 }),
            r.instructions_before == before.main@.len() + words_instruction_total(before.words@),
            r.instructions_after == after.main@.len() + words_instruction_total(after.words@),
    {
        let before_calls = self.count_total_calls(before);
        let after_calls = self.count_total_calls(after);
        InlineStats {
            calls_before: before_calls,
            calls_after: after_calls,
            calls_inlined: before_calls.saturating_sub(after_calls),
            instructions_before: before.instruction_count(),
            instructions_after: after.instruction_count(),
        }
    }

    /// Number of calls in the whole program.
    pub fn count_total_calls(&self, ir: &ForthIR) -> (r: usize)
        requires
            program_size_fits(*ir),
        ensures
            r == total_calls(*ir),
    {
        let mut total = count_all_calls_in(&ir.main);
        let mut i: usize = 0;
        proof {
            lemma_calls_in_le(ir.main@, Seq::empty());
            assert(ir.words@.take(0) =~= Seq::<WordDef>::empty());
        }
        while i < ir.words.len()
            invariant
                i <= ir.words.len(),
                program_size_fits(*ir),
                total == all_calls_in(ir.main@) + all_calls_in_words(ir.words@.take(i as int)),
                all_calls_in(ir.main@) <= ir.main@.len(),
            decreases ir.words.len() - i,
        {
            proof {
                assert(ir.words@.take(i + 1).drop_last() =~= ir.words@.take(i as int));
                lemma_calls_in_words_le(ir.words@.take(i + 1), Seq::empty());
                crate::optimizer::ir::lemma_words_total_prefix(ir.words@, i + 1);
            }
            let c = count_all_calls_in(&ir.words[i].instructions);
            total = total + c;
            i = i + 1;
        }
        assert(ir.words@.take(ir.words.len() as int) =~= ir.words@);
        total
    }
}

} // verus!
