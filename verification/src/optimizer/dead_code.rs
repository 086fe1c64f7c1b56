//! Dead code elimination for stack operations: removes operation pairs that
//! cancel out, then pure operations that neither take nor leave a value.
use vstd::prelude::*;
use crate::optimizer::ir::{ForthIR, Instruction, WordDef, instr_effect, instr_pure, effect_fits, seq_effect, copy_instructions, rebuild_word, words_instruction_total};
use crate::optimizer::error::OptimizerError;
use crate::optimizer::semantics::{run, exec_instr, lemma_run_one, lemma_run_two, lemma_run_three, lemma_run_append};

verus! {

/// `op` is a binary operation removed together with its two literal operands and a `drop`.
pub open spec fn droppable_binop(op: Instruction) -> bool {
    op is Add || op is Sub || op is Mul || op is Div || op is Mod || op is And || op is Or || op is Xor
}

/// Removal of trivial operations scanning from position `i`: `dup drop`,
/// `swap swap`, `nop`, `literal drop`, and `literal literal op drop` are
/// dropped, and `over drop drop` (which leaves what `drop` leaves) becomes
/// `drop`; everything else is kept.
pub open spec fn trivial_from(s: Seq<Instruction>, i: int) -> Seq<Instruction>
    decreases s.len() - i,
{
    if i < 0 || i >= s.len() {
        Seq::empty()
    } else if i + 1 < s.len() && s[i] is Dup && s[i + 1] is Drop {
        trivial_from(s, i + 2)
    } else if i + 1 < s.len() && s[i] is Swap && s[i + 1] is Swap {
        trivial_from(s, i + 2)
    } else if i + 2 < s.len() && s[i] is Over && s[i + 1] is Drop && s[i + 2] is Drop {
        seq![Instruction::Drop] + trivial_from(s, i + 3)
    } else if s[i] is Nop {
        trivial_from(s, i + 1)
    } else if i + 1 < s.len() && s[i] is Literal && s[i + 1] is Drop {
        trivial_from(s, i + 2)
    } else if i + 3 < s.len() && s[i] is Literal && s[i + 1] is Literal && droppable_binop(s[i + 2]) && s[i + 3] is Drop {
        trivial_from(s, i + 4)
    } else {
        seq![s[i]] + trivial_from(s, i + 1)
    }
}

/// Instruction `i` is live: it has a side effect, or it changes the stack, so
/// that removing it alone would change what the sequence leaves. (Values that
/// are produced only to be dropped are removed with their `drop` by the
/// trivial-operation rules.)
pub open spec fn is_live(s: Seq<Instruction>, i: int) -> bool {
    !instr_pure(s[i]) || instr_effect(s[i]).consumed > 0 || instr_effect(s[i]).produced > 0
}

/// Instruction `i` is kept: it is live, or it is a label or a comment.
pub open spec fn is_kept(s: Seq<Instruction>, i: int) -> bool {
    is_live(s, i) || s[i] is Label || s[i] is Comment
}

/// The instructions of `s` that are kept, in order, among the first `n`.
pub open spec fn kept_prefix(s: Seq<Instruction>, n: int) -> Seq<Instruction>
    decreases n,
{
    if n <= 0 {
        Seq::empty()
    } else if is_kept(s, n - 1) {
        kept_prefix(s, n - 1).push(s[n - 1])
    } else {
        kept_prefix(s, n - 1)
    }
}

/// Dead code elimination of one sequence.
pub open spec fn spec_eliminate(s: Seq<Instruction>) -> Seq<Instruction> {
    let t = trivial_from(s, 0);
    kept_prefix(t, t.len() as int)
}

/// Dead code eliminator.
pub struct DeadCodeEliminator {
    /// Enable aggressive elimination.
    pub aggressive: bool,
}

impl DeadCodeEliminator {
    pub fn new() -> (r: Self)
        ensures
            r.aggressive,
    {
        DeadCodeEliminator { aggressive: true }
    }

    /// Eliminates dead code in the top-level sequence and in every word,
    /// recomputing each word's stack effect and cost.
    pub fn eliminate(&self, ir: &ForthIR) -> (r: Result<ForthIR, OptimizerError>)
        requires
            ir.main@.len() <= 0x1000_0000,
            forall|i: int| 0 <= i < ir.words@.len() ==> (#[trigger] ir.words@[i]).instructions@.len() <= 0x1000_0000,
        ensures
            r is Ok <==> forall|i: int| 0 <= i < ir.words@.len() ==> effect_fits(spec_eliminate(#[trigger] ir.words@[i].instructions@)),
            r matches Ok(out) ==> {
                &&& out.main@ == spec_eliminate(ir.main@)
                &&& out.words@.len() == ir.words@.len()
                &&& forall|i: int| 0 <= i < ir.words@.len() ==> {
                    &&& (#[trigger] out.words@[i]).name == ir.words@[i].name
                    &&& out.words@[i].instructions@ == spec_eliminate(ir.words@[i].instructions@)
                    &&& out.words@[i].is_inline == ir.words@[i].is_inline
                    &&& out.words@[i].stack_effect == seq_effect(out.words@[i].instructions@)
                    &&& out.words@[i].cost == out.words@[i].instructions@.len()
                }
            },
            r matches Err(e) ==> e is InvalidStackEffect,
    {
        let mut optimized = ir.duplicate();
        optimized.main = self.eliminate_sequence(&ir.main);
        let n = optimized.words.len();
        let mut i: usize = 0;
        while i < n
            invariant
                n == ir.words@.len(),
                n == optimized.words@.len(),
                i <= n,
                optimized.main@ == spec_eliminate(ir.main@),
                forall|j: int| 0 <= j < ir.words@.len() ==> (#[trigger] ir.words@[j]).instructions@.len() <= 0x1000_0000,
                forall|j: int| 0 <= j < i ==> effect_fits(spec_eliminate(#[trigger] ir.words@[j].instructions@)),
                forall|j: int| 0 <= j < i ==> {
                    &&& (#[trigger] optimized.words@[j]).name == ir.words@[j].name
                    &&& optimized.words@[j].instructions@ == spec_eliminate(ir.words@[j].instructions@)
                    &&& optimized.words@[j].is_inline == ir.words@[j].is_inline
                    &&& optimized.words@[j].stack_effect == seq_effect(optimized.words@[j].instructions@)
                    &&& optimized.words@[j].cost == optimized.words@[j].instructions@.len()
                },
                forall|j: int| i <= j < n ==> {
                    &&& (#[trigger] optimized.words@[j]).name == ir.words@[j].name
                    &&& optimized.words@[j].instructions@ == ir.words@[j].instructions@
                    &&& optimized.words@[j].is_inline == ir.words@[j].is_inline
                },
            decreases n - i,
        {
            let instructions = self.eliminate_sequence(&optimized.words[i].instructions);
            match rebuild_word(&optimized.words[i], instructions) {
                Ok(w) => {
                    optimized.words.set(i, w);
                },
                Err(e) => {
                    return Err(e);
                },
            }
            i = i + 1;
        }
        Ok(optimized)
    }

    /// Eliminates dead code in one word and recomputes its stack effect and cost.
    pub fn eliminate_word(&self, word: &WordDef) -> (r: WordDef)
        requires
            word.instructions@.len() <= 0x1000_0000,
            effect_fits(spec_eliminate(word.instructions@)),
        ensures
            r.name == word.name,
            r.is_inline == word.is_inline,
            r.instructions@ == spec_eliminate(word.instructions@),
            r.stack_effect == seq_effect(r.instructions@),
            r.cost == r.instructions@.len(),
    {
        let mut optimized = word.duplicate();
        optimized.instructions = self.eliminate_sequence(&word.instructions);
        optimized.update();
        optimized
    }

    /// Eliminates dead code in one instruction sequence.
    pub fn eliminate_sequence(&self, instructions: &[Instruction]) -> (r: Vec<Instruction>)
        requires
            instructions@.len() <= 0x1000_0000,
        ensures
            r@ == spec_eliminate(instructions@),
    {
        let result = self.remove_trivial_ops(instructions);
        proof { lemma_trivial_len(instructions@, 0); }
        let live = self.analyze_liveness(&result);
        let mut filtered: Vec<Instruction> = Vec::new();
        let mut i: usize = 0;
        while i < result.len()
            invariant
                i <= result.len(),
                live@.len() == result@.len(),
                forall|j: int| 0 <= j < result@.len() ==> live@[j] == is_live(result@, j),
                filtered@ == kept_prefix(result@, i as int),
            decreases result.len() - i,
        {
            if self.should_keep(&result[i], live[i]) {
                filtered.push(result[i].duplicate());
            }
            i = i + 1;
        }
        filtered
    }

    /// For each instruction, whether it is live.
    pub fn analyze_liveness(&self, instructions: &[Instruction]) -> (live: Vec<bool>)
        requires
            instructions@.len() <= 0x1000_0000,
        ensures
            live@.len() == instructions@.len(),
            forall|j: int| 0 <= j < instructions@.len() ==> live@[j] == is_live(instructions@, j),
    {
        let mut live: Vec<bool> = Vec::new();
        let mut j: usize = 0;
        while j < instructions.len()
            invariant
                j <= instructions@.len(),
                live@.len() == j,
                forall|q: int| 0 <= q < j ==> live@[q] == is_live(instructions@, q),
            decreases instructions@.len() - j,
        {
            let inst = &instructions[j];
            let e = inst.stack_effect();
            live.push(!inst.is_pure() || e.consumed > 0 || e.produced > 0);
            j = j + 1;
        }
        live
    }

    /// Whether an instruction is kept.
    pub fn should_keep(&self, inst: &Instruction, live: bool) -> (r: bool)
        ensures
            r == (!instr_pure(*inst) || live || *inst is Label || *inst is Comment),
    {
        if !inst.is_pure() {
            return true;
        }
        if live {
            return true;
        }
        match inst {
            Instruction::Branch(_) | Instruction::BranchIf(_) | Instruction::BranchIfNot(_)
            | Instruction::Return | Instruction::Label(_) | Instruction::Comment(_) => true,
            _ => false,
        }
    }

    /// Removes operations that cancel out.
    pub fn remove_trivial_ops(&self, instructions: &[Instruction]) -> (r: Vec<Instruction>)
        ensures
            r@ == trivial_from(instructions@, 0),
    {
        let s = instructions;
        let n = s.len();
        let mut result: Vec<Instruction> = Vec::new();
        let mut i: usize = 0;
        while i < n
            invariant
                n == s@.len(),
                i <= n,
                trivial_from(s@, 0) == result@ + trivial_from(s@, i as int),
            decreases n - i,
        {
            if n - i > 1 && matches!(s[i], Instruction::Dup) && matches!(s[i + 1], Instruction::Drop) {
                i = i + 2;
            } else if n - i > 1 && matches!(s[i], Instruction::Swap) && matches!(s[i + 1], Instruction::Swap) {
                i = i + 2;
            } else if n - i > 2 && matches!(s[i], Instruction::Over) && matches!(s[i + 1], Instruction::Drop)
                && matches!(s[i + 2], Instruction::Drop) {
                let ghost before = result@;
                result.push(Instruction::Drop);
                assert(before + trivial_from(s@, i as int) =~= result@ + trivial_from(s@, i + 3));
                i = i + 3;
            } else if matches!(s[i], Instruction::Nop) {
                i = i + 1;
            } else if n - i > 1 && matches!(s[i], Instruction::Literal(_)) && matches!(s[i + 1], Instruction::Drop) {
                i = i + 2;
            } else if n - i > 3 && matches!(s[i], Instruction::Literal(_)) && matches!(s[i + 1], Instruction::Literal(_))
                && matches!(s[i + 2], Instruction::Add | Instruction::Sub | Instruction::Mul | Instruction::Div
                    | Instruction::Mod | Instruction::And | Instruction::Or | Instruction::Xor)
                && matches!(s[i + 3], Instruction::Drop) {
                i = i + 4;
            } else {
                let ghost before = result@;
                result.push(s[i].duplicate());
                assert(before + trivial_from(s@, i as int) =~= result@ + trivial_from(s@, i + 1));
                i = i + 1;
            }
        }
        assert(result@ + trivial_from(s@, i as int) =~= result@);
        result
    }
}

proof fn lemma_trivial_len(s: Seq<Instruction>, i: int)
    requires
        0 <= i <= s.len(),
    ensures
        trivial_from(s, i).len() <= s.len() - i,
    decreases s.len() - i,
{
    if i < s.len() {
        if i + 1 < s.len() && s[i] is Dup && s[i + 1] is Drop {
            lemma_trivial_len(s, i + 2);
        } else if i + 1 < s.len() && s[i] is Swap && s[i + 1] is Swap {
            lemma_trivial_len(s, i + 2);
        } else if i + 2 < s.len() && s[i] is Over && s[i + 1] is Drop && s[i + 2] is Drop {
            lemma_trivial_len(s, i + 3);
        } else if s[i] is Nop {
            lemma_trivial_len(s, i + 1);
        } else if i + 1 < s.len() && s[i] is Literal && s[i + 1] is Drop {
            lemma_trivial_len(s, i + 2);
        } else if i + 3 < s.len() && s[i] is Literal && s[i + 1] is Literal && droppable_binop(s[i + 2]) && s[i + 3] is Drop {
            lemma_trivial_len(s, i + 4);
        } else {
            lemma_trivial_len(s, i + 1);
        }
    }
}



/// Instruction counts before and after elimination (the reduction as a
/// percentage is computed from them where it is shown).
#[derive(Debug, Clone, Copy)]
pub struct EliminationStats {
    pub before_instructions: usize,
    pub after_instructions: usize,
    pub instructions_eliminated: usize,
}

impl DeadCodeEliminator {
    /// Instructions in `before`, in `after`, and how many fewer `after` has.
    pub fn get_stats(&self, before: &ForthIR, after: &ForthIR) -> (r: EliminationStats)
        requires
            before.main@.len() + words_instruction_total(before.words@) <= usize::MAX,
            after.main@.len() + words_instruction_total(after.words@) <= usize::MAX,
        ensures
            r.before_instructions == before.main@.len() + words_instruction_total(before.words@),
            r.after_instructions == after.main@.len() + words_instruction_total(after.words@),
            r.instructions_eliminated == if r.before_instructions >= r.after_instructions {
                r.before_instructions - r.after_instructions
            } else {
                0
            },
    {
        let before_count = before.instruction_count();
        let after_count = after.instruction_count();
        EliminationStats {
            before_instructions: before_count,
            after_instructions: after_count,
            instructions_eliminated: before_count.saturating_sub(after_count),
        }
    }
}

impl Default for DeadCodeEliminator {
    fn default() -> (r: Self)
        ensures
            r.aggressive,
    {
        DeadCodeEliminator::new()
    }
}


/// The instructions that are left out as not kept do nothing to the stack.
proof fn lemma_unkept_does_nothing(s: Seq<Instruction>, i: int, t: Seq<i64>)
    requires
        0 <= i < s.len(),
        !is_kept(s, i),
    ensures
        exec_instr(s[i], t) == Some(t),
{
}

/// Leaving out the instructions that are not kept keeps the meaning of a
/// prefix, on every stack.
proof fn lemma_kept_prefix_meaning(s: Seq<Instruction>, n: int, st: Seq<i64>)
    requires
        0 <= n <= s.len(),
    ensures
        run(kept_prefix(s, n), st) == run(s.take(n), st),
    decreases n,
{
    if n > 0 {
        lemma_kept_prefix_meaning(s, n - 1, st);
        assert(s.take(n).drop_last() =~= s.take(n - 1));
        if is_kept(s, n - 1) {
            assert(kept_prefix(s, n).drop_last() =~= kept_prefix(s, n - 1));
        } else {
            match run(s.take(n - 1), st) {
                Some(t) => { lemma_unkept_does_nothing(s, n - 1, t); },
                None => {},
            }
        }
    } else {
        assert(s.take(0) =~= Seq::<Instruction>::empty());
    }
}

/// Removing trivial operations from position `i` keeps the meaning of what
/// follows, on every stack on which it runs.
proof fn lemma_trivial_from_meaning(s: Seq<Instruction>, i: int, t: Seq<i64>)
    requires
        0 <= i <= s.len(),
        run(s.subrange(i, s.len() as int), t) is Some,
    ensures
        run(trivial_from(s, i), t) == run(s.subrange(i, s.len() as int), t),
    decreases s.len() - i,
{
    let len = s.len() as int;
    let rest = s.subrange(i, len);
    if i == len {
        assert(rest =~= Seq::<Instruction>::empty());
    } else {
        let k: int = if i + 1 < len && s[i] is Dup && s[i + 1] is Drop { 2 }
            else if i + 1 < len && s[i] is Swap && s[i + 1] is Swap { 2 }
            else if i + 2 < len && s[i] is Over && s[i + 1] is Drop && s[i + 2] is Drop { 3 }
            else if s[i] is Nop { 1 }
            else if i + 1 < len && s[i] is Literal && s[i + 1] is Drop { 2 }
            else if i + 3 < len && s[i] is Literal && s[i + 1] is Literal && droppable_binop(s[i + 2]) && s[i + 3] is Drop { 4 }
            else { 1 };
        let head = s.subrange(i, i + k);
        let tail = s.subrange(i + k, len);
        assert(rest =~= head + tail);
        lemma_run_append(head, tail, t);
        let u = run(head, t)->0;
        let kept: Seq<Instruction> = if i + 2 < len && s[i] is Over && s[i + 1] is Drop && s[i + 2] is Drop {
            seq![Instruction::Drop]
        } else if k == 1 && !(s[i] is Nop) {
            seq![s[i]]
        } else {
            Seq::empty()
        };
        assert(trivial_from(s, i) == kept + trivial_from(s, i + k));
        lemma_run_append(kept, trivial_from(s, i + k), t);
        lemma_trivial_from_meaning(s, i + k, u);
        let n = t.len();
        if k == 1 {
            assert(head =~= seq![s[i]]);
            lemma_run_one(s[i], t);
            assert(kept =~= seq![s[i]] || kept =~= Seq::<Instruction>::empty());
            assert(run(Seq::<Instruction>::empty(), t) == Some(t));
            assert(run(kept, t) == Some(u));
        } else if k == 2 {
            assert(head =~= seq![s[i], s[i + 1]]);
            lemma_run_two(s[i], s[i + 1], t);
            assert(run(Seq::<Instruction>::empty(), t) == Some(t));
            if s[i] is Swap {
                let sw = t.drop_last().drop_last().push(t[n - 1]).push(t[n - 2]);
                assert(sw.drop_last().drop_last() =~= t.drop_last().drop_last());
                assert(sw.drop_last().drop_last().push(sw[n - 1]).push(sw[n - 2]) =~= t);
            } else {
                assert(exec_instr(s[i], t) matches Some(w) && w.drop_last() =~= t);
            }
            assert(run(kept, t) == Some(u));
        } else if k == 3 {
            assert(head =~= seq![s[i], s[i + 1], s[i + 2]]);
            lemma_run_three(s[i], s[i + 1], s[i + 2], t);
            lemma_run_two(s[i], s[i + 1], t);
            lemma_run_one(Instruction::Drop, t);
            assert(t.push(t[n - 2]).drop_last() =~= t);
            assert(run(kept, t) == Some(u));
        } else {
            assert(head =~= seq![s[i], s[i + 1], s[i + 2]] + seq![s[i + 3]]);
            lemma_run_append(seq![s[i], s[i + 1], s[i + 2]], seq![s[i + 3]], t);
            lemma_run_three(s[i], s[i + 1], s[i + 2], t);
            lemma_run_two(s[i], s[i + 1], t);
            match run(seq![s[i], s[i + 1], s[i + 2]], t) {
                Some(w) => { lemma_run_one(s[i + 3], w); },
                None => {},
            }
            let a = s[i]->Literal_0;
            let b = s[i + 1]->Literal_0;
            let w2 = t.push(a).push(b);
            assert(w2.drop_last().drop_last() =~= t);
            assert(run(Seq::<Instruction>::empty(), t) == Some(t));
            assert(run(kept, t) == Some(u));
        }
    }
}

/// Dead code elimination keeps the meaning of a sequence: from any stack on
/// which it runs, what is left leaves the same stack.
pub proof fn law_elimination_keeps_meaning(s: Seq<Instruction>, st: Seq<i64>)
    requires
        run(s, st) is Some,
    ensures
        run(spec_eliminate(s), st) == run(s, st),
{
    assert(s.subrange(0, s.len() as int) =~= s);
    lemma_trivial_from_meaning(s, 0, st);
    let t = trivial_from(s, 0);
    lemma_kept_prefix_meaning(t, t.len() as int, st);
    assert(t.take(t.len() as int) =~= t);
}

} // verus!
