//! Superinstruction recognition: common instruction pairs are fused into single
//! instructions, scanning left to right and trying the patterns in a fixed order.
use vstd::prelude::*;
use crate::optimizer::ir::{ForthIR, Instruction, WordDef, effect_fits, seq_effect, rebuild_word, words_instruction_total};
use crate::optimizer::error::OptimizerError;
use crate::optimizer::semantics::{run, lemma_run_one, lemma_run_two, lemma_run_append};
use crate::optimizer::arith::spec_wrapping_div;

verus! {

/// A pattern: a sequence to match and its replacement.
pub struct Pattern {
    pub sequence: Vec<Instruction>,
    pub replacement: Vec<Instruction>,
    pub name: &'static str,
}

/// How a pattern instruction matches a program instruction: the stack,
/// arithmetic and comparison operations that patterns use match themselves,
/// and literals match literals of the same value.
pub open spec fn inst_match(p: Instruction, x: Instruction) -> bool {
    match (p, x) {
        (Instruction::Dup, Instruction::Dup) => true,
        (Instruction::Drop, Instruction::Drop) => true,
        (Instruction::Swap, Instruction::Swap) => true,
        (Instruction::Over, Instruction::Over) => true,
        (Instruction::Add, Instruction::Add) => true,
        (Instruction::Sub, Instruction::Sub) => true,
        (Instruction::Mul, Instruction::Mul) => true,
        (Instruction::Div, Instruction::Div) => true,
        (Instruction::Eq, Instruction::Eq) => true,
        (Instruction::Lt, Instruction::Lt) => true,
        (Instruction::Gt, Instruction::Gt) => true,
        (Instruction::ZeroEq, Instruction::ZeroEq) => true,
        (Instruction::ZeroLt, Instruction::ZeroLt) => true,
        (Instruction::ZeroGt, Instruction::ZeroGt) => true,
        (Instruction::Literal(a), Instruction::Literal(b)) => a == b,
        _ => false,
    }
}

/// The pattern library, in the order patterns are tried.
pub open spec fn library() -> Seq<(Seq<Instruction>, Seq<Instruction>)> {
    seq![
        (seq![Instruction::Dup, Instruction::Add], seq![Instruction::DupAdd]),
        (seq![Instruction::Dup, Instruction::Mul], seq![Instruction::DupMul]),
        (seq![Instruction::Literal(1), Instruction::Add], seq![Instruction::IncOne]),
        (seq![Instruction::Literal(1), Instruction::Sub], seq![Instruction::DecOne]),
        (seq![Instruction::Literal(2), Instruction::Mul], seq![Instruction::MulTwo]),
        (seq![Instruction::Literal(2), Instruction::Div], seq![Instruction::DivTwo]),
        (seq![Instruction::Over, Instruction::Add], seq![Instruction::OverAdd]),
        (seq![Instruction::Swap, Instruction::Sub], seq![Instruction::SwapSub]),
        (seq![Instruction::Literal(3), Instruction::Add], seq![Instruction::LiteralAdd(3)]),
        (seq![Instruction::Literal(4), Instruction::Add], seq![Instruction::LiteralAdd(4)]),
        (seq![Instruction::Literal(8), Instruction::Add], seq![Instruction::LiteralAdd(8)]),
        (seq![Instruction::Literal(16), Instruction::Add], seq![Instruction::LiteralAdd(16)]),
        (seq![Instruction::Literal(3), Instruction::Mul], seq![Instruction::LiteralMul(3)]),
        (seq![Instruction::Literal(4), Instruction::Mul], seq![Instruction::LiteralMul(4)]),
        (seq![Instruction::Literal(10), Instruction::Mul], seq![Instruction::LiteralMul(10)]),
        (seq![Instruction::Swap, Instruction::Drop], seq![Instruction::Nip]),
        (seq![Instruction::Swap, Instruction::Over], seq![Instruction::Tuck]),
        (seq![Instruction::Literal(0), Instruction::Eq], seq![Instruction::ZeroEq]),
        (seq![Instruction::Literal(0), Instruction::Lt], seq![Instruction::ZeroLt]),
        (seq![Instruction::Literal(0), Instruction::Gt], seq![Instruction::ZeroGt]),
        (seq![Instruction::Dup, Instruction::Drop], seq![Instruction::Nop]),
        (seq![Instruction::Swap, Instruction::Swap], seq![Instruction::Nop]),
    ]
}

/// The names of the library's patterns, in order.
pub open spec fn library_names() -> Seq<Seq<char>> {
    seq![
        "dup_add"@,
        "dup_mul"@,
        "inc_one"@,
        "dec_one"@,
        "mul_two"@,
        "div_two"@,
        "over_add"@,
        "swap_sub"@,
        "literal_add_3"@,
        "literal_add_4"@,
        "literal_add_8"@,
        "literal_add_16"@,
        "literal_mul_3"@,
        "literal_mul_4"@,
        "literal_mul_10"@,
        "swap_drop_nip"@,
        "swap_over"@,
        "zero_eq"@,
        "zero_lt"@,
        "zero_gt"@,
        "dup_drop"@,
        "swap_swap"@,
    ]
}

/// `pat` matches `s` at `pos`.
pub open spec fn pattern_matches(pat: Seq<Instruction>, s: Seq<Instruction>, pos: int) -> bool {
    &&& pos + pat.len() <= s.len()
    &&& forall|k: int| 0 <= k < pat.len() ==> inst_match(#[trigger] pat[k], s[pos + k])
}

/// The first pattern of `pats`, from index `k` on, that matches `s` at `pos`.
pub open spec fn first_match(pats: Seq<(Seq<Instruction>, Seq<Instruction>)>, s: Seq<Instruction>, pos: int, k: int) -> Option<int>
    decreases pats.len() - k,
{
    if k < 0 || k >= pats.len() {
        None
    } else if pattern_matches(pats[k].0, s, pos) {
        Some(k)
    } else {
        first_match(pats, s, pos, k + 1)
    }
}

proof fn lemma_first_match_sound(pats: Seq<(Seq<Instruction>, Seq<Instruction>)>, s: Seq<Instruction>, pos: int, k: int)
    ensures
        first_match(pats, s, pos, k) matches Some(j) ==> 0 <= k <= j < pats.len() && pattern_matches(pats[j].0, s, pos),
    decreases pats.len() - k,
{
    if 0 <= k < pats.len() && !pattern_matches(pats[k].0, s, pos) {
        lemma_first_match_sound(pats, s, pos, k + 1);
    }
}

/// Recognition from position `pos`: at each position the first matching
/// pattern is replaced, otherwise the instruction is copied.
pub open spec fn recognize_from(s: Seq<Instruction>, pos: int) -> Seq<Instruction>
    decreases s.len() - pos,
{
    if pos < 0 || pos >= s.len() {
        Seq::empty()
    } else {
        match first_match(library(), s, pos, 0) {
            Some(k) if 0 <= k < library().len() && library()[k].0.len() > 0 && pos + library()[k].0.len() <= s.len() => library()[k].1 + recognize_from(s, pos + library()[k].0.len()),
            _ => seq![s[pos]] + recognize_from(s, pos + 1),
        }
    }
}

/// The recognized form of a sequence.
pub open spec fn spec_recognize(s: Seq<Instruction>) -> Seq<Instruction> {
    recognize_from(s, 0)
}

/// Superinstruction optimizer.
pub struct SuperinstructionOptimizer {
    patterns: Vec<Pattern>,
}

impl SuperinstructionOptimizer {
    /// Its patterns are the library, in order.
    #[verifier::type_invariant]
    spec fn holds_library(self) -> bool {
        &&& self.patterns@.len() == library().len()
        &&& forall|k: int| 0 <= k < library().len() ==> {
            &&& (#[trigger] self.patterns@[k]).sequence@ == library()[k].0
            &&& self.patterns@[k].replacement@ == library()[k].1
        }
    }

    /// The patterns, each as its sequence and its replacement, in order.
    pub closed spec fn pattern_table(&self) -> Seq<(Seq<Instruction>, Seq<Instruction>)> {
        self.patterns@.map_values(|p: Pattern| (p.sequence@, p.replacement@))
    }

    /// The names of the patterns, in order.
    pub closed spec fn pattern_names(&self) -> Seq<Seq<char>> {
        self.patterns@.map_values(|p: Pattern| p.name@)
    }

    /// An optimizer holding the pattern library.
    pub fn new() -> (r: Self)
        ensures
            r.pattern_table() == library(),
            r.pattern_names() == library_names(),
    {
        let patterns = Self::build_pattern_library();
        let r = SuperinstructionOptimizer { patterns };
        assert(r.pattern_table() =~= library());
        assert(r.pattern_names() =~= library_names());
        r
    }

    fn build_pattern_library() -> (r: Vec<Pattern>)
        ensures
            r@.len() == library().len(),
            forall|k: int| 0 <= k < library().len() ==> (#[trigger] r@[k]).name@ == library_names()[k],
            forall|k: int| 0 <= k < library().len() ==> {
                &&& (#[trigger] r@[k]).sequence@ == library()[k].0
                &&& r@[k].replacement@ == library()[k].1
            },
    {
        let r = vec![
            Pattern { name: "dup_add", sequence: vec![Instruction::Dup, Instruction::Add], replacement: vec![Instruction::DupAdd] },
            Pattern { name: "dup_mul", sequence: vec![Instruction::Dup, Instruction::Mul], replacement: vec![Instruction::DupMul] },
            Pattern { name: "inc_one", sequence: vec![Instruction::Literal(1), Instruction::Add], replacement: vec![Instruction::IncOne] },
            Pattern { name: "dec_one", sequence: vec![Instruction::Literal(1), Instruction::Sub], replacement: vec![Instruction::DecOne] },
            Pattern { name: "mul_two", sequence: vec![Instruction::Literal(2), Instruction::Mul], replacement: vec![Instruction::MulTwo] },
            Pattern { name: "div_two", sequence: vec![Instruction::Literal(2), Instruction::Div], replacement: vec![Instruction::DivTwo] },
            Pattern { name: "over_add", sequence: vec![Instruction::Over, Instruction::Add], replacement: vec![Instruction::OverAdd] },
            Pattern { name: "swap_sub", sequence: vec![Instruction::Swap, Instruction::Sub], replacement: vec![Instruction::SwapSub] },
            Pattern { name: "literal_add_3", sequence: vec![Instruction::Literal(3), Instruction::Add], replacement: vec![Instruction::LiteralAdd(3)] },
            Pattern { name: "literal_add_4", sequence: vec![Instruction::Literal(4), Instruction::Add], replacement: vec![Instruction::LiteralAdd(4)] },
            Pattern { name: "literal_add_8", sequence: vec![Instruction::Literal(8), Instruction::Add], replacement: vec![Instruction::LiteralAdd(8)] },
            Pattern { name: "literal_add_16", sequence: vec![Instruction::Literal(16), Instruction::Add], replacement: vec![Instruction::LiteralAdd(16)] },
            Pattern { name: "literal_mul_3", sequence: vec![Instruction::Literal(3), Instruction::Mul], replacement: vec![Instruction::LiteralMul(3)] },
            Pattern { name: "literal_mul_4", sequence: vec![Instruction::Literal(4), Instruction::Mul], replacement: vec![Instruction::LiteralMul(4)] },
            Pattern { name: "literal_mul_10", sequence: vec![Instruction::Literal(10), Instruction::Mul], replacement: vec![Instruction::LiteralMul(10)] },
            Pattern { name: "swap_drop_nip", sequence: vec![Instruction::Swap, Instruction::Drop], replacement: vec![Instruction::Nip] },
            Pattern { name: "swap_over", sequence: vec![Instruction::Swap, Instruction::Over], replacement: vec![Instruction::Tuck] },
            Pattern { name: "zero_eq", sequence: vec![Instruction::Literal(0), Instruction::Eq], replacement: vec![Instruction::ZeroEq] },
            Pattern { name: "zero_lt", sequence: vec![Instruction::Literal(0), Instruction::Lt], replacement: vec![Instruction::ZeroLt] },
            Pattern { name: "zero_gt", sequence: vec![Instruction::Literal(0), Instruction::Gt], replacement: vec![Instruction::ZeroGt] },
            Pattern { name: "dup_drop", sequence: vec![Instruction::Dup, Instruction::Drop], replacement: vec![Instruction::Nop] },
            Pattern { name: "swap_swap", sequence: vec![Instruction::Swap, Instruction::Swap], replacement: vec![Instruction::Nop] },
        ];
        assert(r@[0].sequence@ =~= library()[0].0);
        r
    }

    /// Recognizes and fuses superinstructions in the top-level sequence and in
    /// every word, recomputing each word's stack effect and cost.
    pub fn recognize(&self, ir: &ForthIR) -> (r: Result<ForthIR, OptimizerError>)
        ensures
            r is Ok <==> forall|i: int| 0 <= i < ir.words@.len() ==> effect_fits(spec_recognize(#[trigger] ir.words@[i].instructions@)),
            r matches Ok(out) ==> {
                &&& out.main@ == spec_recognize(ir.main@)
                &&& out.words@.len() == ir.words@.len()
                &&& forall|i: int| 0 <= i < ir.words@.len() ==> {
                    &&& (#[trigger] out.words@[i]).name == ir.words@[i].name
                    &&& out.words@[i].instructions@ == spec_recognize(ir.words@[i].instructions@)
                    &&& out.words@[i].is_inline == ir.words@[i].is_inline
                    &&& out.words@[i].stack_effect == seq_effect(out.words@[i].instructions@)
                    &&& out.words@[i].cost == out.words@[i].instructions@.len()
                }
            },
            r matches Err(e) ==> e is InvalidStackEffect,
    {
        let mut optimized = ir.duplicate();
        optimized.main = self.recognize_sequence(&ir.main);
        let n = optimized.words.len();
        let mut i: usize = 0;
        while i < n
            invariant
                n == ir.words@.len(),
                n == optimized.words@.len(),
                i <= n,
                optimized.main@ == spec_recognize(ir.main@),
                forall|j: int| 0 <= j < i ==> effect_fits(spec_recognize(#[trigger] ir.words@[j].instructions@)),
                forall|j: int| 0 <= j < i ==> {
                    &&& (#[trigger] optimized.words@[j]).name == ir.words@[j].name
                    &&& optimized.words@[j].instructions@ == spec_recognize(ir.words@[j].instructions@)
                    &&& optimized.words@[j].is_inline == ir.words@[j].is_inline
                    &&& optimized.words@[j].stack_effect == seq_effect(optimized.words@[j].instructions@)
                    &&& optimized.words@[j].cost == optimized.words@[j].instructions@.len()
                },
                forall|j: int| i <= j < n ==> {
                    &&& (#[trigger] optimized.words@[j]).name == ir.words@[j].name
                    &&& optimized.words@[j].instructions@ == ir.words@[j].instructions@
                    &&& optimized.words@[j].is_inline == ir.words@[j].is_inline
                },
            decreases n - i,
        {
            let instructions = self.recognize_sequence(&optimized.words[i].instructions);
            match rebuild_word(&optimized.words[i], instructions) {
                Ok(w) => {
                    optimized.words.set(i, w);
                },
                Err(e) => {
                    return Err(e);
                },
            }
            i = i + 1;
        }
        Ok(optimized)
    }

    /// Recognizes patterns in one word and recomputes its stack effect and cost.
    pub fn recognize_word(&self, word: &WordDef) -> (r: WordDef)
        requires
            effect_fits(spec_recognize(word.instructions@)),
        ensures
            r.name == word.name,
            r.is_inline == word.is_inline,
            r.instructions@ == spec_recognize(word.instructions@),
            r.stack_effect == seq_effect(r.instructions@),
            r.cost == r.instructions@.len(),
    {
        let mut optimized = word.duplicate();
        optimized.instructions = self.recognize_sequence(&word.instructions);
        optimized.update();
        optimized
    }

    /// Whether pattern `k` matches at `pos`.
    fn matches_at(&self, k: usize, instructions: &[Instruction], pos: usize) -> (r: bool)
        requires
            k < library().len(),
        ensures
            r == pattern_matches(library()[k as int].0, instructions@, pos as int),
    {
        proof { use_type_invariant(self); }
        let pat = &self.patterns[k].sequence;
        if pat.len() > instructions.len() || pos > instructions.len() - pat.len() {
            return false;
        }
        let mut j: usize = 0;
        while j < pat.len()
            invariant
                j <= pat.len(),
                pat@ == library()[k as int].0,
                pos + pat.len() <= instructions.len(),
                forall|q: int| 0 <= q < j ==> inst_match(pat@[q], instructions@[pos + q]),
            decreases pat.len() - j,
        {
            if !instruction_matches(&pat[j], &instructions[pos + j]) {
                return false;
            }
            j = j + 1;
        }
        true
    }

    /// Recognizes patterns in one instruction sequence.
    pub fn recognize_sequence(&self, instructions: &[Instruction]) -> (r: Vec<Instruction>)
        ensures
            r@ == spec_recognize(instructions@),
    {
        proof { use_type_invariant(self); }
        let mut result: Vec<Instruction> = Vec::new();
        let mut pos: usize = 0;
        let n = instructions.len();
        while pos < n
            invariant
                n == instructions@.len(),
                pos <= n,
                self.patterns@.len() == library().len(),
                forall|k: int| 0 <= k < library().len() ==> {
                    &&& (#[trigger] self.patterns@[k]).sequence@ == library()[k].0
                    &&& self.patterns@[k].replacement@ == library()[k].1
                },
                spec_recognize(instructions@) == result@ + recognize_from(instructions@, pos as int),
            decreases n - pos,
        {
            let mut k: usize = 0;
            let mut found: Option<usize> = None;
            while k < self.patterns.len()
                invariant
                    k <= library().len(),
                    self.patterns@.len() == library().len(),
                    pos < n,
                    n == instructions@.len(),
                    found is None ==> first_match(library(), instructions@, pos as int, 0)
                        == first_match(library(), instructions@, pos as int, k as int),
                    found matches Some(f) ==> first_match(library(), instructions@, pos as int, 0) == Some(f as int)
                        && (f as int) < library().len(),
                decreases library().len() - k,
            {
                if found.is_none() && self.matches_at(k, instructions, pos) {
                    found = Some(k);
                }
                k = k + 1;
            }
            let ghost before = result@;
            proof { lemma_first_match_sound(library(), instructions@, pos as int, 0); }
            match found {
                Some(f) => {
                    let rep = &self.patterns[f].replacement;
                    let mut j: usize = 0;
                    while j < rep.len()
                        invariant
                            j <= rep.len(),
                            result@ == before + rep@.take(j as int),
                        decreases rep.len() - j,
                    {
                        result.push(rep[j].duplicate());
                        assert(before + rep@.take(j + 1) =~= (before + rep@.take(j as int)).push(rep@[j as int]));
                        j = j + 1;
                    }
                    assert(rep@.take(rep.len() as int) =~= rep@);
                    assert(library()[f as int].0.len() == 2);
                    assert(before + recognize_from(instructions@, pos as int)
                        =~= result@ + recognize_from(instructions@, pos + 2));
                    pos = pos + self.patterns[f].sequence.len();
                }
                None => {
                    result.push(instructions[pos].duplicate());
                    assert(before + recognize_from(instructions@, pos as int)
                        =~= result@ + recognize_from(instructions@, pos + 1));
                    pos = pos + 1;
                }
            }
        }
        assert(result@ + recognize_from(instructions@, pos as int) =~= result@);
        result
    }
}

/// Whether a pattern instruction matches a program instruction.
pub fn instruction_matches(pattern: &Instruction, inst: &Instruction) -> (r: bool)
    ensures
        r == inst_match(*pattern, *inst),
{
    match (pattern, inst) {
        (Instruction::Dup, Instruction::Dup) => true,
        (Instruction::Drop, Instruction::Drop) => true,
        (Instruction::Swap, Instruction::Swap) => true,
        (Instruction::Over, Instruction::Over) => true,
        (Instruction::Add, Instruction::Add) => true,
        (Instruction::Sub, Instruction::Sub) => true,
        (Instruction::Mul, Instruction::Mul) => true,
        (Instruction::Div, Instruction::Div) => true,
        (Instruction::Eq, Instruction::Eq) => true,
        (Instruction::Lt, Instruction::Lt) => true,
        (Instruction::Gt, Instruction::Gt) => true,
        (Instruction::ZeroEq, Instruction::ZeroEq) => true,
        (Instruction::ZeroLt, Instruction::ZeroLt) => true,
        (Instruction::ZeroGt, Instruction::ZeroGt) => true,
        (Instruction::Literal(a), Instruction::Literal(b)) => *a == *b,
        _ => false,
    }
}

/// Instruction counts before and after recognition (the reduction as a
/// percentage is computed from them where it is shown).
#[derive(Debug, Clone, Copy)]
pub struct OptimizationStats {
    pub before_instructions: usize,
    pub after_instructions: usize,
    pub instructions_eliminated: usize,
}

impl SuperinstructionOptimizer {
    /// Instructions in `before`, in `after`, and how many fewer `after` has.
    pub fn get_stats(&self, before: &ForthIR, after: &ForthIR) -> (r: OptimizationStats)
        requires
            before.main@.len() + words_instruction_total(before.words@) <= usize::MAX,
            after.main@.len() + words_instruction_total(after.words@) <= usize::MAX,
        ensures
            r.before_instructions == before.main@.len() + words_instruction_total(before.words@),
            r.after_instructions == after.main@.len() + words_instruction_total(after.words@),
            r.instructions_eliminated == if r.before_instructions >= r.after_instructions {
                r.before_instructions - r.after_instructions
            } else {
                0
            },
    {
        let before_count = before.instruction_count();
        let after_count = after.instruction_count();
        OptimizationStats {
            before_instructions: before_count,
            after_instructions: after_count,
            instructions_eliminated: before_count.saturating_sub(after_count),
        }
    }
}

impl Default for SuperinstructionOptimizer {
    fn default() -> (r: Self) {
        SuperinstructionOptimizer::new()
    }
}


/// Doubling by a shift is multiplication by two, wrapped.
pub proof fn lemma_shift_doubles(a: i64)
    ensures
        a.wrapping_shl(1) == a.wrapping_mul(2),
{
    assert(a.wrapping_shl(1) == a << 1u32);
    if a >= 0x4000_0000_0000_0000 {
        assert((a << 1u32) == a * 2 - 0x1_0000_0000_0000_0000int) by (bit_vector)
            requires a >= 0x4000_0000_0000_0000;
    } else if a < -0x4000_0000_0000_0000 {
        assert((a << 1u32) == a * 2 + 0x1_0000_0000_0000_0000int) by (bit_vector)
            requires a < -0x4000_0000_0000_0000;
    } else {
        assert((a << 1u32) == a * 2) by (bit_vector)
            requires -0x4000_0000_0000_0000 <= a < 0x4000_0000_0000_0000;
    }
}

/// Halving by a shift rounds down, so it is the truncated quotient by two
/// for a dividend that is not negative or is even.
proof fn lemma_shift_halves(a: i64)
    requires
        a >= 0 || a % 2 == 0,
    ensures
        a.wrapping_shr(1) == spec_wrapping_div(a, 2),
{
    assert(a.wrapping_shr(1) == a >> 1u32);
    assert((a >> 1u32) * 2 == a || (a >> 1u32) * 2 + 1 == a) by (bit_vector);
}

/// Every pattern of the library keeps the meaning of the sequence it
/// replaces: from any stack on which the sequence runs, the replacement
/// leaves the same stack. Halving by a shift rounds a negative odd dividend
/// down where division rounds it toward zero; those dividends are left out.
#[verifier::spinoff_prover]
#[verifier::rlimit(50)]
pub proof fn law_patterns_keep_meaning(k: int, st: Seq<i64>)
    requires
        0 <= k < library().len(),
        run(library()[k].0, st) is Some,
        library()[k].1 == seq![Instruction::DivTwo] ==> st.last() >= 0 || st.last() % 2 == 0,
    ensures
        run(library()[k].1, st) == run(library()[k].0, st),
{
    let pat = library()[k];
    lemma_run_two(pat.0[0], pat.0[1], st);
    lemma_run_one(pat.1[0], st);
    assert(pat.0 == seq![pat.0[0], pat.0[1]]);
    assert(pat.1 == seq![pat.1[0]]);
    let n = st.len();
    if n >= 1 {
        let a = st[n - 1];
        assert(st.push(2).drop_last().drop_last() =~= st.drop_last());
        assert(st.push(0).drop_last().drop_last() =~= st.drop_last());
        if pat.1 == seq![Instruction::MulTwo] {
            lemma_shift_doubles(a);
        }
        if pat.1 == seq![Instruction::DivTwo] {
            lemma_shift_halves(a);
        }
    }
    if n >= 2 {
        let b = st[n - 2];
        assert(st.push(st[n - 2]).drop_last().drop_last() =~= st.drop_last());
        let sw = st.drop_last().drop_last().push(st[n - 1]).push(st[n - 2]);
        assert(sw.drop_last().drop_last() =~= st.drop_last().drop_last());
        assert(sw.drop_last() =~= st.drop_last().drop_last().push(st[n - 1]));
        assert(sw.drop_last().drop_last().push(sw[n - 1]).push(sw[n - 2]) =~= st);
        assert(sw.push(sw[n - 2]) =~= st.drop_last().drop_last().push(st[n - 1]).push(st[n - 2]).push(st[n - 1]));
    }
}


/// A matching pattern instruction is the program instruction itself.
proof fn lemma_inst_match_same(p: Instruction, x: Instruction)
    requires
        inst_match(p, x),
    ensures
        p == x,
{
}

/// Every pattern replaces two instructions by one, and only the halving
/// pattern is replaced by a shift right.
proof fn lemma_library_shape()
    ensures
        forall|k: int| 0 <= k < library().len() ==> {
            &&& (#[trigger] library()[k]).0.len() == 2
            &&& library()[k].1.len() == 1
            &&& library()[k].1 == seq![Instruction::DivTwo] ==> library()[k].0 == seq![Instruction::Literal(2), Instruction::Div]
        },
{
    assert forall|k: int| 0 <= k < library().len() implies {
        &&& (#[trigger] library()[k]).0.len() == 2
        &&& library()[k].1.len() == 1
        &&& library()[k].1 == seq![Instruction::DivTwo] ==> library()[k].0 == seq![Instruction::Literal(2), Instruction::Div]
    } by {
        if library()[k].1 == seq![Instruction::DivTwo] {
            assert(library()[k].1[0] == Instruction::DivTwo);
        }
    }
}

/// A stack reached just before a halving pattern holds a dividend that a
/// shift halves as division does: one that is not negative, or is even.
pub open spec fn halving_ok(o: Option<Seq<i64>>) -> bool {
    match o {
        Some(u) => u.len() > 0 ==> u.last() >= 0 || u.last() % 2 == 0,
        None => true,
    }
}

/// Every `2 /` of `s` from `pos` on, run from `t`, halves a dividend that a
/// shift halves as division does.
pub open spec fn halving_exact_from(s: Seq<Instruction>, pos: int, t: Seq<i64>) -> bool {
    forall|p: int| pos <= p && p + 1 < s.len() && s[p] == Instruction::Literal(2) && s[p + 1] == Instruction::Div
        ==> #[trigger] halving_ok(run(s.subrange(pos, p), t))
}

proof fn lemma_recognize_from_meaning(s: Seq<Instruction>, pos: int, t: Seq<i64>)
    requires
        0 <= pos <= s.len(),
        run(s.subrange(pos, s.len() as int), t) is Some,
        halving_exact_from(s, pos, t),
    ensures
        run(recognize_from(s, pos), t) == run(s.subrange(pos, s.len() as int), t),
    decreases s.len() - pos,
{
    let len = s.len() as int;
    let rest = s.subrange(pos, len);
    if pos == len {
        assert(rest =~= Seq::<Instruction>::empty());
        assert(recognize_from(s, pos) =~= Seq::<Instruction>::empty());
    } else {
        lemma_first_match_sound(library(), s, pos, 0);
        lemma_library_shape();
        match first_match(library(), s, pos, 0) {
            Some(k) if 0 <= k < library().len() && library()[k].0.len() > 0 && pos + library()[k].0.len() <= s.len() => {
                let pat = library()[k];
                assert(pattern_matches(pat.0, s, pos));
                assert(inst_match(pat.0[0], s[pos + 0]));
                assert(inst_match(pat.0[1], s[pos + 1]));
                lemma_inst_match_same(pat.0[0], s[pos]);
                lemma_inst_match_same(pat.0[1], s[pos + 1]);
                assert(s.subrange(pos, pos + 2) =~= pat.0);
                assert(rest =~= pat.0 + s.subrange(pos + 2, len));
                lemma_run_append(pat.0, s.subrange(pos + 2, len), t);
                let u = run(pat.0, t)->0;
                if pat.1 == seq![Instruction::DivTwo] {
                    assert(s.subrange(pos, pos) =~= Seq::<Instruction>::empty());
                    assert(halving_ok(run(s.subrange(pos, pos), t)));
                    lemma_run_two(Instruction::Literal(2), Instruction::Div, t);
                }
                law_patterns_keep_meaning(k, t);
                assert(recognize_from(s, pos) == pat.1 + recognize_from(s, pos + 2));
                lemma_run_append(pat.1, recognize_from(s, pos + 2), t);
                assert forall|p: int| pos + 2 <= p && p + 1 < s.len() && s[p] == Instruction::Literal(2)
                    && s[p + 1] == Instruction::Div implies #[trigger] halving_ok(run(s.subrange(pos + 2, p), u)) by {
                    assert(s.subrange(pos, p) =~= pat.0 + s.subrange(pos + 2, p));
                    lemma_run_append(pat.0, s.subrange(pos + 2, p), t);
                    assert(halving_ok(run(s.subrange(pos, p), t)));
                }
                lemma_recognize_from_meaning(s, pos + 2, u);
            },
            _ => {
                let one = seq![s[pos]];
                assert(rest =~= one + s.subrange(pos + 1, len));
                lemma_run_append(one, s.subrange(pos + 1, len), t);
                lemma_run_one(s[pos], t);
                let u = run(one, t)->0;
                assert(recognize_from(s, pos) == one + recognize_from(s, pos + 1));
                lemma_run_append(one, recognize_from(s, pos + 1), t);
                assert forall|p: int| pos + 1 <= p && p + 1 < s.len() && s[p] == Instruction::Literal(2)
                    && s[p + 1] == Instruction::Div implies #[trigger] halving_ok(run(s.subrange(pos + 1, p), u)) by {
                    assert(s.subrange(pos, p) =~= one + s.subrange(pos + 1, p));
                    lemma_run_append(one, s.subrange(pos + 1, p), t);
                    assert(halving_ok(run(s.subrange(pos, p), t)));
                }
                lemma_recognize_from_meaning(s, pos + 1, u);
            },
        }
    }
}

/// Recognition keeps the meaning of a sequence: from any stack on which the
/// sequence runs, the recognized sequence leaves the same stack, where no
/// `2 /` meets a negative odd dividend (halving by a shift rounds it down).
pub proof fn law_recognition_keeps_meaning(s: Seq<Instruction>, st: Seq<i64>)
    requires
        run(s, st) is Some,
        halving_exact_from(s, 0, st),
    ensures
        run(spec_recognize(s), st) == run(s, st),
{
    assert(s.subrange(0, s.len() as int) =~= s);
    lemma_recognize_from_meaning(s, 0, st);
}

} // verus!
