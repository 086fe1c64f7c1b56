//! Zero-cost abstraction removal: unconditional inlining of tiny words,
//! algebraic simplification, stack-depth annotation, elimination of branches
//! on constant conditions and unrolling of loops with constant bounds.
use vstd::prelude::*;
use crate::optimizer::constant_fold::{ConstantFolder, spec_fold_sequence};
use crate::optimizer::error::OptimizerError;
use crate::optimizer::semantics::{run, lemma_run_one, lemma_run_two, lemma_run_append};
use crate::optimizer::inline::InlineOptimizer;
use crate::optimizer::ir::{ForthIR, Instruction, WordDef, instr_effect, effect_fits, seq_effect,
    rebuild_word, word_index, copy_instructions, words_instruction_total, verify_outcome};
use crate::optimizer::pipeline::OptimizationLevel;
use crate::text::str_eq;
use crate::optimizer::whole_program::is_call_of;

verus! {

/// Settings of the zero-cost optimizer.
#[derive(Debug, Clone)]
pub struct ZeroCostConfig {
    /// Words of at most this many instructions are always inlined.
    pub unconditional_inline_threshold: usize,
    /// Largest number of iterations of a loop that is unrolled.
    pub max_loop_unroll: usize,
    /// Annotate stack operations with the stack depth.
    pub macro_expand_stack_ops: bool,
    pub constant_folding: bool,
    pub conditional_elimination: bool,
    pub algebraic_simplification: bool,
}

impl Default for ZeroCostConfig {
    fn default() -> (r: Self)
        ensures
            r.unconditional_inline_threshold == 3,
            r.max_loop_unroll == 20,
            r.macro_expand_stack_ops,
            r.constant_folding,
            r.conditional_elimination,
            r.algebraic_simplification,
    {
        ZeroCostConfig {
            unconditional_inline_threshold: 3,
            max_loop_unroll: 20,
            macro_expand_stack_ops: true,
            constant_folding: true,
            conditional_elimination: true,
            algebraic_simplification: true,
        }
    }
}

// ---------------------------------------------------------------------------
// Algebraic simplification

/// `x 0 +` and `x 1 *` vanish, `x 0 *` becomes `drop 0`, `x 2 *` becomes `2*`,
/// and `dup 0 =`, `dup 0 <`, `dup 0 >` become the comparisons with zero.
/// Patterns are matched left to right.
pub open spec fn simplify(s: Seq<Instruction>) -> Seq<Instruction>
    decreases s.len(),
{
    if s.len() == 0 {
        seq![]
    } else if s.len() >= 2 && s[0] == Instruction::Literal(0) && s[1] is Add {
        simplify(s.skip(2))
    } else if s.len() >= 2 && s[0] == Instruction::Literal(0) && s[1] is Mul {
        seq![Instruction::Drop, Instruction::Literal(0)] + simplify(s.skip(2))
    } else if s.len() >= 2 && s[0] == Instruction::Literal(1) && s[1] is Mul {
        simplify(s.skip(2))
    } else if s.len() >= 2 && s[0] == Instruction::Literal(2) && s[1] is Mul {
        seq![Instruction::MulTwo] + simplify(s.skip(2))
    } else if s.len() >= 3 && s[0] is Dup && s[1] == Instruction::Literal(0) && s[2] is Eq {
        seq![Instruction::ZeroEq] + simplify(s.skip(3))
    } else if s.len() >= 3 && s[0] is Dup && s[1] == Instruction::Literal(0) && s[2] is Lt {
        seq![Instruction::ZeroLt] + simplify(s.skip(3))
    } else if s.len() >= 3 && s[0] is Dup && s[1] == Instruction::Literal(0) && s[2] is Gt {
        seq![Instruction::ZeroGt] + simplify(s.skip(3))
    } else {
        seq![s[0]] + simplify(s.skip(1))
    }
}

// ---------------------------------------------------------------------------
// Stack-depth annotation

/// Scans a sequence tracking the stack depth from an empty stack: the depth
/// at the end and the sequence with `dup`, `swap` and `over` annotated by the
/// depth at which they run (where enough items are known to be there).
pub open spec fn expand_run(s: Seq<Instruction>) -> (nat, Seq<Instruction>)
    decreases s.len(),
{
    if s.len() == 0 {
        (0, seq![])
    } else {
        let prev = expand_run(s.drop_last());
        let d = prev.0;
        let inst = s.last();
        let e = instr_effect(inst);
        if e.consumed > d {
            (e.produced as nat, prev.1.push(inst))
        } else {
            let out = if inst is Dup && d > 0 {
                Instruction::CachedDup { depth: d as u8 }
            } else if inst is Swap && d >= 2 {
                Instruction::CachedSwap { depth: d as u8 }
            } else if inst is Over && d >= 2 {
                Instruction::CachedOver { depth: d as u8 }
            } else {
                inst
            };
            ((d - e.consumed + e.produced) as nat, prev.1.push(out))
        }
    }
}

// ---------------------------------------------------------------------------
// Conditional elimination

/// A literal followed by a conditional branch becomes an unconditional branch
/// (when the branch is always taken) or disappears (when it never is).
pub open spec fn eliminate_branches(s: Seq<Instruction>) -> Seq<Instruction>
    decreases s.len(),
{
    if s.len() == 0 {
        seq![]
    } else if s.len() >= 2 && s[0] is Literal && s[1] is BranchIf {
        if s[0]->Literal_0 != 0 {
            seq![Instruction::Branch(s[1]->BranchIf_0)] + eliminate_branches(s.skip(2))
        } else {
            eliminate_branches(s.skip(2))
        }
    } else if s.len() >= 2 && s[0] is Literal && s[1] is BranchIfNot {
        if s[0]->Literal_0 == 0 {
            seq![Instruction::Branch(s[1]->BranchIfNot_0)] + eliminate_branches(s.skip(2))
        } else {
            eliminate_branches(s.skip(2))
        }
    } else {
        seq![s[0]] + eliminate_branches(s.skip(1))
    }
}

// ---------------------------------------------------------------------------
// Loop unrolling

/// Position of the first branch (conditional or not) in `s`.
pub open spec fn first_branch(s: Seq<Instruction>) -> Option<nat>
    decreases s.len(),
{
    if s.len() == 0 {
        None
    } else if s[0] is BranchIfNot || s[0] is Branch {
        Some(0)
    } else {
        match first_branch(s.skip(1)) {
            Some(k) => Some(k + 1),
            None => None,
        }
    }
}

/// The first branch lies within the sequence.
pub proof fn lemma_first_branch_bound(s: Seq<Instruction>)
    ensures
        first_branch(s) matches Some(k) ==> k < s.len(),
    decreases s.len(),
{
    if s.len() > 0 {
        lemma_first_branch_bound(s.skip(1));
    }
}

/// `Literal(k) body` for each `k` from `start` up to, not including, `end`.
pub open spec fn repeat_body(start: int, end: int, body: Seq<Instruction>) -> Seq<Instruction>
    decreases end - start,
{
    if start >= end {
        seq![]
    } else {
        seq![Instruction::Literal(start as i64)] + body + repeat_body(start + 1, end, body)
    }
}

/// Loop unrolling: at a position where `Literal(end) Literal(start)` is followed,
/// more than three instructions on, by a branch, and `|end - start|` is between 1
/// and `max`, the literals, the body before the branch and the branch are replaced
/// by one copy of the body per value from `start` to `end`, each after a literal of
/// that value. `None` where the difference of the literals, or its absolute value,
/// is not representable in `i64`.
pub open spec fn unroll(s: Seq<Instruction>, max: usize) -> Option<Seq<Instruction>>
    decreases s.len(),
{
    if s.len() == 0 {
        Some(seq![])
    } else if s.len() > 5 && s[0] is Literal && s[1] is Literal && first_branch(s.skip(2)) is Some {
        let end_val = s[0]->Literal_0 as int;
        let start_val = s[1]->Literal_0 as int;
        let body_len = first_branch(s.skip(2))->Some_0 as int;
        let d = end_val - start_val;
        if d < i64::MIN || d > i64::MAX || d == i64::MIN {
            None
        } else {
            let iterations = if d < 0 { -d } else { d };
            if iterations > 0 && iterations <= (max as i64) && body_len > 0 {
                proof { lemma_first_branch_bound(s.skip(2)); }
                match unroll(s.skip(2 + body_len + 1), max) {
                    Some(rest) => Some(repeat_body(start_val, end_val, s.subrange(2, 2 + body_len)) + rest),
                    None => None,
                }
            } else {
                match unroll(s.skip(1), max) {
                    Some(rest) => Some(seq![s[0]] + rest),
                    None => None,
                }
            }
        }
    } else {
        match unroll(s.skip(1), max) {
            Some(rest) => Some(seq![s[0]] + rest),
            None => None,
        }
    }
}

// ---------------------------------------------------------------------------
// Unconditional inlining

/// The word calls itself.
pub open spec fn self_recursive(w: WordDef) -> bool {
    exists|k: int| 0 <= k < w.instructions@.len() && is_call_of(#[trigger] w.instructions@[k], w.name@)
}

/// A word that is always inlined: at most `threshold` instructions, and not calling itself.
pub open spec fn tiny_word(w: WordDef, threshold: usize) -> bool {
    w.instructions@.len() <= threshold && !self_recursive(w)
}

/// The sequence with every call of a tiny word replaced, recursively, by its
/// expanded body; `None` where the expansion nests deeper than `fuel` levels.
pub open spec fn expand_tiny(s: Seq<Instruction>, ws: Seq<WordDef>, threshold: usize, fuel: nat) -> Option<Seq<Instruction>>
    decreases fuel, s.len(),
{
    if s.len() == 0 {
        Some(seq![])
    } else {
        let head: Option<Seq<Instruction>> = match s[0] {
            Instruction::Call(n) => match word_index(ws, n@) {
                Some(k) => if 0 <= k < ws.len() && tiny_word(ws[k], threshold) {
                    if fuel == 0 { None } else { expand_tiny(ws[k].instructions@, ws, threshold, (fuel - 1) as nat) }
                } else {
                    Some(seq![s[0]])
                },
                None => Some(seq![s[0]]),
            },
            _ => Some(seq![s[0]]),
        };
        match head {
            Some(h) => match expand_tiny(s.skip(1), ws, threshold, fuel) {
                Some(t) => Some(h + t),
                None => None,
            },
            None => None,
        }
    }
}

/// Eliminates abstraction overhead.
pub struct ZeroCostOptimizer {
    pub config: ZeroCostConfig,
    pub constant_folder: ConstantFolder,
    pub inline_optimizer: InlineOptimizer,
}

impl ZeroCostOptimizer {
    pub fn new(config: ZeroCostConfig) -> (r: Self)
        ensures
            r.config == config,
            r.constant_folder.aggressive,
            r.inline_optimizer.level == OptimizationLevel::Aggressive,
    {
        ZeroCostOptimizer {
            config,
            constant_folder: ConstantFolder::new(),
            inline_optimizer: InlineOptimizer::new(OptimizationLevel::Aggressive),
        }
    }

    /// Applies the algebraic simplifications to a sequence.
    pub fn algebraic_simplify(&self, instructions: &[Instruction]) -> (r: Result<Vec<Instruction>, OptimizerError>)
        ensures
            r matches Ok(v) && v@ == simplify(instructions@),
    {
        let mut result: Vec<Instruction> = Vec::new();
        let n = instructions.len();
        let mut i: usize = 0;
        assert(instructions@.skip(0) =~= instructions@);
        while i < n
            invariant
                i <= n,
                n == instructions@.len(),
                result@ + simplify(instructions@.skip(i as int)) == simplify(instructions@),
            decreases n - i,
        {
            let ghost rest = instructions@.skip(i as int);
            let ghost before = result@;
            proof {
                assert(rest.skip(1) =~= instructions@.skip(i + 1));
                if rest.len() >= 2 { assert(rest.skip(2) =~= instructions@.skip(i + 2)); }
                if rest.len() >= 3 { assert(rest.skip(3) =~= instructions@.skip(i + 3)); }
                assert(rest[0] == instructions@[i as int]);
                if rest.len() >= 2 { assert(rest[1] == instructions@[i + 1]); }
                if rest.len() >= 3 { assert(rest[2] == instructions@[i + 2]); }
            }
            let mut step: usize = 0;
            if i + 1 < n {
                if let Instruction::Literal(k) = &instructions[i] {
                    let next = &instructions[i + 1];
                    if *k == 0 && matches!(next, Instruction::Add) {
                        step = 2;
                    } else if *k == 0 && matches!(next, Instruction::Mul) {
                        result.push(Instruction::Drop);
                        result.push(Instruction::Literal(0));
                        step = 2;
                    } else if *k == 1 && matches!(next, Instruction::Mul) {
                        step = 2;
                    } else if *k == 2 && matches!(next, Instruction::Mul) {
                        result.push(Instruction::MulTwo);
                        step = 2;
                    }
                }
            }
            if step == 0 && n - i > 2 {
                if matches!(&instructions[i], Instruction::Dup) && matches!(&instructions[i + 1], Instruction::Literal(0)) {
                    match &instructions[i + 2] {
                        Instruction::Eq => {
                            result.push(Instruction::ZeroEq);
                            step = 3;
                        },
                        Instruction::Lt => {
                            result.push(Instruction::ZeroLt);
                            step = 3;
                        },
                        Instruction::Gt => {
                            result.push(Instruction::ZeroGt);
                            step = 3;
                        },
                        _ => {},
                    }
                }
            }
            if step == 0 {
                result.push(instructions[i].duplicate());
                step = 1;
            }
            proof {
                assert(result@ + simplify(instructions@.skip(i + step)) =~= before + simplify(rest));
            }
            i = i + step;
        }
        assert(instructions@.skip(n as int) =~= Seq::<Instruction>::empty());
        assert(result@ + Seq::<Instruction>::empty() =~= result@);
        Ok(result)
    }

    /// Annotates `dup`, `swap` and `over` with the stack depth at which they run.
    pub fn expand_stack_ops(&self, instructions: &[Instruction]) -> (r: Result<Vec<Instruction>, OptimizerError>)
        ensures
            r matches Ok(v) && v@ == expand_run(instructions@).1,
    {
        let mut result: Vec<Instruction> = Vec::new();
        let mut stack_depth: u128 = 0;
        let mut i: usize = 0;
        while i < instructions.len()
            invariant
                i <= instructions@.len(),
                stack_depth <= 3 * i,
                (stack_depth as nat, result@) == expand_run(instructions@.take(i as int)),
            decreases instructions@.len() - i,
        {
            let ghost s = instructions@.take(i + 1);
            proof {
                assert(s.drop_last() =~= instructions@.take(i as int));
                assert(s.last() == instructions@[i as int]);
            }
            let inst = &instructions[i];
            let effect = inst.stack_effect();
            proof { crate::optimizer::ir::lemma_effect_small(*inst); }
            if effect.consumed as u128 > stack_depth {
                result.push(inst.duplicate());
                stack_depth = effect.produced as u128;
            } else {
                #[verifier::truncate]
                let d8: u8 = stack_depth as u8;
                let expanded = match inst {
                    Instruction::Dup if stack_depth > 0 => Instruction::CachedDup { depth: d8 },
                    Instruction::Swap if stack_depth >= 2 => Instruction::CachedSwap { depth: d8 },
                    Instruction::Over if stack_depth >= 2 => Instruction::CachedOver { depth: d8 },
                    _ => inst.duplicate(),
                };
                result.push(expanded);
                stack_depth = stack_depth - effect.consumed as u128 + effect.produced as u128;
            }
            i = i + 1;
        }
        assert(instructions@.take(instructions@.len() as int) =~= instructions@);
        Ok(result)
    }

    /// Replaces conditional branches on constant conditions.
    pub fn eliminate_conditional_sequence(&self, instructions: &[Instruction]) -> (r: Result<Vec<Instruction>, OptimizerError>)
        ensures
            r matches Ok(v) && v@ == eliminate_branches(instructions@),
    {
        let mut result: Vec<Instruction> = Vec::new();
        let n = instructions.len();
        let mut i: usize = 0;
        assert(instructions@.skip(0) =~= instructions@);
        while i < n
            invariant
                i <= n,
                n == instructions@.len(),
                result@ + eliminate_branches(instructions@.skip(i as int)) == eliminate_branches(instructions@),
            decreases n - i,
        {
            let ghost rest = instructions@.skip(i as int);
            let ghost before = result@;
            proof {
                assert(rest.skip(1) =~= instructions@.skip(i + 1));
                if rest.len() >= 2 { assert(rest.skip(2) =~= instructions@.skip(i + 2)); }
                assert(rest[0] == instructions@[i as int]);
                if rest.len() >= 2 { assert(rest[1] == instructions@[i + 1]); }
            }
            let mut step: usize = 1;
            let mut handled = false;
            if i + 1 < n {
                if let Instruction::Literal(k) = &instructions[i] {
                    match &instructions[i + 1] {
                        Instruction::BranchIf(target) => {
                            if *k != 0 {
                                result.push(Instruction::Branch(*target));
                            }
                            step = 2;
                            handled = true;
                        },
                        Instruction::BranchIfNot(target) => {
                            if *k == 0 {
                                result.push(Instruction::Branch(*target));
                            }
                            step = 2;
                            handled = true;
                        },
                        _ => {},
                    }
                }
            }
            if !handled {
                result.push(instructions[i].duplicate());
            }
            proof {
                assert(result@ + eliminate_branches(instructions@.skip(i + step)) =~= before + eliminate_branches(rest));
            }
            i = i + step;
        }
        assert(instructions@.skip(n as int) =~= Seq::<Instruction>::empty());
        assert(result@ + Seq::<Instruction>::empty() =~= result@);
        Ok(result)
    }

    /// Unrolls loops with constant bounds in a sequence.
    pub fn unroll_loop_sequence(&self, instructions: &[Instruction]) -> (r: Result<Vec<Instruction>, OptimizerError>)
        requires
            unroll(instructions@, self.config.max_loop_unroll) is Some,
        ensures
            r matches Ok(v) && Some(v@) == unroll(instructions@, self.config.max_loop_unroll),
    {
        let max = self.config.max_loop_unroll;
        #[verifier::truncate]
        let max64: i64 = max as i64;
        let mut result: Vec<Instruction> = Vec::new();
        let n = instructions.len();
        let mut i: usize = 0;
        assert(instructions@.skip(0) =~= instructions@);
        while i < n
            invariant
                i <= n,
                n == instructions@.len(),
                max == self.config.max_loop_unroll,
                max64 == max as i64,
                unroll(instructions@.skip(i as int), max) matches Some(t) && unroll(instructions@, max) == Some(result@ + t),
            decreases n - i,
        {
            let ghost rest = instructions@.skip(i as int);
            let ghost before = result@;
            proof {
                assert(rest.skip(1) =~= instructions@.skip(i + 1));
                if rest.len() >= 2 { assert(rest.skip(2) =~= instructions@.skip(i + 2)); }
                assert(rest[0] == instructions@[i as int]);
                if rest.len() >= 2 { assert(rest[1] == instructions@[i + 1]); }
            }
            let mut next: usize = i + 1;
            let mut unrolled = false;
            let mut cand: Option<(i64, i64, usize)> = None;
            if n - i > 5 {
                if let Instruction::Literal(end_val) = &instructions[i] {
                    if let Instruction::Literal(start_val) = &instructions[i + 1] {
                        if let Some(body_len) = find_first_branch(instructions, i + 2) {
                            cand = Some((*end_val, *start_val, body_len));
                        }
                    }
                }
            }
            proof {
                if rest.len() > 5 { lemma_first_branch_bound(rest.skip(2)); }
                if rest.len() > 5 && rest[0] is Literal && rest[1] is Literal && first_branch(rest.skip(2)) is Some {
                    assert(cand == Some((rest[0]->Literal_0, rest[1]->Literal_0, first_branch(rest.skip(2))->Some_0 as usize)));
                } else {
                    assert(cand is None);
                }
            }
            if let Some((end_val, start_val, body_len)) = cand {
                let d: i128 = end_val as i128 - start_val as i128;
                let iterations: i64 = if d < 0 { (0 - d) as i64 } else { d as i64 };
                if iterations > 0 && iterations <= max64 && body_len > 0 {
                    proof { lemma_first_branch_bound(instructions@.skip(i + 2)); }
                    let body_start = i + 2;
                    let body_end = body_start + body_len;
                    let ghost body = instructions@.subrange(body_start as int, body_end as int);
                    proof { assert(rest.subrange(2, 2 + body_len) =~= body); }
                    let mut k: i64 = start_val;
                    let ghost mid = result@;
                    while k < end_val
                        invariant
                            start_val <= k <= end_val || (k == start_val && start_val >= end_val),
                            body_start <= body_end <= n,
                            n == instructions@.len(),
                            body == instructions@.subrange(body_start as int, body_end as int),
                            result@ == mid + repeat_body(start_val as int, k as int, body),
                        decreases end_val - k,
                    {
                        proof { lemma_repeat_body_snoc(start_val as int, k as int, body); }
                        result.push(Instruction::Literal(k));
                        let ghost mid2 = result@;
                        assert(instructions@.subrange(body_start as int, body_start as int) =~= Seq::<Instruction>::empty());
                        let mut j: usize = body_start;
                        while j < body_end
                            invariant
                                body_start <= j <= body_end,
                                body_end <= n,
                                n == instructions@.len(),
                                result@ == mid2 + instructions@.subrange(body_start as int, j as int),
                            decreases body_end - j,
                        {
                            result.push(instructions[j].duplicate());
                            assert(mid2 + instructions@.subrange(body_start as int, j + 1)
                                =~= (mid2 + instructions@.subrange(body_start as int, j as int)).push(instructions@[j as int]));
                            j = j + 1;
                        }
                        assert(result@ =~= mid + repeat_body(start_val as int, k + 1, body));
                        k = k + 1;
                    }
                    proof {
                        if start_val >= end_val {
                            assert(repeat_body(start_val as int, end_val as int, body) == Seq::<Instruction>::empty());
                            assert(repeat_body(start_val as int, k as int, body) == Seq::<Instruction>::empty());
                        }
                        assert(rest.skip(2 + body_len + 1) =~= instructions@.skip(body_end + 1));
                        assert(unroll(rest, max) == (match unroll(rest.skip(2 + body_len + 1), max) {
                            Some(t) => Some(repeat_body(start_val as int, end_val as int, body) + t),
                            None => None,
                        }));
                    }
                    next = body_end + 1;
                    unrolled = true;
                } else {
                    proof {
                        lemma_first_branch_bound(rest.skip(2));
                        let dd = end_val as int - start_val as int;
                        if dd < i64::MIN || dd > i64::MAX || dd == i64::MIN {
                            assert(unroll(rest, max) is None);
                        }
                        assert(iterations as int == (if dd < 0 { -dd } else { dd }));
                        assert(unroll(rest, max) == (match unroll(rest.skip(1), max) {
                            Some(t) => Some(seq![rest[0]] + t),
                            None => None,
                        }));
                    }
                }
            } else {
                proof {
                    assert(unroll(rest, max) == (match unroll(rest.skip(1), max) {
                        Some(t) => Some(seq![rest[0]] + t),
                        None => None,
                    }));
                }
            }
            if !unrolled {
                result.push(instructions[i].duplicate());
            }
            proof {
                let t = unroll(instructions@.skip(next as int), max)->Some_0;
                assert(result@ + t =~= before + unroll(rest, max)->Some_0);
            }
            i = next;
        }
        assert(instructions@.skip(n as int) =~= Seq::<Instruction>::empty());
        assert(result@ + Seq::<Instruction>::empty() =~= result@);
        Ok(result)
    }
}

/// Position of the first branch at or after `from`, counted from `from`.
fn find_first_branch(instructions: &[Instruction], from: usize) -> (r: Option<usize>)
    requires
        from <= instructions@.len(),
    ensures
        match first_branch(instructions@.skip(from as int)) {
            Some(k) => r == Some(k as usize),
            None => r is None,
        },
{
    let mut j: usize = from;
    while j < instructions.len()
        invariant
            from <= j <= instructions@.len(),
            first_branch(instructions@.skip(from as int)) == (match first_branch(instructions@.skip(j as int)) {
                Some(k) => Some((k + (j - from)) as nat),
                None => None::<nat>,
            }),
        decreases instructions@.len() - j,
    {
        assert(instructions@.skip(j as int)[0] == instructions@[j as int]);
        if matches!(&instructions[j], Instruction::BranchIfNot(_) | Instruction::Branch(_)) {
            return Some(j - from);
        }
        assert(instructions@.skip(j as int).skip(1) =~= instructions@.skip(j + 1));
        j = j + 1;
    }
    assert(instructions@.skip(j as int).len() == 0);
    None
}

/// Appending one more copy of the body at the end.
proof fn lemma_repeat_body_snoc(start: int, k: int, body: Seq<Instruction>)
    requires
        start <= k,
    ensures
        repeat_body(start, k + 1, body) == repeat_body(start, k, body) + seq![Instruction::Literal(k as i64)] + body,
    decreases k - start,
{
    if start < k {
        lemma_repeat_body_snoc(start + 1, k, body);
        assert(repeat_body(start, k + 1, body) =~= repeat_body(start, k, body) + seq![Instruction::Literal(k as i64)] + body);
    } else {
        assert(repeat_body(k + 1, k + 1, body) == Seq::<Instruction>::empty());
        assert(repeat_body(start, k, body) == Seq::<Instruction>::empty());
        assert(repeat_body(start, k + 1, body) =~= seq![Instruction::Literal(k as i64)] + body);
    }
}

/// The per-sequence stages of the zero-cost optimizer after inlining.
#[derive(Debug, Clone, Copy, PartialEq, Eq, Structural)]
pub enum Stage {
    Simplify,
    Expand,
    Eliminate,
    Unroll,
}

/// What a stage makes of a sequence.
pub open spec fn stage_spec(max: usize, st: Stage, s: Seq<Instruction>) -> Seq<Instruction> {
    match st {
        Stage::Simplify => simplify(s),
        Stage::Expand => expand_run(s).1,
        Stage::Eliminate => eliminate_branches(s),
        Stage::Unroll => unroll(s, max)->Some_0,
    }
}

/// The stage runs without overflow on `s`.
pub open spec fn stage_ok(max: usize, st: Stage, s: Seq<Instruction>) -> bool {
    st is Unroll ==> unroll(s, max) is Some
}

/// `out` holds the words of `ws`, in order, with instructions `f` of theirs and their
/// stack effect and cost recomputed.
pub open spec fn words_mapped(out: Seq<WordDef>, ws: Seq<WordDef>, f: spec_fn(Seq<Instruction>) -> Seq<Instruction>) -> bool {
    &&& out.len() == ws.len()
    &&& forall|i: int| 0 <= i < ws.len() ==> {
        &&& (#[trigger] out[i]).name == ws[i].name
        &&& out[i].instructions@ == f(ws[i].instructions@)
        &&& out[i].is_inline == ws[i].is_inline
        &&& out[i].stack_effect == seq_effect(out[i].instructions@)
        &&& out[i].cost == out[i].instructions@.len()
    }
}

/// The inlining depth allowed: as many levels as there are words (a deeper
/// nesting repeats a word, so it would never end).
pub open spec fn inline_fuel(ws: Seq<WordDef>) -> nat {
    ws.len()
}

/// The first stage: tiny words expanded.
pub open spec fn inline_stage(cfg: ZeroCostConfig, ws: Seq<WordDef>, s: Seq<Instruction>) -> Option<Seq<Instruction>> {
    expand_tiny(s, ws, cfg.unconditional_inline_threshold, inline_fuel(ws))
}

/// Constant folding of the top-level sequence, where enabled.
pub open spec fn fold_stage(cfg: ZeroCostConfig, s: Seq<Instruction>) -> Seq<Instruction> {
    if cfg.constant_folding { spec_fold_sequence(s) } else { s }
}

/// Algebraic simplification, where enabled.
pub open spec fn simplify_stage(cfg: ZeroCostConfig, s: Seq<Instruction>) -> Seq<Instruction> {
    if cfg.constant_folding && cfg.algebraic_simplification { simplify(s) } else { s }
}

/// Stack-depth annotation, where enabled.
pub open spec fn expand_stage(cfg: ZeroCostConfig, s: Seq<Instruction>) -> Seq<Instruction> {
    if cfg.macro_expand_stack_ops { expand_run(s).1 } else { s }
}

/// Conditional elimination, where enabled.
pub open spec fn eliminate_stage(cfg: ZeroCostConfig, s: Seq<Instruction>) -> Seq<Instruction> {
    if cfg.conditional_elimination { eliminate_branches(s) } else { s }
}

/// The sequence before unrolling, from the sequence after inlining
/// (`main` tells whether it is the top-level sequence, which alone is folded).
pub open spec fn before_unroll(cfg: ZeroCostConfig, a: Seq<Instruction>, main: bool) -> Seq<Instruction> {
    let b = if main { fold_stage(cfg, a) } else { a };
    eliminate_stage(cfg, expand_stage(cfg, simplify_stage(cfg, b)))
}

/// The result for one sequence, from the sequence after inlining.
pub open spec fn after_inline(cfg: ZeroCostConfig, a: Seq<Instruction>, main: bool) -> Seq<Instruction> {
    let f = unroll(before_unroll(cfg, a, main), cfg.max_loop_unroll)->Some_0;
    if main { fold_stage(cfg, f) } else { f }
}

/// Unrolling does not overflow on the sequence (where its inlining succeeds).
pub open spec fn unroll_safe(cfg: ZeroCostConfig, ws: Seq<WordDef>, s: Seq<Instruction>, main: bool) -> bool {
    inline_stage(cfg, ws, s) matches Some(a) ==> unroll(before_unroll(cfg, a, main), cfg.max_loop_unroll) is Some
}

/// Every stage that rebuilds the word gives it a stack effect that fits in `u8`.
pub open spec fn word_stages_fit(cfg: ZeroCostConfig, a: Seq<Instruction>) -> bool {
    let c = simplify_stage(cfg, a);
    let d = expand_stage(cfg, c);
    let e = eliminate_stage(cfg, d);
    &&& effect_fits(a)
    &&& (cfg.constant_folding && cfg.algebraic_simplification ==> effect_fits(c))
    &&& (cfg.macro_expand_stack_ops ==> effect_fits(d))
    &&& (cfg.conditional_elimination ==> effect_fits(e))
    &&& effect_fits(unroll(e, cfg.max_loop_unroll)->Some_0)
}

/// The zero-cost optimizer succeeds on the program: every sequence's inlining
/// terminates, every rebuilt word fits, and the result passes verification.
pub open spec fn zero_cost_succeeds(cfg: ZeroCostConfig, ir: ForthIR) -> bool {
    &&& inline_stage(cfg, ir.words@, ir.main@) is Some
    &&& forall|i: int| 0 <= i < ir.words@.len() ==> inline_stage(cfg, ir.words@, #[trigger] ir.words@[i].instructions@) is Some
    &&& forall|i: int| 0 <= i < ir.words@.len() ==>
        word_stages_fit(cfg, inline_stage(cfg, ir.words@, #[trigger] ir.words@[i].instructions@)->Some_0)
    &&& crate::optimizer::ir::sequence_check(after_inline(cfg, inline_stage(cfg, ir.words@, ir.main@)->Some_0, true)) is Ok
    &&& forall|i: int| 0 <= i < ir.words@.len() ==> crate::optimizer::ir::body_check(
        after_inline(cfg, inline_stage(cfg, ir.words@, #[trigger] ir.words@[i].instructions@)->Some_0, false)) is Ok
}

/// Whether the word calls itself.
fn calls_itself(word: &WordDef) -> (r: bool)
    ensures
        r == self_recursive(*word),
{
    let mut k: usize = 0;
    while k < word.instructions.len()
        invariant
            k <= word.instructions@.len(),
            forall|j: int| 0 <= j < k ==> !is_call_of(#[trigger] word.instructions@[j], word.name@),
        decreases word.instructions@.len() - k,
    {
        if let Instruction::Call(n) = &word.instructions[k] {
            if *n == word.name {
                assert(is_call_of(word.instructions@[k as int], word.name@));
                return true;
            }
        }
        k = k + 1;
    }
    false
}

impl ZeroCostOptimizer {
    /// Which words are tiny: at most the threshold of instructions, not calling themselves.
    pub fn tiny_words(&self, ir: &ForthIR) -> (r: Vec<bool>)
        ensures
            r@.len() == ir.words@.len(),
            forall|k: int| 0 <= k < ir.words@.len() ==> r@[k] == tiny_word(#[trigger] ir.words@[k], self.config.unconditional_inline_threshold),
    {
        let mut r: Vec<bool> = Vec::new();
        let mut k: usize = 0;
        while k < ir.words.len()
            invariant
                k <= ir.words@.len(),
                r@.len() == k,
                forall|j: int| 0 <= j < k ==> r@[j] == tiny_word(#[trigger] ir.words@[j], self.config.unconditional_inline_threshold),
            decreases ir.words@.len() - k,
        {
            let w = &ir.words[k];
            let tiny = w.instructions.len() <= self.config.unconditional_inline_threshold && !calls_itself(w);
            r.push(tiny);
            k = k + 1;
        }
        r
    }

    /// Expands the calls of tiny words in a sequence, nesting at most `fuel` levels.
    pub fn inline_sequence(&self, instructions: &[Instruction], ir: &ForthIR, candidates: &Vec<bool>, fuel: usize) -> (r: Option<Vec<Instruction>>)
        requires
            ir.wf(),
            candidates@.len() == ir.words@.len(),
            forall|k: int| 0 <= k < ir.words@.len() ==> candidates@[k] == tiny_word(#[trigger] ir.words@[k], self.config.unconditional_inline_threshold),
        ensures
            match expand_tiny(instructions@, ir.words@, self.config.unconditional_inline_threshold, fuel as nat) {
                Some(t) => r matches Some(v) && v@ == t,
                None => r is None,
            },
        decreases fuel,
    {
        let threshold = self.config.unconditional_inline_threshold;
        let mut result: Vec<Instruction> = Vec::new();
        let n = instructions.len();
        let mut i: usize = 0;
        assert(instructions@.skip(0) =~= instructions@);
        while i < n
            invariant
                i <= n,
                n == instructions@.len(),
                ir.wf(),
                threshold == self.config.unconditional_inline_threshold,
                candidates@.len() == ir.words@.len(),
                forall|k: int| 0 <= k < ir.words@.len() ==> candidates@[k] == tiny_word(#[trigger] ir.words@[k], threshold),
                expand_tiny(instructions@, ir.words@, threshold, fuel as nat) == (match expand_tiny(instructions@.skip(i as int), ir.words@, threshold, fuel as nat) {
                    Some(t) => Some(result@ + t),
                    None => None,
                }),
            decreases n - i,
        {
            let ghost rest = instructions@.skip(i as int);
            proof {
                assert(rest.skip(1) =~= instructions@.skip(i + 1));
                assert(rest[0] == instructions@[i as int]);
            }
            let ghost before = result@;
            let inst = &instructions[i];
            let mut done = false;
            if let Instruction::Call(name) = inst {
                if let Some(k) = ir.find_word(name) {
                    if candidates[k] {
                        if fuel == 0 {
                            return None;
                        }
                        match self.inline_sequence(&ir.words[k].instructions, ir, candidates, fuel - 1) {
                            Some(body) => {
                                let mut j: usize = 0;
                                while j < body.len()
                                    invariant
                                        j <= body@.len(),
                                        result@ == before + body@.take(j as int),
                                    decreases body@.len() - j,
                                {
                                    result.push(body[j].duplicate());
                                    assert(before + body@.take(j + 1) =~= (before + body@.take(j as int)).push(body@[j as int]));
                                    j = j + 1;
                                }
                                assert(body@.take(j as int) =~= body@);
                                done = true;
                            },
                            None => {
                                return None;
                            },
                        }
                    }
                }
            }
            if !done {
                result.push(inst.duplicate());
            }
            proof {
                match expand_tiny(instructions@.skip(i + 1), ir.words@, threshold, fuel as nat) {
                    Some(t) => { assert(result@ + t =~= before + (result@.subrange(before.len() as int, result@.len() as int) + t)); }
                    None => {}
                }
                assert(result@ =~= before + result@.subrange(before.len() as int, result@.len() as int));
            }
            i = i + 1;
        }
        assert(instructions@.skip(n as int) =~= Seq::<Instruction>::empty());
        assert(result@ + Seq::<Instruction>::empty() =~= result@);
        Some(result)
    }
}

impl ZeroCostOptimizer {
    /// Applies a stage to one sequence.
    pub fn apply_stage(&self, st: Stage, instructions: &[Instruction]) -> (r: Vec<Instruction>)
        requires
            stage_ok(self.config.max_loop_unroll, st, instructions@),
        ensures
            r@ == stage_spec(self.config.max_loop_unroll, st, instructions@),
    {
        let res = match st {
            Stage::Simplify => self.algebraic_simplify(instructions),
            Stage::Expand => self.expand_stack_ops(instructions),
            Stage::Eliminate => self.eliminate_conditional_sequence(instructions),
            Stage::Unroll => self.unroll_loop_sequence(instructions),
        };
        match res {
            Ok(v) => v,
            Err(_) => Vec::new(),
        }
    }

    /// Applies a stage to the top-level sequence and to every word, recomputing
    /// each word's stack effect and cost.
    pub fn map_stage(&self, ir: &ForthIR, st: Stage) -> (r: Result<ForthIR, OptimizerError>)
        requires
            stage_ok(self.config.max_loop_unroll, st, ir.main@),
            forall|i: int| 0 <= i < ir.words@.len() ==> stage_ok(self.config.max_loop_unroll, st, #[trigger] ir.words@[i].instructions@),
        ensures
            r is Ok <==> forall|i: int| 0 <= i < ir.words@.len() ==>
                effect_fits(stage_spec(self.config.max_loop_unroll, st, #[trigger] ir.words@[i].instructions@)),
            r matches Ok(out) ==> {
                &&& out.main@ == stage_spec(self.config.max_loop_unroll, st, ir.main@)
                &&& words_mapped(out.words@, ir.words@, |s: Seq<Instruction>| stage_spec(self.config.max_loop_unroll, st, s))
            },
            r matches Err(e) ==> e is InvalidStackEffect,
    {
        let ghost max = self.config.max_loop_unroll;
        let mut words: Vec<WordDef> = Vec::new();
        let mut i: usize = 0;
        while i < ir.words.len()
            invariant
                i <= ir.words@.len(),
                max == self.config.max_loop_unroll,
                forall|j: int| 0 <= j < ir.words@.len() ==> stage_ok(max, st, #[trigger] ir.words@[j].instructions@),
                forall|j: int| 0 <= j < i ==> effect_fits(stage_spec(max, st, #[trigger] ir.words@[j].instructions@)),
                words_mapped(words@, ir.words@.take(i as int), |s: Seq<Instruction>| stage_spec(max, st, s)),
            decreases ir.words@.len() - i,
        {
            let instructions = self.apply_stage(st, &ir.words[i].instructions);
            match rebuild_word(&ir.words[i], instructions) {
                Ok(w) => {
                    words.push(w);
                },
                Err(e) => {
                    return Err(e);
                },
            }
            i = i + 1;
        }
        assert(ir.words@.take(i as int) =~= ir.words@);
        let main = self.apply_stage(st, &ir.main);
        Ok(ForthIR { words, main })
    }

    /// Expands calls of tiny words everywhere; fails where the expansion nests deeper
    /// than there are words (the tiny words call each other in a cycle).
    pub fn unconditional_inline(&self, ir: &ForthIR) -> (r: Result<ForthIR, OptimizerError>)
        requires
            ir.wf(),
        ensures
            r is Ok <==> {
                &&& inline_stage(self.config, ir.words@, ir.main@) is Some
                &&& forall|i: int| 0 <= i < ir.words@.len() ==> inline_stage(self.config, ir.words@, #[trigger] ir.words@[i].instructions@) is Some
                &&& forall|i: int| 0 <= i < ir.words@.len() ==> effect_fits(inline_stage(self.config, ir.words@, #[trigger] ir.words@[i].instructions@)->Some_0)
            },
            r matches Ok(out) ==> {
                &&& out.main@ == inline_stage(self.config, ir.words@, ir.main@)->Some_0
                &&& words_mapped(out.words@, ir.words@, |s: Seq<Instruction>| inline_stage(self.config, ir.words@, s)->Some_0)
            },
            r matches Err(e) ==> e is OptimizationFailed || e is InvalidStackEffect,
    {
        let candidates = self.tiny_words(ir);
        let fuel = ir.words.len();
        let main = match self.inline_sequence(&ir.main, ir, &candidates, fuel) {
            Some(v) => v,
            None => {
                return Err(OptimizerError::OptimizationFailed("Inlining of tiny words does not terminate".to_owned()));
            },
        };
        let ghost cfg = self.config;
        let mut words: Vec<WordDef> = Vec::new();
        let mut i: usize = 0;
        while i < ir.words.len()
            invariant
                i <= ir.words@.len(),
                ir.wf(),
                cfg == self.config,
                fuel == inline_fuel(ir.words@),
                main@ == inline_stage(cfg, ir.words@, ir.main@)->Some_0,
                inline_stage(cfg, ir.words@, ir.main@) is Some,
                candidates@.len() == ir.words@.len(),
                forall|k: int| 0 <= k < ir.words@.len() ==> candidates@[k] == tiny_word(#[trigger] ir.words@[k], self.config.unconditional_inline_threshold),
                forall|j: int| 0 <= j < i ==> inline_stage(cfg, ir.words@, #[trigger] ir.words@[j].instructions@) is Some,
                forall|j: int| 0 <= j < i ==> effect_fits(inline_stage(cfg, ir.words@, #[trigger] ir.words@[j].instructions@)->Some_0),
                words_mapped(words@, ir.words@.take(i as int), |s: Seq<Instruction>| inline_stage(cfg, ir.words@, s)->Some_0),
            decreases ir.words@.len() - i,
        {
            let instructions = match self.inline_sequence(&ir.words[i].instructions, ir, &candidates, fuel) {
                Some(v) => v,
                None => {
                    return Err(OptimizerError::OptimizationFailed("Inlining of tiny words does not terminate".to_owned()));
                },
            };
            match rebuild_word(&ir.words[i], instructions) {
                Ok(w) => {
                    words.push(w);
                },
                Err(e) => {
                    return Err(e);
                },
            }
            i = i + 1;
        }
        assert(ir.words@.take(i as int) =~= ir.words@);
        Ok(ForthIR { words, main })
    }
}

/// Every word of `out` is the corresponding word of `ws`, instructions, effect and cost alike.
pub open spec fn words_kept(out: Seq<WordDef>, ws: Seq<WordDef>) -> bool {
    &&& out.len() == ws.len()
    &&& forall|i: int| 0 <= i < ws.len() ==> crate::optimizer::ir::same_word(#[trigger] out[i], ws[i])
}

impl ZeroCostOptimizer {
    /// Constant folding of the top-level sequence, then (where enabled) algebraic
    /// simplification of every sequence.
    pub fn enhanced_constant_fold(&self, ir: &ForthIR) -> (r: Result<ForthIR, OptimizerError>)
        ensures
            r is Ok <==> (self.config.algebraic_simplification ==>
                forall|i: int| 0 <= i < ir.words@.len() ==> effect_fits(simplify(#[trigger] ir.words@[i].instructions@))),
            r matches Ok(out) ==> if self.config.algebraic_simplification {
                &&& out.main@ == simplify(spec_fold_sequence(ir.main@))
                &&& words_mapped(out.words@, ir.words@, |s: Seq<Instruction>| simplify(s))
            } else {
                &&& out.main@ == spec_fold_sequence(ir.main@)
                &&& words_kept(out.words@, ir.words@)
            },
            r matches Err(e) ==> e is InvalidStackEffect,
    {
        let folded = match self.constant_folder.fold(ir) {
            Ok(f) => f,
            Err(e) => {
                return Err(e);
            },
        };
        if self.config.algebraic_simplification {
            let r = self.map_stage(&folded, Stage::Simplify);
            proof {
                assert forall|i: int| 0 <= i < ir.words@.len() implies
                    #[trigger] ir.words@[i].instructions@ == folded.words@[i].instructions@ by {
                    assert(crate::optimizer::ir::same_word(folded.words@[i], ir.words@[i]));
                }
                if r is Ok {
                    assert forall|i: int| 0 <= i < ir.words@.len() implies effect_fits(simplify(#[trigger] ir.words@[i].instructions@)) by {
                        assert(effect_fits(stage_spec(self.config.max_loop_unroll, Stage::Simplify, folded.words@[i].instructions@)));
                    }
                } else {
                    let j = choose|j: int| 0 <= j < folded.words@.len() && !effect_fits(stage_spec(self.config.max_loop_unroll, Stage::Simplify, #[trigger] folded.words@[j].instructions@));
                    assert(ir.words@[j].instructions@ == folded.words@[j].instructions@);
                }
            }
            match r {
                Ok(out) => {
                    proof {
                        assert forall|i: int| 0 <= i < ir.words@.len() implies {
                            &&& (#[trigger] out.words@[i]).name == ir.words@[i].name
                            &&& out.words@[i].instructions@ == simplify(ir.words@[i].instructions@)
                            &&& out.words@[i].is_inline == ir.words@[i].is_inline
                            &&& out.words@[i].stack_effect == seq_effect(out.words@[i].instructions@)
                            &&& out.words@[i].cost == out.words@[i].instructions@.len()
                        } by {
                            assert(crate::optimizer::ir::same_word(folded.words@[i], ir.words@[i]));
                        }
                    }
                    Ok(out)
                },
                Err(e) => Err(e),
            }
        } else {
            Ok(folded)
        }
    }

    /// Annotates stack operations with the depth at which they run.
    pub fn macro_expand(&self, ir: &ForthIR) -> (r: Result<ForthIR, OptimizerError>)
        ensures
            r is Ok <==> forall|i: int| 0 <= i < ir.words@.len() ==> effect_fits(expand_run(#[trigger] ir.words@[i].instructions@).1),
            r matches Ok(out) ==> {
                &&& out.main@ == expand_run(ir.main@).1
                &&& words_mapped(out.words@, ir.words@, |s: Seq<Instruction>| expand_run(s).1)
            },
            r matches Err(e) ==> e is InvalidStackEffect,
    {
        let r = self.map_stage(ir, Stage::Expand);
        proof {
            if r is Err {
                let j = choose|j: int| 0 <= j < ir.words@.len() && !effect_fits(stage_spec(self.config.max_loop_unroll, Stage::Expand, #[trigger] ir.words@[j].instructions@));
                assert(!effect_fits(expand_run(ir.words@[j].instructions@).1));
            }
        }
        r
    }

    /// Replaces conditional branches on constant conditions everywhere.
    pub fn eliminate_conditionals(&self, ir: &ForthIR) -> (r: Result<ForthIR, OptimizerError>)
        ensures
            r is Ok <==> forall|i: int| 0 <= i < ir.words@.len() ==> effect_fits(eliminate_branches(#[trigger] ir.words@[i].instructions@)),
            r matches Ok(out) ==> {
                &&& out.main@ == eliminate_branches(ir.main@)
                &&& words_mapped(out.words@, ir.words@, |s: Seq<Instruction>| eliminate_branches(s))
            },
            r matches Err(e) ==> e is InvalidStackEffect,
    {
        let r = self.map_stage(ir, Stage::Eliminate);
        proof {
            if r is Err {
                let j = choose|j: int| 0 <= j < ir.words@.len() && !effect_fits(stage_spec(self.config.max_loop_unroll, Stage::Eliminate, #[trigger] ir.words@[j].instructions@));
                assert(!effect_fits(eliminate_branches(ir.words@[j].instructions@)));
            }
        }
        r
    }

    /// Unrolls loops with constant bounds everywhere.
    pub fn unroll_loops(&self, ir: &ForthIR) -> (r: Result<ForthIR, OptimizerError>)
        requires
            unroll(ir.main@, self.config.max_loop_unroll) is Some,
            forall|i: int| 0 <= i < ir.words@.len() ==> unroll(#[trigger] ir.words@[i].instructions@, self.config.max_loop_unroll) is Some,
        ensures
            r is Ok <==> forall|i: int| 0 <= i < ir.words@.len() ==>
                effect_fits(unroll(#[trigger] ir.words@[i].instructions@, self.config.max_loop_unroll)->Some_0),
            r matches Ok(out) ==> {
                &&& out.main@ == unroll(ir.main@, self.config.max_loop_unroll)->Some_0
                &&& words_mapped(out.words@, ir.words@, |s: Seq<Instruction>| unroll(s, self.config.max_loop_unroll)->Some_0)
            },
            r matches Err(e) ==> e is InvalidStackEffect,
    {
        proof {
            assert forall|i: int| 0 <= i < ir.words@.len() implies stage_ok(self.config.max_loop_unroll, Stage::Unroll, #[trigger] ir.words@[i].instructions@) by {
                assert(unroll(ir.words@[i].instructions@, self.config.max_loop_unroll) is Some);
            }
        }
        let r = self.map_stage(ir, Stage::Unroll);
        proof {
            if r is Err {
                let j = choose|j: int| 0 <= j < ir.words@.len() && !effect_fits(stage_spec(self.config.max_loop_unroll, Stage::Unroll, #[trigger] ir.words@[j].instructions@));
                assert(!effect_fits(unroll(ir.words@[j].instructions@, self.config.max_loop_unroll)->Some_0));
            }
        }
        r
    }
}

impl ZeroCostOptimizer {
    /// Applies all the zero-cost passes in order: unconditional inlining, constant
    /// folding with algebraic simplification, stack-depth annotation, conditional
    /// elimination, loop unrolling and a final folding, then verifies the result.
    pub fn optimize(&self, ir: &ForthIR) -> (r: Result<ForthIR, OptimizerError>)
        requires
            ir.wf(),
            unroll_safe(self.config, ir.words@, ir.main@, true),
            forall|i: int| 0 <= i < ir.words@.len() ==> unroll_safe(self.config, ir.words@, #[trigger] ir.words@[i].instructions@, false),
        ensures
            r is Ok <==> zero_cost_succeeds(self.config, *ir),
            r matches Ok(out) ==> {
                &&& out.main@ == after_inline(self.config, inline_stage(self.config, ir.words@, ir.main@)->Some_0, true)
                &&& words_mapped(out.words@, ir.words@,
                    |s: Seq<Instruction>| after_inline(self.config, inline_stage(self.config, ir.words@, s)->Some_0, false))
            },
    {
        let ghost cfg = self.config;
        let ghost ws = ir.words@;
        let ghost max = cfg.max_loop_unroll;
        // Pass 1: unconditional inlining of tiny words.
        let o1 = match self.unconditional_inline(ir) {
            Ok(o) => o,
            Err(e) => {
                return Err(e);
            },
        };
        // Pass 2: folding with algebraic simplification.
        let o2 = if self.config.constant_folding {
            match self.enhanced_constant_fold(&o1) {
                Ok(o) => o,
                Err(e) => {
                    proof {
                        let j = choose|j: int| 0 <= j < o1.words@.len() && !effect_fits(simplify(#[trigger] o1.words@[j].instructions@));
                        assert(o1.words@[j].instructions@ == inline_stage(cfg, ws, ws[j].instructions@)->Some_0);
                        assert(!word_stages_fit(cfg, inline_stage(cfg, ws, ws[j].instructions@)->Some_0));
                    }
                    return Err(e);
                },
            }
        } else {
            o1
        };
        proof {
            assert(o2.main@ == simplify_stage(cfg, fold_stage(cfg, inline_stage(cfg, ws, ir.main@)->Some_0)));
            assert forall|i: int| 0 <= i < ws.len() implies {
                &&& (#[trigger] o2.words@[i]).name == ws[i].name
                &&& o2.words@[i].is_inline == ws[i].is_inline
                &&& o2.words@[i].instructions@ == simplify_stage(cfg, inline_stage(cfg, ws, ws[i].instructions@)->Some_0)
            } by {
                assert(o1.words@[i].instructions@ == inline_stage(cfg, ws, ws[i].instructions@)->Some_0);
                if cfg.constant_folding && !cfg.algebraic_simplification {
                    assert(crate::optimizer::ir::same_word(o2.words@[i], o1.words@[i]));
                }
            }
            assert(o2.words@.len() == ws.len());
        }
        // Pass 3: stack-depth annotation.
        let o3 = if self.config.macro_expand_stack_ops {
            match self.macro_expand(&o2) {
                Ok(o) => o,
                Err(e) => {
                    proof {
                        let j = choose|j: int| 0 <= j < o2.words@.len() && !effect_fits(expand_run(#[trigger] o2.words@[j].instructions@).1);
                        assert(o2.words@[j].instructions@ == simplify_stage(cfg, inline_stage(cfg, ws, ws[j].instructions@)->Some_0));
                        assert(!word_stages_fit(cfg, inline_stage(cfg, ws, ws[j].instructions@)->Some_0));
                    }
                    return Err(e);
                },
            }
        } else {
            o2
        };
        proof {
            assert(o3.main@ == expand_stage(cfg, simplify_stage(cfg, fold_stage(cfg, inline_stage(cfg, ws, ir.main@)->Some_0))));
            assert forall|i: int| 0 <= i < ws.len() implies {
                &&& (#[trigger] o3.words@[i]).name == ws[i].name
                &&& o3.words@[i].is_inline == ws[i].is_inline
                &&& o3.words@[i].instructions@ == expand_stage(cfg, simplify_stage(cfg, inline_stage(cfg, ws, ws[i].instructions@)->Some_0))
            } by {
                assert(o2.words@[i].instructions@ == simplify_stage(cfg, inline_stage(cfg, ws, ws[i].instructions@)->Some_0));
            }
            assert(o3.words@.len() == ws.len());
        }
        // Pass 4: conditional elimination.
        let o4 = if self.config.conditional_elimination {
            match self.eliminate_conditionals(&o3) {
                Ok(o) => o,
                Err(e) => {
                    proof {
                        let j = choose|j: int| 0 <= j < o3.words@.len() && !effect_fits(eliminate_branches(#[trigger] o3.words@[j].instructions@));
                        assert(o3.words@[j].instructions@ == expand_stage(cfg, simplify_stage(cfg, inline_stage(cfg, ws, ws[j].instructions@)->Some_0)));
                        assert(!word_stages_fit(cfg, inline_stage(cfg, ws, ws[j].instructions@)->Some_0));
                    }
                    return Err(e);
                },
            }
        } else {
            o3
        };
        proof {
            assert(o4.main@ == before_unroll(cfg, inline_stage(cfg, ws, ir.main@)->Some_0, true));
            assert forall|i: int| 0 <= i < ws.len() implies {
                &&& (#[trigger] o4.words@[i]).name == ws[i].name
                &&& o4.words@[i].is_inline == ws[i].is_inline
                &&& o4.words@[i].instructions@ == before_unroll(cfg, inline_stage(cfg, ws, ws[i].instructions@)->Some_0, false)
            } by {
                assert(o3.words@[i].instructions@ == expand_stage(cfg, simplify_stage(cfg, inline_stage(cfg, ws, ws[i].instructions@)->Some_0)));
            }
            assert(o4.words@.len() == ws.len());
            assert forall|i: int| 0 <= i < o4.words@.len() implies unroll(#[trigger] o4.words@[i].instructions@, max) is Some by {
                assert(unroll_safe(cfg, ws, ws[i].instructions@, false));
                assert(o4.words@[i].instructions@ == before_unroll(cfg, inline_stage(cfg, ws, ws[i].instructions@)->Some_0, false));
            }
        }
        // Pass 5: loop unrolling.
        let o5 = match self.unroll_loops(&o4) {
            Ok(o) => o,
            Err(e) => {
                proof {
                    let j = choose|j: int| 0 <= j < o4.words@.len() && !effect_fits(unroll(#[trigger] o4.words@[j].instructions@, max)->Some_0);
                    assert(o4.words@[j].instructions@ == before_unroll(cfg, inline_stage(cfg, ws, ws[j].instructions@)->Some_0, false));
                    assert(!word_stages_fit(cfg, inline_stage(cfg, ws, ws[j].instructions@)->Some_0));
                }
                return Err(e);
            },
        };
        // Pass 6: final folding.
        let o6 = if self.config.constant_folding {
            match self.constant_folder.fold(&o5) {
                Ok(o) => o,
                Err(e) => {
                    return Err(e);
                },
            }
        } else {
            o5
        };
        proof {
            assert(o6.main@ == after_inline(cfg, inline_stage(cfg, ws, ir.main@)->Some_0, true));
            assert forall|i: int| 0 <= i < ws.len() implies {
                &&& (#[trigger] o6.words@[i]).name == ws[i].name
                &&& o6.words@[i].instructions@ == after_inline(cfg, inline_stage(cfg, ws, ws[i].instructions@)->Some_0, false)
                &&& o6.words@[i].is_inline == ws[i].is_inline
                &&& o6.words@[i].stack_effect == seq_effect(o6.words@[i].instructions@)
                &&& o6.words@[i].cost == o6.words@[i].instructions@.len()
            } by {
                assert(o4.words@[i].instructions@ == before_unroll(cfg, inline_stage(cfg, ws, ws[i].instructions@)->Some_0, false));
                assert(o5.words@[i].instructions@ == unroll(o4.words@[i].instructions@, max)->Some_0);
                if cfg.constant_folding {
                    assert(crate::optimizer::ir::same_word(o6.words@[i], o5.words@[i]));
                }
            }
            assert forall|i: int| 0 <= i < ws.len() implies word_stages_fit(cfg, #[trigger] inline_stage(cfg, ws, ws[i].instructions@)->Some_0) by {
                assert(o1.words@[i].instructions@ == inline_stage(cfg, ws, ws[i].instructions@)->Some_0);
                assert(o4.words@[i].instructions@ == before_unroll(cfg, inline_stage(cfg, ws, ws[i].instructions@)->Some_0, false));
                assert(effect_fits(unroll(o4.words@[i].instructions@, max)->Some_0));
                if cfg.constant_folding && cfg.algebraic_simplification {
                    assert(effect_fits(simplify(o1.words@[i].instructions@)));
                }
                if cfg.macro_expand_stack_ops {
                    assert(effect_fits(expand_run(o2.words@[i].instructions@).1));
                }
                if cfg.conditional_elimination {
                    assert(effect_fits(eliminate_branches(o3.words@[i].instructions@)));
                }
            }
            crate::optimizer::ir::lemma_verify_words_all(o6.words@);
            assert(inline_stage(cfg, ws, ir.main@) is Some);
            assert(forall|i: int| 0 <= i < ws.len() ==> inline_stage(cfg, ws, #[trigger] ws[i].instructions@) is Some);
        }
        match o6.verify() {
            Ok(()) => {
                proof {
                    assert forall|i: int| 0 <= i < ws.len() implies crate::optimizer::ir::body_check(
                        after_inline(cfg, #[trigger] inline_stage(cfg, ws, ws[i].instructions@)->Some_0, false)) is Ok by {
                        assert(crate::optimizer::ir::word_check(o6.words@[i]) is Ok);
                    }
                }
                Ok(o6)
            },
            Err(e) => {
                proof {
                    if crate::optimizer::ir::sequence_check(o6.main@) is Ok {
                        let j = choose|j: int| 0 <= j < o6.words@.len() && !(crate::optimizer::ir::word_check(#[trigger] o6.words@[j]) is Ok);
                        assert(o6.words@[j].instructions@ == after_inline(cfg, inline_stage(cfg, ws, ws[j].instructions@)->Some_0, false));
                    }
                }
                Err(e)
            },
        }
    }
}

/// Statistics of the zero-cost optimizer: counts before and after.
#[derive(Debug, Clone)]
pub struct ZeroCostStats {
    pub instructions_before: usize,
    pub instructions_after: usize,
    pub instructions_eliminated: usize,
    pub calls_before: usize,
    pub calls_after: usize,
    pub calls_inlined: usize,
    pub constants_before: usize,
    pub constants_after: usize,
    pub constants_folded: usize,
    pub branches_before: usize,
    pub branches_after: usize,
    pub branches_eliminated: usize,
}

/// The kinds of instructions that the statistics count.
#[derive(Debug, Clone, Copy, PartialEq, Eq, Structural)]
pub enum CountedKind {
    Call,
    Literal,
    ConditionalBranch,
}

/// The instruction is of the counted kind.
pub open spec fn of_kind(i: Instruction, k: CountedKind) -> bool {
    match k {
        CountedKind::Call => i is Call,
        CountedKind::Literal => i is Literal,
        CountedKind::ConditionalBranch => i is BranchIf || i is BranchIfNot,
    }
}

/// Number of instructions of kind `k` in `s`.
pub open spec fn count_kind(s: Seq<Instruction>, k: CountedKind) -> nat
    decreases s.len(),
{
    if s.len() == 0 {
        0
    } else {
        count_kind(s.drop_last(), k) + if of_kind(s.last(), k) { 1nat } else { 0nat }
    }
}

/// Number of instructions of kind `k` in the words.
pub open spec fn words_count_kind(ws: Seq<WordDef>, k: CountedKind) -> nat
    decreases ws.len(),
{
    if ws.len() == 0 {
        0
    } else {
        words_count_kind(ws.drop_last(), k) + count_kind(ws.last().instructions@, k)
    }
}

proof fn lemma_count_kind_le(s: Seq<Instruction>, k: CountedKind)
    ensures
        count_kind(s, k) <= s.len(),
    decreases s.len(),
{
    if s.len() > 0 {
        lemma_count_kind_le(s.drop_last(), k);
    }
}

proof fn lemma_words_count_le(ws: Seq<WordDef>, k: CountedKind)
    ensures
        words_count_kind(ws, k) <= words_instruction_total(ws),
    decreases ws.len(),
{
    if ws.len() > 0 {
        lemma_words_count_le(ws.drop_last(), k);
        lemma_count_kind_le(ws.last().instructions@, k);
    }
}

/// Counts the instructions of kind `k` in a sequence.
fn count_in_sequence(s: &[Instruction], k: CountedKind) -> (r: usize)
    ensures
        r == count_kind(s@, k),
{
    let mut c: usize = 0;
    let mut i: usize = 0;
    while i < s.len()
        invariant
            i <= s@.len(),
            c == count_kind(s@.take(i as int), k),
        decreases s@.len() - i,
    {
        proof {
            assert(s@.take(i + 1).drop_last() =~= s@.take(i as int));
            lemma_count_kind_le(s@.take(i as int), k);
        }
        let hit = match k {
            CountedKind::Call => matches!(&s[i], Instruction::Call(_)),
            CountedKind::Literal => matches!(&s[i], Instruction::Literal(_)),
            CountedKind::ConditionalBranch => matches!(&s[i], Instruction::BranchIf(_) | Instruction::BranchIfNot(_)),
        };
        if hit {
            c = c + 1;
        }
        i = i + 1;
    }
    assert(s@.take(s@.len() as int) =~= s@);
    c
}

/// Counts the instructions of kind `k` in the top-level sequence and every word.
pub fn count_in_program(ir: &ForthIR, k: CountedKind) -> (r: usize)
    requires
        ir.main@.len() + words_instruction_total(ir.words@) <= usize::MAX,
    ensures
        r == count_kind(ir.main@, k) + words_count_kind(ir.words@, k),
{
    let mut c = count_in_sequence(&ir.main, k);
    let mut i: usize = 0;
    proof { lemma_count_kind_le(ir.main@, k); }
    while i < ir.words.len()
        invariant
            i <= ir.words@.len(),
            ir.main@.len() + words_instruction_total(ir.words@) <= usize::MAX,
            count_kind(ir.main@, k) <= ir.main@.len(),
            c == count_kind(ir.main@, k) + words_count_kind(ir.words@.take(i as int), k),
        decreases ir.words@.len() - i,
    {
        proof {
            assert(ir.words@.take(i + 1).drop_last() =~= ir.words@.take(i as int));
            lemma_words_count_le(ir.words@.take(i + 1), k);
            crate::optimizer::ir::lemma_words_total_prefix(ir.words@, i + 1);
        }
        let w = count_in_sequence(&ir.words[i].instructions, k);
        c = c + w;
        i = i + 1;
    }
    assert(ir.words@.take(ir.words@.len() as int) =~= ir.words@);
    c
}

/// `a - b`, or 0 where `b` is larger.
pub open spec fn sat_diff(a: usize, b: usize) -> usize {
    if a >= b { (a - b) as usize } else { 0 }
}

impl ZeroCostOptimizer {
    /// Counts instructions, calls, literals and conditional branches before and after.
    pub fn get_stats(&self, before: &ForthIR, after: &ForthIR) -> (r: ZeroCostStats)
        requires
            before.main@.len() + words_instruction_total(before.words@) <= usize::MAX,
            after.main@.len() + words_instruction_total(after.words@) <= usize::MAX,
        ensures
            r.instructions_before == before.main@.len() + words_instruction_total(before.words@),
            r.instructions_after == after.main@.len() + words_instruction_total(after.words@),
            r.instructions_eliminated == sat_diff(r.instructions_before, r.instructions_after),
            r.calls_before == count_kind(before.main@, CountedKind::Call) + words_count_kind(before.words@, CountedKind::Call),
            r.calls_after == count_kind(after.main@, CountedKind::Call) + words_count_kind(after.words@, CountedKind::Call),
            r.calls_inlined == sat_diff(r.calls_before, r.calls_after),
            r.constants_before == count_kind(before.main@, CountedKind::Literal) + words_count_kind(before.words@, CountedKind::Literal),
            r.constants_after == count_kind(after.main@, CountedKind::Literal) + words_count_kind(after.words@, CountedKind::Literal),
            r.constants_folded == sat_diff(r.constants_before, r.constants_after),
            r.branches_before == count_kind(before.main@, CountedKind::ConditionalBranch) + words_count_kind(before.words@, CountedKind::ConditionalBranch),
            r.branches_after == count_kind(after.main@, CountedKind::ConditionalBranch) + words_count_kind(after.words@, CountedKind::ConditionalBranch),
            r.branches_eliminated == sat_diff(r.branches_before, r.branches_after),
    {
        let before_insts = before.instruction_count();
        let after_insts = after.instruction_count();
        let calls_before = count_in_program(before, CountedKind::Call);
        let calls_after = count_in_program(after, CountedKind::Call);
        let literals_before = count_in_program(before, CountedKind::Literal);
        let literals_after = count_in_program(after, CountedKind::Literal);
        let branches_before = count_in_program(before, CountedKind::ConditionalBranch);
        let branches_after = count_in_program(after, CountedKind::ConditionalBranch);
        ZeroCostStats {
            instructions_before: before_insts,
            instructions_after: after_insts,
            instructions_eliminated: before_insts.saturating_sub(after_insts),
            calls_before,
            calls_after,
            calls_inlined: calls_before.saturating_sub(calls_after),
            constants_before: literals_before,
            constants_after: literals_after,
            constants_folded: literals_before.saturating_sub(literals_after),
            branches_before,
            branches_after,
            branches_eliminated: branches_before.saturating_sub(branches_after),
        }
    }
}

impl Default for ZeroCostOptimizer {
    fn default() -> (r: Self)
        ensures
            r.config.unconditional_inline_threshold == 3,
            r.config.max_loop_unroll == 20,
            r.config.macro_expand_stack_ops,
            r.config.constant_folding,
            r.config.conditional_elimination,
            r.config.algebraic_simplification,
    {
        ZeroCostOptimizer::new(ZeroCostConfig::default())
    }
}


/// `s` holds `dup 0 =`, `dup 0 <` or `dup 0 >`, which simplification turns
/// into a comparison with zero that does not keep the duplicated value.
pub open spec fn has_zero_test_after_dup(s: Seq<Instruction>) -> bool {
    exists|p: int| #![trigger s[p]] 0 <= p && p + 2 < s.len() && s[p] is Dup && s[p + 1] == Instruction::Literal(0)
        && (s[p + 2] is Eq || s[p + 2] is Lt || s[p + 2] is Gt)
}

/// Algebraic simplification keeps the meaning of a sequence that holds no
/// `dup 0 =`, `dup 0 <` or `dup 0 >`: from any stack on which it runs, the
/// simplified sequence leaves the same stack. (Those three are turned into
/// comparisons with zero, which leave one cell fewer.)
pub proof fn law_simplification_keeps_meaning(s: Seq<Instruction>, st: Seq<i64>)
    requires
        run(s, st) is Some,
        !has_zero_test_after_dup(s),
    ensures
        run(simplify(s), st) == run(s, st),
    decreases s.len(),
{
    if s.len() == 0 {
    } else {
        let k: int = if s.len() >= 2 && (s[0] == Instruction::Literal(0) || s[0] == Instruction::Literal(1)
            || s[0] == Instruction::Literal(2)) && (s[1] is Add || s[1] is Mul) && !(s[0] != Instruction::Literal(0) && s[1] is Add) { 2 } else { 1 };
        let head = s.take(k);
        let tail = s.skip(k);
        assert(s =~= head + tail);
        lemma_run_append(head, tail, st);
        let u = run(head, st)->0;
        assert(!has_zero_test_after_dup(tail)) by {
            if has_zero_test_after_dup(tail) {
                let p = choose|p: int| #![trigger tail[p]] 0 <= p && p + 2 < tail.len() && tail[p] is Dup
                    && tail[p + 1] == Instruction::Literal(0) && (tail[p + 2] is Eq || tail[p + 2] is Lt || tail[p + 2] is Gt);
                assert(s[p + k] == tail[p] && s[p + k + 1] == tail[p + 1] && s[p + k + 2] == tail[p + 2]);
            }
        }
        law_simplification_keeps_meaning(tail, u);
        assert(!(s.len() >= 3 && s[0] is Dup && s[1] == Instruction::Literal(0) && (s[2] is Eq || s[2] is Lt || s[2] is Gt))) by {
            if s.len() >= 3 && s[0] is Dup && s[1] == Instruction::Literal(0) && (s[2] is Eq || s[2] is Lt || s[2] is Gt) {
                assert(s[0] is Dup);
            }
        }
        let out: Seq<Instruction> = if k == 2 {
            if s[0] == Instruction::Literal(0) && s[1] is Mul { seq![Instruction::Drop, Instruction::Literal(0)] }
            else if s[0] == Instruction::Literal(2) && s[1] is Mul { seq![Instruction::MulTwo] }
            else { Seq::empty() }
        } else {
            seq![s[0]]
        };
        assert(simplify(s) == out + simplify(tail));
        lemma_run_append(out, simplify(tail), st);
        if k == 2 {
            assert(head =~= seq![s[0], s[1]]);
            lemma_run_two(s[0], s[1], st);
            let n = st.len();
            assert(n >= 1);
            let a = st[n - 1];
            assert(st.push(s[0]->Literal_0).drop_last().drop_last() =~= st.drop_last());
            assert(run(Seq::<Instruction>::empty(), st) == Some(st));
            if s[0] == Instruction::Literal(0) && s[1] is Mul {
                lemma_run_two(Instruction::Drop, Instruction::Literal(0), st);
                assert(a.wrapping_mul(0) == 0);
            } else if s[0] == Instruction::Literal(2) && s[1] is Mul {
                lemma_run_one(Instruction::MulTwo, st);
                crate::optimizer::superinstructions::lemma_shift_doubles(a);
            } else if s[1] is Mul {
                assert(a.wrapping_mul(1) == a);
                assert(st.drop_last().push(a) =~= st);
            } else {
                assert(a.wrapping_add(0) == a);
                assert(st.drop_last().push(a) =~= st);
            }
        } else {
            assert(head =~= seq![s[0]]);
        }
    }
}

} // verus!
