//! Whole-program optimization: constant propagation across a sequence,
//! single-call inlining and specialization of words for a constant argument.
use vstd::prelude::*;
use crate::optimizer::arith::{trunc_div, wrapping_div, wrapping_rem};
use crate::optimizer::error::OptimizerError;
use crate::optimizer::ir::{Instruction, WordDef, ForthIR, word_index, instr_effect, effect_fits, seq_effect, same_word, rebuild_word, names_distinct, checked_stack_effect, verify_outcome};
use crate::optimizer::pipeline::{OptimizationLevel, level_rank};
use crate::text::{i64_text, push_str, decimal_text, str_eq};

verus! {

/// A call-graph edge: how one word calls another.
#[derive(Debug, Clone, Copy, PartialEq, Eq, Structural)]
pub enum CallEdge {
    /// A call with no special property.
    Direct,
    /// A word calling itself.
    Recursive,
    /// A call that is the last instruction of the caller.
    TailCall,
}

/// A call-graph node: a word and how often it is called.
#[derive(Debug, Clone)]
pub struct CallGraphNode {
    pub name: String,
    pub call_count: usize,
    /// Whether this is an entry point (the top-level sequence).
    pub is_entry_point: bool,
}

/// What is known at compile time of one stack slot.
#[derive(Debug, Clone, Copy, PartialEq, Eq, Structural)]
pub enum ConstantValue {
    Integer(i64),
    /// A floating-point constant, by its IEEE-754 bits.
    Float(u64),
    Unknown,
}

/// The constant arguments that a word is known to receive.
#[derive(Debug, Clone)]
pub struct ConstantArguments {
    pub args: Vec<ConstantValue>,
}

/// The stack with its top `n` slots removed (all of them if it holds fewer).
pub open spec fn pop_n(st: Seq<ConstantValue>, n: int) -> Seq<ConstantValue> {
    if n >= st.len() { seq![] } else { st.subrange(0, st.len() - n) }
}

/// `n` unknown slots.
pub open spec fn unknowns(n: nat) -> Seq<ConstantValue> {
    Seq::new(n, |_i: int| ConstantValue::Unknown)
}

/// The instructions whose two integer operands are folded.
pub open spec fn is_folded_binary(i: Instruction) -> bool {
    i is Add || i is Sub || i is Mul || i is Div || i is Mod
}

/// The mathematical result of folding `a op b`, or `None` where the
/// operation is left for run time (a division by zero).
pub open spec fn fold_value(op: Instruction, a: i64, b: i64) -> Option<int> {
    match op {
        Instruction::Add => Some(a + b),
        Instruction::Sub => Some(a - b),
        Instruction::Mul => Some(a * b),
        Instruction::Div => if b == 0 { None } else { Some(trunc_div(a as int, b as int)) },
        Instruction::Mod => if b == 0 { None } else { Some(a - b * trunc_div(a as int, b as int)) },
        _ => None,
    }
}

/// The two top slots are known integers.
pub open spec fn top_two_ints(st: Seq<ConstantValue>) -> bool {
    st.len() >= 2 && st.last() is Integer && st[st.len() - 2] is Integer
}

/// One step of the propagation: the new abstract stack and the instruction emitted.
pub open spec fn propagate_step(st: Seq<ConstantValue>, inst: Instruction) -> (Seq<ConstantValue>, Instruction) {
    match inst {
        Instruction::Literal(n) => (st.push(ConstantValue::Integer(n)), inst),
        Instruction::FloatLiteral(f) => (st.push(ConstantValue::Float(f)), inst),
        Instruction::Add | Instruction::Sub | Instruction::Mul | Instruction::Div | Instruction::Mod => {
            if top_two_ints(st) && fold_value(inst, st[st.len() - 2]->Integer_0, st.last()->Integer_0) is Some {
                let v = fold_value(inst, st[st.len() - 2]->Integer_0, st.last()->Integer_0)->Some_0 as i64;
                (pop_n(st, 2).push(ConstantValue::Integer(v)), Instruction::Literal(v))
            } else {
                (pop_n(st, 2).push(ConstantValue::Unknown), inst)
            }
        },
        Instruction::Neg => {
            if st.len() >= 1 && st.last() is Integer {
                let v = (-(st.last()->Integer_0 as int)) as i64;
                (st.drop_last().push(ConstantValue::Integer(v)), Instruction::Literal(v))
            } else {
                (pop_n(st, 1).push(ConstantValue::Unknown), inst)
            }
        },
        Instruction::Dup => (if st.len() > 0 { st.push(st.last()) } else { st.push(ConstantValue::Unknown) }, inst),
        Instruction::Drop => (pop_n(st, 1), inst),
        Instruction::Swap => (
            if st.len() >= 2 {
                st.update(st.len() - 1, st[st.len() - 2]).update(st.len() - 2, st[st.len() - 1])
            } else {
                st
            },
            inst,
        ),
        Instruction::Call(_) => (seq![], inst),
        _ => (pop_n(st, instr_effect(inst).consumed as int) + unknowns(instr_effect(inst).produced as nat), inst),
    }
}

/// The step folds no value outside the range of `i64` (where the arithmetic would overflow).
pub open spec fn propagate_step_ok(st: Seq<ConstantValue>, inst: Instruction) -> bool {
    if is_folded_binary(inst) && top_two_ints(st) {
        match fold_value(inst, st[st.len() - 2]->Integer_0, st.last()->Integer_0) {
            Some(v) => i64::MIN <= v <= i64::MAX,
            None => true,
        }
    } else if inst is Neg && st.len() >= 1 && st.last() is Integer {
        st.last()->Integer_0 != i64::MIN
    } else {
        true
    }
}

/// `i` is the literal that pushes the known integer `v`.
pub open spec fn literal_of(v: ConstantValue, i: Instruction) -> bool {
    match v {
        ConstantValue::Integer(x) => i == Instruction::Literal(x),
        _ => false,
    }
}

/// The last `n` instructions emitted are the literals of the top `n` known values.
pub open spec fn last_literals(out: Seq<Instruction>, st: Seq<ConstantValue>, n: int) -> bool {
    &&& n <= out.len()
    &&& n <= st.len()
    &&& forall|k: int| 0 <= k < n ==> literal_of(#[trigger] st[st.len() - n + k], out[out.len() - n + k])
}

/// The number of operands a folded operation takes.
pub open spec fn operand_count(inst: Instruction) -> int {
    if inst is Neg { 1 } else { 2 }
}

/// Emitting the result of a step: a folded value replaces the literals that
/// pushed its operands where they were the last instructions emitted; where
/// they were not, the operation itself is kept (its value is still known).
pub open spec fn emit_step(out: Seq<Instruction>, st: Seq<ConstantValue>, inst: Instruction, emitted: Instruction) -> Seq<Instruction> {
    if (is_folded_binary(inst) || inst is Neg) && emitted is Literal {
        let n = operand_count(inst);
        if last_literals(out, st, n) { out.take(out.len() - n).push(emitted) } else { out.push(inst) }
    } else {
        out.push(emitted)
    }
}

/// Runs the propagation over a sequence: the final abstract stack and the rewritten sequence.
pub open spec fn propagate_run(s: Seq<Instruction>) -> (Seq<ConstantValue>, Seq<Instruction>)
    decreases s.len(),
{
    if s.len() == 0 {
        (seq![], seq![])
    } else {
        let prev = propagate_run(s.drop_last());
        let step = propagate_step(prev.0, s.last());
        (step.0, emit_step(prev.1, prev.0, s.last(), step.1))
    }
}

/// Whether the last `n` instructions emitted are the literals of the top `n` known values.
fn check_last_literals(out: &Vec<Instruction>, st: &Vec<ConstantValue>, n: usize) -> (r: bool)
    ensures
        r == last_literals(out@, st@, n as int),
{
    if n > out.len() || n > st.len() {
        return false;
    }
    let mut k: usize = 0;
    while k < n
        invariant
            k <= n,
            n <= out@.len(),
            n <= st@.len(),
            forall|q: int| 0 <= q < k ==> literal_of(#[trigger] st@[st@.len() - n + q], out@[out@.len() - n + q]),
        decreases n - k,
    {
        let ok = match (&st[st.len() - n + k], &out[out.len() - n + k]) {
            (ConstantValue::Integer(x), Instruction::Literal(y)) => *x == *y,
            _ => false,
        };
        if !ok {
            assert(!literal_of(st@[st@.len() - n + k], out@[out@.len() - n + k]));
            return false;
        }
        k = k + 1;
    }
    true
}

/// No step of the propagation over `s` overflows.
pub open spec fn propagate_fits(s: Seq<Instruction>) -> bool
    decreases s.len(),
{
    s.len() == 0 || (propagate_fits(s.drop_last()) && propagate_step_ok(propagate_run(s.drop_last()).0, s.last()))
}

proof fn lemma_propagate_fits_prefix(s: Seq<Instruction>, k: int)
    requires
        propagate_fits(s),
        0 <= k <= s.len(),
    ensures
        propagate_fits(s.take(k)),
    decreases s.len(),
{
    if k < s.len() {
        assert(s.drop_last().take(k) =~= s.take(k));
        lemma_propagate_fits_prefix(s.drop_last(), k);
    } else {
        assert(s.take(k) =~= s);
    }
}

/// Removes up to `n` slots from the top of the abstract stack.
fn pop_values(stack: &mut Vec<ConstantValue>, n: u8)
    ensures
        final(stack)@ == pop_n(old(stack)@, n as int),
{
    let mut k: u8 = 0;
    while k < n
        invariant
            k <= n,
            stack@ == pop_n(old(stack)@, k as int),
        decreases n - k,
    {
        stack.pop();
        proof {
            if k as int >= old(stack)@.len() {
            } else {
                assert(pop_n(old(stack)@, k as int).drop_last() =~= pop_n(old(stack)@, k + 1));
            }
        }
        k = k + 1;
    }
}

/// Pushes `n` unknown slots.
fn push_unknowns(stack: &mut Vec<ConstantValue>, n: u8)
    ensures
        final(stack)@ == old(stack)@ + unknowns(n as nat),
{
    let mut k: u8 = 0;
    while k < n
        invariant
            k <= n,
            stack@ == old(stack)@ + unknowns(k as nat),
        decreases n - k,
    {
        stack.push(ConstantValue::Unknown);
        assert(old(stack)@ + unknowns(k as nat) + seq![ConstantValue::Unknown] =~= old(stack)@ + unknowns((k + 1) as nat));
        k = k + 1;
    }
}

/// The value of `a op b` for a folded binary instruction, within range.
fn fold_binary(op: &Instruction, a: i64, b: i64) -> (r: Option<i64>)
    requires
        is_folded_binary(*op),
        fold_value(*op, a, b) matches Some(v) ==> i64::MIN <= v <= i64::MAX,
    ensures
        r matches Some(v) ==> fold_value(*op, a, b) == Some(v as int),
        r is None <==> fold_value(*op, a, b) is None,
{
    match op {
        Instruction::Add => Some(a + b),
        Instruction::Sub => Some(a - b),
        Instruction::Mul => Some(a * b),
        Instruction::Div => {
            if b == 0 {
                None
            } else {
                Some(wrapping_div(a, b))
            }
        },
        _ => {
            if b == 0 {
                None
            } else {
                Some(wrapping_rem(a, b))
            }
        },
    }
}

/// One step of the propagation on the concrete stack; returns the emitted instruction.
fn propagate_one(stack: &mut Vec<ConstantValue>, inst: &Instruction) -> (r: Instruction)
    requires
        propagate_step_ok(old(stack)@, *inst),
    ensures
        (final(stack)@, r) == propagate_step(old(stack)@, *inst),
{
    let ghost st = stack@;
    match inst {
        Instruction::Literal(n) => {
            stack.push(ConstantValue::Integer(*n));
            inst.duplicate()
        },
        Instruction::FloatLiteral(f) => {
            stack.push(ConstantValue::Float(*f));
            inst.duplicate()
        },
        Instruction::Add | Instruction::Sub | Instruction::Mul | Instruction::Div | Instruction::Mod => {
            let b = stack.pop();
            let a = stack.pop();
            proof {
                assert(st.len() >= 2 ==> pop_n(st, 2) =~= st.drop_last().drop_last());
                assert(st.len() < 2 ==> pop_n(st, 2) =~= seq![]);
            }
            match (b, a) {
                (Some(ConstantValue::Integer(bv)), Some(ConstantValue::Integer(av))) => {
                    match fold_binary(inst, av, bv) {
                        Some(v) => {
                            stack.push(ConstantValue::Integer(v));
                            Instruction::Literal(v)
                        },
                        None => {
                            stack.push(ConstantValue::Unknown);
                            inst.duplicate()
                        },
                    }
                },
                _ => {
                    stack.push(ConstantValue::Unknown);
                    inst.duplicate()
                },
            }
        },
        Instruction::Neg => {
            let a = stack.pop();
            proof {
                assert(st.len() >= 1 ==> pop_n(st, 1) =~= st.drop_last());
                assert(st.len() < 1 ==> pop_n(st, 1) =~= seq![]);
            }
            match a {
                Some(ConstantValue::Integer(av)) => {
                    let v = -av;
                    stack.push(ConstantValue::Integer(v));
                    Instruction::Literal(v)
                },
                _ => {
                    stack.push(ConstantValue::Unknown);
                    inst.duplicate()
                },
            }
        },
        Instruction::Dup => {
            let n = stack.len();
            if n > 0 {
                let top = stack[n - 1];
                stack.push(top);
            } else {
                stack.push(ConstantValue::Unknown);
            }
            inst.duplicate()
        },
        Instruction::Drop => {
            stack.pop();
            proof {
                assert(st.len() >= 1 ==> pop_n(st, 1) =~= st.drop_last());
                assert(st.len() < 1 ==> pop_n(st, 1) =~= seq![]);
            }
            inst.duplicate()
        },
        Instruction::Swap => {
            let n = stack.len();
            if n >= 2 {
                let x = stack[n - 1];
                let y = stack[n - 2];
                stack.set(n - 1, y);
                stack.set(n - 2, x);
            }
            inst.duplicate()
        },
        Instruction::Call(_) => {
            stack.clear();
            inst.duplicate()
        },
        _ => {
            let e = inst.stack_effect();
            pop_values(stack, e.consumed);
            push_unknowns(stack, e.produced);
            inst.duplicate()
        },
    }
}

/// `i` calls the word named `name`.
pub open spec fn is_call_of(i: Instruction, name: Seq<char>) -> bool {
    i matches Instruction::Call(n) && n@ == name
}

/// The instruction sequence with every call of `word_name` replaced by `body`.
pub open spec fn inline_calls(s: Seq<Instruction>, word_name: Seq<char>, body: Seq<Instruction>) -> Seq<Instruction>
    decreases s.len(),
{
    if s.len() == 0 {
        seq![]
    } else {
        let prev = inline_calls(s.drop_last(), word_name, body);
        if is_call_of(s.last(), word_name) {
            prev + body
        } else {
            prev.push(s.last())
        }
    }
}

/// The left-to-right scan over the `Literal Call(word_name)` pairs of `s`: whether two
/// of them disagreed, and the constant of the last one.
pub open spec fn pattern_scan(s: Seq<Instruction>, word_name: Seq<char>) -> (bool, Option<i64>)
    decreases s.len(),
{
    if s.len() < 2 {
        (false, None)
    } else {
        let prev = pattern_scan(s.drop_last(), word_name);
        if prev.0 {
            prev
        } else if s[s.len() - 2] is Literal && is_call_of(s.last(), word_name) {
            if prev.1 is Some && prev.1->Some_0 != s[s.len() - 2]->Literal_0 {
                (true, prev.1)
            } else {
                (false, Some(s[s.len() - 2]->Literal_0))
            }
        } else {
            prev
        }
    }
}

/// The constant that every `Literal Call(word_name)` pair of `s` carries; `None` if there
/// is no such pair or two of them disagree.
pub open spec fn constant_pattern(s: Seq<Instruction>, word_name: Seq<char>) -> Option<i64> {
    if pattern_scan(s, word_name).0 { None } else { pattern_scan(s, word_name).1 }
}

/// What the rewriting emits for `s`, left to right: `None` for a call of the
/// specialized word (in place of a `Literal(constant) Call(original)` pair), else the
/// instruction kept.
pub open spec fn replace_plan(s: Seq<Instruction>, original: Seq<char>, constant: i64) -> Seq<Option<Instruction>>
    decreases s.len(),
{
    if s.len() == 0 {
        seq![]
    } else if s.len() >= 2 && s[0] == Instruction::Literal(constant)
        && is_call_of(s[1], original) {
        seq![None] + replace_plan(s.subrange(2, s.len() as int), original, constant)
    } else {
        seq![Some(s[0])] + replace_plan(s.subrange(1, s.len() as int), original, constant)
    }
}

/// `r` carries out `plan`, calling the word named `specialized` where the plan says `None`.
pub open spec fn carries_out(r: Seq<Instruction>, plan: Seq<Option<Instruction>>, specialized: Seq<char>) -> bool {
    &&& r.len() == plan.len()
    &&& forall|i: int| 0 <= i < r.len() ==> match #[trigger] plan[i] {
        Some(x) => r[i] == x,
        None => r[i] matches Instruction::Call(n) && n@ == specialized,
    }
}

/// The name of the version of `name` specialized for `constant`.
pub open spec fn specialized_name(name: Seq<char>, constant: i64) -> Seq<char> {
    name + "__specialized_"@ + decimal_text(constant as int)
}

/// Inlining and specialization settings for a level: (aggressive specialization,
/// inlining budget, inline single-call words).
pub open spec fn level_settings(level: OptimizationLevel) -> (bool, usize, bool) {
    match level {
        OptimizationLevel::Unoptimized => (false, 0, false),
        OptimizationLevel::Basic => (false, 10, false),
        OptimizationLevel::Standard => (false, 20, true),
        OptimizationLevel::Aggressive => (true, 50, true),
    }
}

/// Optimizes the program as a whole.
pub struct WholeProgramOptimizer {
    pub level: OptimizationLevel,
    /// Whether to specialize words for constant arguments.
    pub aggressive_specialization: bool,
    /// Largest cost of a word that is inlined at its single call.
    pub max_inline_cost: usize,
    /// Whether to inline words called exactly once.
    pub inline_single_calls: bool,
}

impl WholeProgramOptimizer {
    pub fn new(level: OptimizationLevel) -> (r: Self)
        ensures
            r.level == level,
            (r.aggressive_specialization, r.max_inline_cost, r.inline_single_calls) == level_settings(level),
    {
        let (aggressive_specialization, max_inline_cost, inline_single_calls) = match level {
            OptimizationLevel::Unoptimized => (false, 0usize, false),
            OptimizationLevel::Basic => (false, 10usize, false),
            OptimizationLevel::Standard => (false, 20usize, true),
            OptimizationLevel::Aggressive => (true, 50usize, true),
        };
        WholeProgramOptimizer { level, aggressive_specialization, max_inline_cost, inline_single_calls }
    }

    /// Sets the inlining budget.
    pub fn set_max_inline_cost(&mut self, cost: usize)
        ensures
            final(self).max_inline_cost == cost,
            final(self).level == old(self).level,
            final(self).aggressive_specialization == old(self).aggressive_specialization,
            final(self).inline_single_calls == old(self).inline_single_calls,
    {
        self.max_inline_cost = cost;
    }

    /// Enables or disables specialization for constant arguments.
    pub fn set_aggressive_specialization(&mut self, enabled: bool)
        ensures
            final(self).aggressive_specialization == enabled,
            final(self).level == old(self).level,
            final(self).max_inline_cost == old(self).max_inline_cost,
            final(self).inline_single_calls == old(self).inline_single_calls,
    {
        self.aggressive_specialization = enabled;
    }

    /// Propagates constants through a sequence: an operation on known integers
    /// whose operands were pushed by the literals just before it is replaced,
    /// with those literals, by a literal of its value (`2 3 +` becomes `5`);
    /// calls forget what is known.
    pub fn propagate_in_sequence(&self, instructions: &[Instruction]) -> (r: Result<Vec<Instruction>, OptimizerError>)
        requires
            propagate_fits(instructions@),
        ensures
            r matches Ok(v) && v@ == propagate_run(instructions@).1,
    {
        let mut result: Vec<Instruction> = Vec::new();
        let mut stack: Vec<ConstantValue> = Vec::new();
        let mut i: usize = 0;
        while i < instructions.len()
            invariant
                0 <= i <= instructions@.len(),
                propagate_fits(instructions@),
                (stack@, result@) == propagate_run(instructions@.take(i as int)),
            decreases instructions@.len() - i,
        {
            proof {
                lemma_propagate_fits_prefix(instructions@, i + 1);
                assert(instructions@.take(i + 1).drop_last() =~= instructions@.take(i as int));
            }
            let inst = &instructions[i];
            let folding = matches!(inst, Instruction::Add | Instruction::Sub | Instruction::Mul | Instruction::Div
                | Instruction::Mod | Instruction::Neg);
            let n: usize = if matches!(inst, Instruction::Neg) { 1 } else { 2 };
            let fresh = check_last_literals(&result, &stack, n);
            let out = propagate_one(&mut stack, inst);
            let folded = folding && matches!(out, Instruction::Literal(_));
            if folded && fresh {
                let ghost before = result@;
                result.truncate(result.len() - n);
                assert(result@ =~= before.take(before.len() - n));
                result.push(out);
            } else if folded {
                result.push(inst.duplicate());
            } else {
                result.push(out);
            }
            i = i + 1;
        }
        assert(instructions@.take(instructions@.len() as int) =~= instructions@);
        Ok(result)
    }

    /// Replaces every call of `word_name` in a sequence by the word's body.
    pub fn inline_in_sequence(&self, instructions: &[Instruction], word_name: &str, word_def: &WordDef) -> (r: Vec<Instruction>)
        ensures
            r@ == inline_calls(instructions@, word_name@, word_def.instructions@),
    {
        let mut result: Vec<Instruction> = Vec::new();
        let mut i: usize = 0;
        while i < instructions.len()
            invariant
                0 <= i <= instructions@.len(),
                result@ == inline_calls(instructions@.take(i as int), word_name@, word_def.instructions@),
            decreases instructions@.len() - i,
        {
            proof { assert(instructions@.take(i + 1).drop_last() =~= instructions@.take(i as int)); }
            let inst = &instructions[i];
            let mut inlined = false;
            if let Instruction::Call(name) = inst {
                if str_eq(name.as_str(), word_name) {
                    let mut j: usize = 0;
                    let ghost before = result@;
                    while j < word_def.instructions.len()
                        invariant
                            0 <= j <= word_def.instructions@.len(),
                            result@ == before + word_def.instructions@.take(j as int),
                        decreases word_def.instructions@.len() - j,
                    {
                        result.push(word_def.instructions[j].duplicate());
                        assert(before + word_def.instructions@.take(j + 1) =~= (before + word_def.instructions@.take(j as int)).push(word_def.instructions@[j as int]));
                        j = j + 1;
                    }
                    assert(word_def.instructions@.take(j as int) =~= word_def.instructions@);
                    inlined = true;
                }
            }
            if !inlined {
                result.push(inst.duplicate());
            }
            i = i + 1;
        }
        assert(instructions@.take(instructions@.len() as int) =~= instructions@);
        result
    }

    /// The constant that every `Literal Call(word_name)` pair of the sequence carries,
    /// or `None` if there is none or two disagree.
    pub fn find_constant_pattern(&self, instructions: &[Instruction], word_name: &str) -> (r: Option<i64>)
        ensures
            r == constant_pattern(instructions@, word_name@),
    {
        let mut constant_before_call: Option<i64> = None;
        let n = instructions.len();
        if n < 2 {
            return None;
        }
        let mut i: usize = 1;
        proof { assert(instructions@.take(1).len() < 2); }
        while i < n
            invariant
                1 <= i <= n,
                n == instructions@.len(),
                pattern_scan(instructions@.take(i as int), word_name@) == (false, constant_before_call),
            decreases n - i,
        {
            let ghost s = instructions@.take(i + 1);
            proof {
                assert(s.drop_last() =~= instructions@.take(i as int));
                assert(s[s.len() - 2] == instructions@[i - 1]);
                assert(s.last() == instructions@[i as int]);
            }
            if let Instruction::Literal(k) = &instructions[i - 1] {
                if let Instruction::Call(name) = &instructions[i] {
                    if str_eq(name.as_str(), word_name) {
                        if let Some(prev) = constant_before_call {
                            if prev != *k {
                                proof { lemma_conflict_extends(instructions@, word_name@, i + 1); }
                                return None;
                            }
                        }
                        constant_before_call = Some(*k);
                    }
                }
            }
            i = i + 1;
        }
        assert(instructions@.take(n as int) =~= instructions@);
        constant_before_call
    }

    /// `word` with `Literal(constant)` put in front, named for the constant; it is
    /// inlined where the original word costs less than 10.
    pub fn create_specialized_word(&self, word: &WordDef, constant: i64) -> (r: Result<WordDef, OptimizerError>)
        requires
            effect_fits(seq![Instruction::Literal(constant)] + word.instructions@),
        ensures
            r matches Ok(w) && {
                &&& w.name@ == specialized_name(word.name@, constant)
                &&& w.instructions@ == seq![Instruction::Literal(constant)] + word.instructions@
                &&& w.stack_effect == seq_effect(w.instructions@)
                &&& w.cost == w.instructions@.len()
                &&& w.is_inline == (word.cost < 10)
            },
    {
        let mut instructions: Vec<Instruction> = Vec::new();
        instructions.push(Instruction::Literal(constant));
        let mut j: usize = 0;
        while j < word.instructions.len()
            invariant
                0 <= j <= word.instructions@.len(),
                instructions@ == seq![Instruction::Literal(constant)] + word.instructions@.take(j as int),
            decreases word.instructions@.len() - j,
        {
            instructions.push(word.instructions[j].duplicate());
            assert(seq![Instruction::Literal(constant)] + word.instructions@.take(j + 1)
                =~= (seq![Instruction::Literal(constant)] + word.instructions@.take(j as int)).push(word.instructions@[j as int]));
            j = j + 1;
        }
        assert(word.instructions@.take(j as int) =~= word.instructions@);
        let mut name = word.name.clone();
        push_str(&mut name, "__specialized_");
        let digits = i64_text(constant);
        push_str(&mut name, digits.as_str());
        let mut specialized = WordDef::new(name, instructions);
        specialized.is_inline = word.cost < 10;
        Ok(specialized)
    }

    /// Replaces each `Literal(constant) Call(original_name)` pair by a call of the specialized word.
    pub fn replace_in_sequence(&self, instructions: &[Instruction], original_name: &str, specialized_name: &str, constant: i64) -> (r: Vec<Instruction>)
        ensures
            carries_out(r@, replace_plan(instructions@, original_name@, constant), specialized_name@),
    {
        let mut result: Vec<Instruction> = Vec::new();
        let ghost mut done: Seq<Option<Instruction>> = seq![];
        let mut i: usize = 0;
        let n = instructions.len();
        assert(instructions@.subrange(0, n as int) =~= instructions@);
        while i < n
            invariant
                0 <= i <= n,
                n == instructions@.len(),
                carries_out(result@, done, specialized_name@),
                done + replace_plan(instructions@.subrange(i as int, n as int), original_name@, constant)
                    == replace_plan(instructions@, original_name@, constant),
            decreases n - i,
        {
            let ghost rest = instructions@.subrange(i as int, n as int);
            let mut replaced = false;
            if i + 1 < n {
                if let Instruction::Literal(k) = &instructions[i] {
                    if let Instruction::Call(name) = &instructions[i + 1] {
                        if *k == constant && str_eq(name.as_str(), original_name) {
                            proof {
                                assert(rest[0] == instructions@[i as int] && rest[1] == instructions@[i + 1]);
                                assert(rest.subrange(2, rest.len() as int) =~= instructions@.subrange(i + 2, n as int));
                                assert(replace_plan(rest, original_name@, constant)
                                    == seq![None] + replace_plan(rest.subrange(2, rest.len() as int), original_name@, constant));
                                assert(done.push(None) + replace_plan(instructions@.subrange(i + 2, n as int), original_name@, constant)
                                    =~= done + replace_plan(rest, original_name@, constant));
                                done = done.push(None);
                            }
                            result.push(Instruction::Call(specialized_name.to_owned()));
                            i = i + 2;
                            replaced = true;
                        }
                    }
                }
            }
            if !replaced {
                proof {
                    assert(rest[0] == instructions@[i as int]);
                    if i + 1 < n {
                        assert(rest[1] == instructions@[i + 1]);
                    }
                    assert(rest.subrange(1, rest.len() as int) =~= instructions@.subrange(i + 1, n as int));
                    assert(replace_plan(rest, original_name@, constant)
                        == seq![Some(rest[0])] + replace_plan(rest.subrange(1, rest.len() as int), original_name@, constant));
                    assert(done.push(Some(rest[0])) + replace_plan(instructions@.subrange(i + 1, n as int), original_name@, constant)
                        =~= done + replace_plan(rest, original_name@, constant));
                    done = done.push(Some(rest[0]));
                }
                result.push(instructions[i].duplicate());
                i = i + 1;
            }
        }
        assert(instructions@.subrange(n as int, n as int) =~= Seq::<Instruction>::empty());
        assert(done + Seq::<Option<Instruction>>::empty() =~= done);
        result
    }
}

/// Once two pairs disagree, every longer prefix has a disagreement too.
proof fn lemma_conflict_extends(s: Seq<Instruction>, name: Seq<char>, k: int)
    requires
        0 <= k <= s.len(),
        pattern_scan(s.take(k), name).0,
    ensures
        pattern_scan(s, name).0,
    decreases s.len() - k,
{
    if k == s.len() {
        assert(s.take(k) =~= s);
    } else {
        assert(s.take(k + 1).drop_last() =~= s.take(k));
        lemma_conflict_extends(s, name, k + 1);
    }
}

/// The node a call of `n` reaches: the word of that name (node `j + 1` for
/// word `j`), else the top-level node for the name `__main__`.
pub open spec fn node_of(ws: Seq<WordDef>, n: Seq<char>) -> Option<int> {
    match word_index(ws, n) {
        Some(j) => Some(j + 1),
        None => if n == "__main__"@ { Some(0) } else { None },
    }
}

/// The kind of a call of `callee` at position `i` of the caller's body `s`.
pub open spec fn edge_kind(s: Seq<Instruction>, i: int, caller: Seq<char>, callee: Seq<char>, is_main: bool) -> CallEdge {
    if is_main {
        CallEdge::Direct
    } else if callee == caller {
        CallEdge::Recursive
    } else if i == s.len() - 1 || (i + 1 < s.len() && s[i + 1] is Return) {
        CallEdge::TailCall
    } else {
        CallEdge::Direct
    }
}

/// The call edges of the first `k` instructions of `s`, the body of node `from`.
pub open spec fn seq_edges(s: Seq<Instruction>, k: int, from: int, caller: Seq<char>, is_main: bool, ws: Seq<WordDef>)
    -> Seq<(usize, usize, CallEdge)>
    decreases k,
{
    if k <= 0 {
        Seq::empty()
    } else {
        let prev = seq_edges(s, k - 1, from, caller, is_main, ws);
        match s[k - 1] {
            Instruction::Call(n) => match node_of(ws, n@) {
                Some(t) => prev.push((from as usize, t as usize, edge_kind(s, k - 1, caller, n@, is_main))),
                None => prev,
            },
            _ => prev,
        }
    }
}

/// The call edges of the bodies of the first `m` words.
pub open spec fn words_edges(ws: Seq<WordDef>, m: int) -> Seq<(usize, usize, CallEdge)>
    decreases m,
{
    if m <= 0 {
        Seq::empty()
    } else {
        words_edges(ws, m - 1) + seq_edges(ws[m - 1].instructions@, ws[m - 1].instructions@.len() as int, m, ws[m - 1].name@, false, ws)
    }
}

/// The call edges of a program: those of the top-level sequence, then those
/// of each word's body, in order.
pub open spec fn graph_edges(main: Seq<Instruction>, ws: Seq<WordDef>) -> Seq<(usize, usize, CallEdge)> {
    seq_edges(main, main.len() as int, 0, "__main__"@, true, ws) + words_edges(ws, ws.len() as int)
}

/// The number of edges into node `j`.
pub open spec fn in_count(es: Seq<(usize, usize, CallEdge)>, j: int) -> int
    decreases es.len(),
{
    if es.len() == 0 { 0 } else { in_count(es.drop_last(), j) + if es.last().1 == j { 1int } else { 0int } }
}

/// A node's call count: its incoming edges, the top-level node counting one
/// when nothing calls it.
pub open spec fn node_count(es: Seq<(usize, usize, CallEdge)>, j: int) -> int {
    if in_count(es, j) > 0 { in_count(es, j) } else if j == 0 { 1 } else { 0 }
}

/// One pass over the first `k` edges: a node reached in `old` marks its
/// callees in `cur`.
pub open spec fn round_from(es: Seq<(usize, usize, CallEdge)>, k: int, old: Seq<bool>, cur: Seq<bool>) -> Seq<bool>
    decreases k,
{
    if k <= 0 {
        cur
    } else {
        let c = round_from(es, k - 1, old, cur);
        let e = es[k - 1];
        if e.0 < old.len() && old[e.0 as int] && e.1 < c.len() { c.update(e.1 as int, true) } else { c }
    }
}

/// `m` and the callees of the nodes in `m`.
pub open spec fn reach_round(es: Seq<(usize, usize, CallEdge)>, m: Seq<bool>) -> Seq<bool> {
    round_from(es, es.len() as int, m, m)
}

/// The nodes reached from `m` by at most `n` calls.
pub open spec fn reach_iter(es: Seq<(usize, usize, CallEdge)>, m: Seq<bool>, n: nat) -> Seq<bool>
    decreases n,
{
    if n == 0 { m } else { reach_round(es, reach_iter(es, m, (n - 1) as nat)) }
}

/// Only node `j` among `n` nodes.
pub open spec fn only(n: int, j: int) -> Seq<bool> {
    Seq::new(n as nat, |k: int| k == j)
}

/// The callees of the nodes in `m`.
pub open spec fn callees(es: Seq<(usize, usize, CallEdge)>, m: Seq<bool>) -> Seq<bool> {
    round_from(es, es.len() as int, m, Seq::new(m.len(), |k: int| false))
}

/// The names of the nodes from `k` on, past the top-level node, that satisfy `keep`.
pub open spec fn names_where(nodes: Seq<CallGraphNode>, keep: Seq<bool>, k: int) -> Seq<Seq<char>>
    decreases nodes.len() - k,
{
    if k >= nodes.len() || k < 0 {
        Seq::empty()
    } else {
        (if keep[k] { seq![nodes[k].name@] } else { Seq::empty() }) + names_where(nodes, keep, k + 1)
    }
}

/// The last node named `n`, as the name table finds it (later nodes replace earlier ones).
pub open spec fn last_named(nodes: Seq<CallGraphNode>, n: Seq<char>, k: int) -> Option<int>
    decreases k,
{
    if k <= 0 { None } else if nodes[k - 1].name@ == n { Some(k - 1) } else { last_named(nodes, n, k - 1) }
}

proof fn lemma_last_named_below(nodes: Seq<CallGraphNode>, n: Seq<char>, k: int)
    ensures
        last_named(nodes, n, k) matches Some(j) ==> 0 <= j < k,
    decreases k,
{
    if k > 0 {
        lemma_last_named_below(nodes, n, k - 1);
    }
}

proof fn lemma_reach_len(es: Seq<(usize, usize, CallEdge)>, m: Seq<bool>, n: nat)
    ensures
        reach_iter(es, m, n).len() == m.len(),
    decreases n,
{
    if n > 0 {
        lemma_reach_len(es, m, (n - 1) as nat);
        lemma_round_len(es, es.len() as int, reach_iter(es, m, (n - 1) as nat), reach_iter(es, m, (n - 1) as nat));
    }
}

proof fn lemma_round_len(es: Seq<(usize, usize, CallEdge)>, k: int, old_m: Seq<bool>, cur: Seq<bool>)
    ensures
        round_from(es, k, old_m, cur).len() == cur.len(),
    decreases k,
{
    if k > 0 {
        lemma_round_len(es, k - 1, old_m, cur);
    }
}

/// The call graph of a program: node 0 is the top-level sequence (named
/// `__main__`, the entry point), node `j + 1` is word `j`; an edge goes from a
/// caller to each word it calls.
pub struct CallGraph {
    pub nodes: Vec<CallGraphNode>,
    pub edges: Vec<(usize, usize, CallEdge)>,
    pub entry_points: Vec<usize>,
}

/// The names of a list of strings.
pub open spec fn string_views(v: Seq<String>) -> Seq<Seq<char>> {
    v.map_values(|x: String| x@)
}

/// The call edges of the first `k` instructions of `s`, appended to `edges`.
fn add_seq_edges(edges: &mut Vec<(usize, usize, CallEdge)>, s: &Vec<Instruction>, from: usize, caller: &String,
    is_main: bool, ir: &ForthIR)
    requires
        ir.wf(),
        from <= ir.words@.len(),
        ir.words@.len() < usize::MAX,
    ensures
        final(edges)@ == old(edges)@ + seq_edges(s@, s@.len() as int, from as int, caller@, is_main, ir.words@),
{
    let ghost e0 = edges@;
    let main_name = "__main__".to_owned();
    let mut k: usize = 0;
    assert(e0 + seq_edges(s@, 0, from as int, caller@, is_main, ir.words@) =~= e0);
    while k < s.len()
        invariant
            k <= s@.len(),
            ir.wf(),
            from <= ir.words@.len(),
            ir.words@.len() < usize::MAX,
            main_name@ == "__main__"@,
            edges@ == e0 + seq_edges(s@, k as int, from as int, caller@, is_main, ir.words@),
        decreases s@.len() - k,
    {
        if let Instruction::Call(n) = &s[k] {
            let target: Option<usize> = match ir.find_word(n) {
                Some(j) => Some(j + 1),
                None => if *n == main_name { Some(0) } else { None },
            };
            match target {
                Some(t) => {
                    let kind = if is_main {
                        CallEdge::Direct
                    } else if *n == *caller {
                        CallEdge::Recursive
                    } else if k + 1 == s.len() || matches!(s[k + 1], Instruction::Return) {
                        CallEdge::TailCall
                    } else {
                        CallEdge::Direct
                    };
                    edges.push((from, t, kind));
                    assert(edges@ =~= e0 + seq_edges(s@, k + 1, from as int, caller@, is_main, ir.words@));
                }
                None => {}
            }
        }
        k = k + 1;
    }
}

/// The nodes (below `n`) that node `node` reaches by one or more calls, as
/// `n` rounds of following edges find them.
pub(crate) fn reach_plus(edges: &Vec<(usize, usize, CallEdge)>, n: usize, node: usize) -> (m: Vec<bool>)
    requires
        node < n,
    ensures
        m@ == reach_iter(edges@, callees(edges@, only(n as int, node as int)), n as nat),
        m@.len() == n,
{
    let mut start: Vec<bool> = Vec::new();
    let mut m: Vec<bool> = Vec::new();
    let mut j: usize = 0;
    while j < n
        invariant
            j <= n,
            start@ == only(n as int, node as int).take(j as int),
            m@ == Seq::new(n as nat, |k: int| false).take(j as int),
        decreases n - j,
    {
        start.push(j == node);
        m.push(false);
        j = j + 1;
        assert(start@ =~= only(n as int, node as int).take(j as int));
        assert(m@ =~= Seq::new(n as nat, |k: int| false).take(j as int));
    }
    assert(start@ =~= only(n as int, node as int));
    assert(m@ =~= Seq::new(start@.len(), |k: int| false));
    edges_pass(edges, &start, &mut m);
    let ghost m0 = m@;
    assert(m0 == callees(edges@, only(n as int, node as int)));
    let mut round: usize = 0;
    while round < n
        invariant
            round <= n,
            m@.len() == n,
            m0.len() == n,
            m@ == reach_iter(edges@, m0, round as nat),
        decreases n - round,
    {
        m = reach_pass(edges, &m);
        round = round + 1;
    }
    m
}

/// One pass of reachability: `prev` and the callees of its nodes.
fn reach_pass(edges: &Vec<(usize, usize, CallEdge)>, prev: &Vec<bool>) -> (r: Vec<bool>)
    ensures
        r@ == reach_round(edges@, prev@),
        r@.len() == prev@.len(),
{
    let mut cur: Vec<bool> = Vec::new();
    let mut i: usize = 0;
    while i < prev.len()
        invariant
            i <= prev@.len(),
            cur@ == prev@.take(i as int),
        decreases prev@.len() - i,
    {
        cur.push(prev[i]);
        i = i + 1;
        assert(cur@ =~= prev@.take(i as int));
    }
    assert(prev@.take(prev@.len() as int) =~= prev@);
    edges_pass(edges, prev, &mut cur);
    cur
}

/// Marks in `cur` the callees of the nodes of `prev`.
fn edges_pass(edges: &Vec<(usize, usize, CallEdge)>, prev: &Vec<bool>, cur: &mut Vec<bool>)
    ensures
        final(cur)@ == round_from(edges@, edges@.len() as int, prev@, old(cur)@),
        final(cur)@.len() == old(cur)@.len(),
{
    let ghost c0 = cur@;
    let mut k: usize = 0;
    while k < edges.len()
        invariant
            k <= edges@.len(),
            cur@ == round_from(edges@, k as int, prev@, c0),
            cur@.len() == c0.len(),
        decreases edges@.len() - k,
    {
        let (a, b, _) = edges[k];
        if a < prev.len() && prev[a] && b < cur.len() {
            cur.set(b, true);
        }
        k = k + 1;
    }
}

impl CallGraph {
    /// Builds the call graph of a program.
    pub fn build(ir: &ForthIR) -> (g: CallGraph)
        requires
            ir.wf(),
            ir.words@.len() < usize::MAX,
        ensures
            g.nodes@.len() == ir.words@.len() + 1,
            g.nodes@[0].name@ == "__main__"@ && g.nodes@[0].is_entry_point,
            forall|j: int| 0 <= j < ir.words@.len() ==> (#[trigger] g.nodes@[j + 1]).name@ == ir.words@[j].name@
                && !g.nodes@[j + 1].is_entry_point,
            g.edges@ == graph_edges(ir.main@, ir.words@),
            forall|j: int| 0 <= j < g.nodes@.len() ==> (#[trigger] g.nodes@[j]).call_count == node_count(g.edges@, j),
            g.entry_points@ == seq![0usize],
    {
        let mut edges: Vec<(usize, usize, CallEdge)> = Vec::new();
        let main_name = "__main__".to_owned();
        add_seq_edges(&mut edges, &ir.main, 0, &main_name, true, ir);
        let mut m: usize = 0;
        assert(Seq::<(usize, usize, CallEdge)>::empty() + seq_edges(ir.main@, ir.main@.len() as int, 0, main_name@, true, ir.words@)
            + words_edges(ir.words@, 0) =~= edges@);
        while m < ir.words.len()
            invariant
                m <= ir.words@.len(),
                ir.wf(),
                ir.words@.len() < usize::MAX,
                main_name@ == "__main__"@,
                edges@ == seq_edges(ir.main@, ir.main@.len() as int, 0, "__main__"@, true, ir.words@) + words_edges(ir.words@, m as int),
            decreases ir.words@.len() - m,
        {
            let ghost before = edges@;
            add_seq_edges(&mut edges, &ir.words[m].instructions, m + 1, &ir.words[m].name, false, ir);
            assert(edges@ =~= seq_edges(ir.main@, ir.main@.len() as int, 0, "__main__"@, true, ir.words@) + words_edges(ir.words@, m + 1));
            m = m + 1;
        }
        let n = ir.words.len() + 1;
        let mut counts: Vec<usize> = Vec::new();
        let mut j: usize = 0;
        while j < n
            invariant
                j <= n,
                counts@.len() == j,
                forall|q: int| 0 <= q < j ==> counts@[q] == 0,
            decreases n - j,
        {
            counts.push(0);
            j = j + 1;
        }
        let mut k: usize = 0;
        while k < edges.len()
            invariant
                k <= edges@.len(),
                counts@.len() == n,
                forall|q: int| 0 <= q < n ==> counts@[q] == in_count(edges@.take(k as int), q),
                forall|q: int| 0 <= q < n ==> counts@[q] <= k,
            decreases edges@.len() - k,
        {
            assert(edges@.take(k + 1).drop_last() =~= edges@.take(k as int));
            let t = edges[k].1;
            if t < n {
                counts.set(t, counts[t] + 1);
            }
            k = k + 1;
        }
        assert(edges@.take(edges@.len() as int) =~= edges@);
        let mut nodes: Vec<CallGraphNode> = Vec::new();
        let c0 = if counts[0] > 0 { counts[0] } else { 1 };
        nodes.push(CallGraphNode { name: main_name, call_count: c0, is_entry_point: true });
        let mut w: usize = 0;
        while w < ir.words.len()
            invariant
                w <= ir.words@.len(),
                n == ir.words@.len() + 1,
                counts@.len() == n,
                forall|q: int| 0 <= q < n ==> counts@[q] == in_count(edges@, q),
                nodes@.len() == w + 1,
                nodes@[0].name@ == "__main__"@ && nodes@[0].is_entry_point,
                nodes@[0].call_count == node_count(edges@, 0),
                forall|q: int| 0 <= q < w ==> (#[trigger] nodes@[q + 1]).name@ == ir.words@[q].name@
                    && !nodes@[q + 1].is_entry_point && nodes@[q + 1].call_count == node_count(edges@, q + 1),
            decreases ir.words@.len() - w,
        {
            let c = counts[w + 1];
            nodes.push(CallGraphNode { name: ir.words[w].name.clone(), call_count: c, is_entry_point: false });
            w = w + 1;
        }
        let mut entry_points: Vec<usize> = Vec::new();
        entry_points.push(0);
        let g = CallGraph { nodes, edges, entry_points };
        assert forall|j: int| 0 <= j < g.nodes@.len() implies (#[trigger] g.nodes@[j]).call_count == node_count(g.edges@, j) by {
            if j > 0 {
                assert(g.nodes@[(j - 1) + 1].call_count == node_count(g.edges@, (j - 1) + 1));
            }
        }
        g
    }

    /// The nodes reached from the top-level node by at most as many calls as
    /// there are nodes (every node it reaches at all).
    pub fn find_reachable(&self) -> (r: Vec<bool>)
        ensures
            r@ == reach_iter(self.edges@, only(self.nodes@.len() as int, 0), self.nodes@.len() as nat),
            r@.len() == self.nodes@.len(),
    {
        let n = self.nodes.len();
        let mut m: Vec<bool> = Vec::new();
        let mut j: usize = 0;
        while j < n
            invariant
                j <= n,
                m@ == only(n as int, 0).take(j as int),
            decreases n - j,
        {
            m.push(j == 0);
            j = j + 1;
            assert(m@ =~= only(n as int, 0).take(j as int));
        }
        assert(only(n as int, 0).take(n as int) =~= only(n as int, 0));
        let mut round: usize = 0;
        while round < n
            invariant
                round <= n,
                n == self.nodes@.len(),
                m@ == reach_iter(self.edges@, only(n as int, 0), round as nat),
            decreases n - round,
        {
            m = reach_pass(&self.edges, &m);
            round = round + 1;
        }
        proof { lemma_reach_len(self.edges@, only(n as int, 0), n as nat); }
        m
    }

    /// The names of the words that the top-level code never reaches, in order.
    pub fn find_unreachable(&self) -> (r: Vec<String>)
        ensures
            string_views(r@) == names_where(self.nodes@, Seq::new(self.nodes@.len(), |k: int| k >= 1
                && self.nodes@[k].name@ != "__main__"@
                && !reach_iter(self.edges@, only(self.nodes@.len() as int, 0), self.nodes@.len() as nat)[k]), 0),
    {
        let reach = self.find_reachable();
        let ghost keep = Seq::new(self.nodes@.len(), |k: int| k >= 1 && self.nodes@[k].name@ != "__main__"@ && !reach@[k]);
        assert(keep =~= Seq::new(self.nodes@.len(), |k: int| k >= 1
                && self.nodes@[k].name@ != "__main__"@
                && !reach_iter(self.edges@, only(self.nodes@.len() as int, 0), self.nodes@.len() as nat)[k]));
        self.names_kept(&reach, Ghost(keep), true)
    }

    /// The names of the nodes `k` for which `keep` holds, computed from `flags`
    /// (unreached nodes other than `__main__` when `unreached`, else nodes called once).
    fn names_kept(&self, flags: &Vec<bool>, Ghost(keep): Ghost<Seq<bool>>, unreached: bool) -> (r: Vec<String>)
        requires
            flags@.len() == self.nodes@.len(),
            keep.len() == self.nodes@.len(),
            forall|k: int| 0 <= k < keep.len() ==> keep[k] == (k >= 1 && self.nodes@[k].name@ != "__main__"@
                && if unreached { !flags@[k] } else { self.nodes@[k].call_count == 1 }),
        ensures
            string_views(r@) == names_where(self.nodes@, keep, 0),
    {
        let main_name = "__main__".to_owned();
        let mut out: Vec<String> = Vec::new();
        let mut k: usize = self.nodes.len();
        assert(names_where(self.nodes@, keep, k as int) =~= Seq::<Seq<char>>::empty());
        assert(string_views(out@) =~= Seq::<Seq<char>>::empty());
        let mut rev: Vec<String> = Vec::new();
        let mut k: usize = 0;
        while k < self.nodes.len()
            invariant
                k <= self.nodes@.len(),
                flags@.len() == self.nodes@.len(),
                keep.len() == self.nodes@.len(),
                main_name@ == "__main__"@,
                forall|q: int| 0 <= q < keep.len() ==> keep[q] == (q >= 1 && self.nodes@[q].name@ != "__main__"@
                    && if unreached { !flags@[q] } else { self.nodes@[q].call_count == 1 }),
                string_views(out@) + names_where(self.nodes@, keep, k as int) == names_where(self.nodes@, keep, 0),
            decreases self.nodes@.len() - k,
        {
            let wanted = k >= 1 && self.nodes[k].name != main_name
                && if unreached { !flags[k] } else { self.nodes[k].call_count == 1 };
            assert(wanted == keep[k as int]);
            if wanted {
                out.push(self.nodes[k].name.clone());
                assert(string_views(out@) =~= string_views(out@.drop_last()).push(self.nodes@[k as int].name@));
            }
            assert(names_where(self.nodes@, keep, k as int) == (if keep[k as int] { seq![self.nodes@[k as int].name@] } else { Seq::empty() })
                + names_where(self.nodes@, keep, k + 1));
            k = k + 1;
        }
        out
    }

    /// The words called exactly once, in node order.
    pub fn find_single_call_words(&self) -> (r: Vec<String>)
        ensures
            string_views(r@) == names_where(self.nodes@, Seq::new(self.nodes@.len(), |k: int| k >= 1
                && self.nodes@[k].name@ != "__main__"@ && self.nodes@[k].call_count == 1), 0),
    {
        let flags: Vec<bool> = self.find_reachable_len();
        let ghost keep = Seq::new(self.nodes@.len(), |k: int| k >= 1 && self.nodes@[k].name@ != "__main__"@ && self.nodes@[k].call_count == 1);
        self.names_kept(&flags, Ghost(keep), false)
    }

    /// A flag per node (all false).
    fn find_reachable_len(&self) -> (r: Vec<bool>)
        ensures
            r@.len() == self.nodes@.len(),
    {
        let mut r: Vec<bool> = Vec::new();
        let mut j: usize = 0;
        while j < self.nodes.len()
            invariant
                j <= self.nodes@.len(),
                r@.len() == j,
            decreases self.nodes@.len() - j,
        {
            r.push(false);
            j = j + 1;
        }
        r
    }

    /// The node the name `n` stands for: the last node of that name.
    fn lookup(&self, n: &str) -> (r: Option<usize>)
        ensures
            r matches Some(j) ==> last_named(self.nodes@, n@, self.nodes@.len() as int) == Some(j as int),
            r is None ==> last_named(self.nodes@, n@, self.nodes@.len() as int) is None,
            r matches Some(j) ==> j < self.nodes@.len(),
    {
        proof { lemma_last_named_below(self.nodes@, n@, self.nodes@.len() as int); }
        let key = n.to_owned();
        let mut k: usize = self.nodes.len();
        while k > 0
            invariant
                k <= self.nodes@.len(),
                key@ == n@,
                last_named(self.nodes@, n@, self.nodes@.len() as int) == last_named(self.nodes@, n@, k as int),
            decreases k,
        {
            if self.nodes[k - 1].name == key {
                return Some(k - 1);
            }
            k = k - 1;
        }
        None
    }

    /// Whether the word named `word_name` can reach itself through calls.
    pub fn is_recursive(&self, word_name: &str) -> (r: bool)
        ensures
            match last_named(self.nodes@, word_name@, self.nodes@.len() as int) {
                Some(j) => r == reach_iter(self.edges@, callees(self.edges@, only(self.nodes@.len() as int, j)),
                    self.nodes@.len() as nat)[j],
                None => !r,
            },
    {
        proof { lemma_last_named_below(self.nodes@, word_name@, self.nodes@.len() as int); }
        match self.lookup(word_name) {
            None => false,
            Some(node) => {
                let m = reach_plus(&self.edges, self.nodes.len(), node);
                m[node]
            },
        }
    }

    /// The call count of the word named `word_name`, or 0 for an unknown name.
    pub fn get_call_count(&self, word_name: &str) -> (r: usize)
        ensures
            match last_named(self.nodes@, word_name@, self.nodes@.len() as int) {
                Some(j) => r == self.nodes@[j].call_count,
                None => r == 0,
            },
    {
        proof { lemma_last_named_below(self.nodes@, word_name@, self.nodes@.len() as int); }
        let found = self.lookup(word_name);
        if found.is_some() {
            let j = found.unwrap();
            assert(found == Some(j));
            assert(last_named(self.nodes@, word_name@, self.nodes@.len() as int) is Some);
            assert(last_named(self.nodes@, word_name@, self.nodes@.len() as int) == Some(j as int));
            self.nodes[j].call_count
        } else {
            0
        }
    }
}

/// The positions from `k` on whose flag in `keep` is set, in order.
pub open spec fn kept_positions(keep: Seq<bool>, k: int) -> Seq<int>
    decreases keep.len() - k,
{
    if k < 0 || k >= keep.len() {
        Seq::empty()
    } else {
        (if keep[k] { seq![k] } else { Seq::empty() }) + kept_positions(keep, k + 1)
    }
}

/// The kept positions from `k` on are increasing and lie in `[k, keep.len())`.
proof fn lemma_kept_positions_increasing(keep: Seq<bool>, k: int)
    requires
        0 <= k,
    ensures
        forall|i: int| 0 <= i < kept_positions(keep, k).len()
            ==> k <= #[trigger] kept_positions(keep, k)[i] < keep.len(),
        forall|i: int, j: int| 0 <= i < j < kept_positions(keep, k).len()
            ==> #[trigger] kept_positions(keep, k)[i] < #[trigger] kept_positions(keep, k)[j],
    decreases keep.len() - k,
{
    if k < keep.len() {
        lemma_kept_positions_increasing(keep, k + 1);
        let rest = kept_positions(keep, k + 1);
        let here = if keep[k] { seq![k] } else { Seq::<int>::empty() };
        assert(kept_positions(keep, k) == here + rest);
        let kp = kept_positions(keep, k);
        assert forall|i: int| 0 <= i < kp.len() implies k <= #[trigger] kp[i] < keep.len() by {
            if i >= here.len() {
                assert(kp[i] == rest[i - here.len()]);
            }
        }
        assert forall|i: int, j: int| 0 <= i < j < kp.len() implies #[trigger] kp[i] < #[trigger] kp[j] by {
            assert(kp[j] == rest[j - here.len()]);
            if i >= here.len() {
                assert(kp[i] == rest[i - here.len()]);
            }
        }
    }
}

/// Words taken at increasing positions of a list with distinct names have
/// distinct names.
proof fn lemma_kept_names_distinct(ws: Seq<WordDef>, keep: Seq<bool>, out: Seq<WordDef>)
    requires
        names_distinct(ws),
        keep.len() == ws.len(),
        out.len() == kept_positions(keep, 0).len(),
        forall|i: int| 0 <= i < out.len() ==> (#[trigger] out[i]).name@ == ws[kept_positions(keep, 0)[i]].name@,
    ensures
        names_distinct(out),
{
    lemma_kept_positions_increasing(keep, 0);
    let kp = kept_positions(keep, 0);
    assert forall|i: int, j: int| 0 <= i < out.len() && 0 <= j < out.len() && i != j
        implies out[i].name@ != out[j].name@ by {
        assert(out[i].name@ == ws[kp[i]].name@);
        assert(out[j].name@ == ws[kp[j]].name@);
        if i < j {
            assert(kp[i] < kp[j]);
        } else {
            assert(kp[j] < kp[i]);
        }
    }
}

/// The call graph `g` is the one of the words `ws` (its nodes, in order).
pub open spec fn graph_of_words(g: CallGraph, ws: Seq<WordDef>) -> bool {
    &&& g.nodes@.len() == ws.len() + 1
    &&& g.nodes@[0].name@ == "__main__"@
    &&& forall|j: int| 0 <= j < ws.len() ==> (#[trigger] g.nodes@[j + 1]).name@ == ws[j].name@
}

/// Word `j` survives dead-word elimination: the top-level code reaches it, or
/// it is named `__main__`.
pub open spec fn word_live(g: CallGraph, ws: Seq<WordDef>, j: int) -> bool {
    ws[j].name@ == "__main__"@
        || reach_iter(g.edges@, only(g.nodes@.len() as int, 0), g.nodes@.len() as nat)[j + 1]
}

impl WholeProgramOptimizer {
    /// Removes the words that the top-level code never reaches (global dead
    /// code), keeping the others in order.
    pub fn eliminate_dead_words(&self, ir: &ForthIR, call_graph: &CallGraph) -> (r: Result<ForthIR, OptimizerError>)
        requires
            ir.wf(),
            graph_of_words(*call_graph, ir.words@),
        ensures
            r matches Ok(out) && out.wf() && out.main@ == ir.main@ && ({
                let kept = kept_positions(Seq::new(ir.words@.len(), |j: int| word_live(*call_graph, ir.words@, j)), 0);
                &&& out.words@.len() == kept.len()
                &&& forall|i: int| 0 <= i < kept.len() ==> same_word(#[trigger] out.words@[i], ir.words@[kept[i]])
            }),
    {
        let reach = call_graph.find_reachable();
        let ghost keep = Seq::new(ir.words@.len(), |j: int| word_live(*call_graph, ir.words@, j));
        let main_name = "__main__".to_owned();
        let mut words: Vec<WordDef> = Vec::new();
        let mut k: usize = 0;
        while k < ir.words.len()
            invariant
                k <= ir.words@.len(),
                graph_of_words(*call_graph, ir.words@),
                reach@.len() == call_graph.nodes@.len(),
                reach@ == reach_iter(call_graph.edges@, only(call_graph.nodes@.len() as int, 0), call_graph.nodes@.len() as nat),
                keep == Seq::new(ir.words@.len(), |j: int| word_live(*call_graph, ir.words@, j)),
                main_name@ == "__main__"@,
                words@.len() + kept_positions(keep, k as int).len() == kept_positions(keep, 0).len(),
                forall|i: int| 0 <= i < words@.len() ==> same_word(#[trigger] words@[i], ir.words@[kept_positions(keep, 0)[i]]),
                forall|i: int| words@.len() <= i < kept_positions(keep, 0).len() ==>
                    #[trigger] kept_positions(keep, 0)[i] == kept_positions(keep, k as int)[i - words@.len()],
            decreases ir.words@.len() - k,
        {
            let live = ir.words[k].name == main_name || reach[k + 1];
            assert(live == keep[k as int]);
            let ghost rest = kept_positions(keep, k as int);
            assert(rest == (if keep[k as int] { seq![k as int] } else { Seq::<int>::empty() })
                + kept_positions(keep, k + 1));
            let ghost before = words@;
            if live {
                let w = ir.words[k].duplicate();
                words.push(w);
                assert(kept_positions(keep, 0)[before.len() as int] == rest[0]);
                assert forall|i: int| words@.len() <= i < kept_positions(keep, 0).len() implies
                    #[trigger] kept_positions(keep, 0)[i] == kept_positions(keep, k + 1)[i - words@.len()] by {
                    assert(kept_positions(keep, 0)[i] == rest[i - before.len()]);
                }
            } else {
                assert forall|i: int| words@.len() <= i < kept_positions(keep, 0).len() implies
                    #[trigger] kept_positions(keep, 0)[i] == kept_positions(keep, k + 1)[i - words@.len()] by {
                    assert(kept_positions(keep, 0)[i] == rest[i - before.len()]);
                }
            }
            k = k + 1;
        }
        proof { lemma_kept_names_distinct(ir.words@, keep, words@); }
        let main = crate::optimizer::ir::copy_instructions(&ir.main);
        Ok(ForthIR { words, main })
    }
}

/// Word `w` is word `v` with its body propagated: same name and inline flag,
/// the propagated body, and its effect and cost recomputed.
pub open spec fn propagated_word(w: WordDef, v: WordDef) -> bool {
    &&& w.name == v.name
    &&& w.is_inline == v.is_inline
    &&& w.instructions@ == propagate_run(v.instructions@).1
    &&& w.stack_effect == seq_effect(w.instructions@)
    &&& w.cost == w.instructions@.len()
}

impl WholeProgramOptimizer {
    /// Propagates constants through the top-level sequence and through every
    /// word, recomputing each word's stack effect and cost; fails with
    /// `InvalidStackEffect` where a word's new effect does not fit in `u8`.
    pub fn apply_constant_propagation(&self, ir: &ForthIR) -> (r: Result<ForthIR, OptimizerError>)
        requires
            propagate_fits(ir.main@),
            forall|j: int| 0 <= j < ir.words@.len() ==> propagate_fits(#[trigger] ir.words@[j].instructions@),
        ensures
            r is Ok <==> forall|j: int| 0 <= j < ir.words@.len()
                ==> effect_fits(propagate_run(#[trigger] ir.words@[j].instructions@).1),
            r matches Ok(out) ==> {
                &&& ir.wf() ==> out.wf()
                &&& out.main@ == propagate_run(ir.main@).1
                &&& out.words@.len() == ir.words@.len()
                &&& forall|j: int| 0 <= j < ir.words@.len() ==> propagated_word(#[trigger] out.words@[j], ir.words@[j])
            },
            r matches Err(e) ==> e is InvalidStackEffect,
    {
        let main = match self.propagate_in_sequence(&ir.main) {
            Ok(v) => v,
            Err(e) => return Err(e),
        };
        let mut words: Vec<WordDef> = Vec::new();
        let mut k: usize = 0;
        while k < ir.words.len()
            invariant
                k <= ir.words@.len(),
                forall|j: int| 0 <= j < ir.words@.len() ==> propagate_fits(#[trigger] ir.words@[j].instructions@),
                forall|j: int| 0 <= j < k ==> effect_fits(propagate_run(#[trigger] ir.words@[j].instructions@).1),
                words@.len() == k,
                forall|j: int| 0 <= j < k ==> propagated_word(#[trigger] words@[j], ir.words@[j]),
            decreases ir.words@.len() - k,
        {
            let w = &ir.words[k];
            assert(propagate_fits(ir.words@[k as int].instructions@));
            let body = match self.propagate_in_sequence(&w.instructions) {
                Ok(v) => v,
                Err(e) => return Err(e),
            };
            match rebuild_word(w, body) {
                Ok(nw) => words.push(nw),
                Err(e) => {
                    assert(!effect_fits(propagate_run(ir.words@[k as int].instructions@).1));
                    return Err(e);
                },
            }
            k = k + 1;
        }
        proof {
            assert forall|x: int, y: int| ir.wf() && 0 <= x < words@.len() && 0 <= y < words@.len() && x != y
                implies words@[x].name@ != words@[y].name@ by {
                assert(propagated_word(words@[x], ir.words@[x]));
                assert(propagated_word(words@[y], ir.words@[y]));
            }
        }
        Ok(ForthIR { words, main })
    }
}

/// The word named `n` can reach itself through calls in `g` (false for a name
/// that is not in the graph).
pub open spec fn recursive_in(g: CallGraph, n: Seq<char>) -> bool {
    match last_named(g.nodes@, n, g.nodes@.len() as int) {
        Some(j) => reach_iter(g.edges@, callees(g.edges@, only(g.nodes@.len() as int, j)), g.nodes@.len() as nat)[j],
        None => false,
    }
}

/// The constant that word `w` could be specialized for: it is not recursive, it
/// costs at most 15, and every literal-then-call of it in `main` carries that constant.
pub open spec fn specialization_of(g: CallGraph, w: WordDef, main: Seq<Instruction>) -> Option<i64> {
    if recursive_in(g, w.name@) || w.cost > 15 { None } else { constant_pattern(main, w.name@) }
}

/// The specialization opportunities among the words `ws`, in order.
pub open spec fn opportunities(g: CallGraph, ws: Seq<WordDef>, main: Seq<Instruction>) -> Seq<(Seq<char>, i64)>
    decreases ws.len(),
{
    if ws.len() == 0 {
        Seq::empty()
    } else {
        opportunities(g, ws.drop_last(), main) + match specialization_of(g, ws.last(), main) {
            Some(c) => seq![(ws.last().name@, c)],
            None => Seq::<(Seq<char>, i64)>::empty(),
        }
    }
}

/// The names and constants of a list of pairs.
pub open spec fn pair_views(v: Seq<(String, i64)>) -> Seq<(Seq<char>, i64)> {
    v.map_values(|p: (String, i64)| (p.0@, p.1))
}

impl WholeProgramOptimizer {
    /// The words worth specializing and their constant: words that are not
    /// recursive, cost at most 15, and are always called from the top-level
    /// sequence right after the same literal.
    pub fn find_specialization_opportunities(&self, ir: &ForthIR, call_graph: &CallGraph) -> (r: Vec<(String, i64)>)
        ensures
            pair_views(r@) == opportunities(*call_graph, ir.words@, ir.main@),
    {
        let mut r: Vec<(String, i64)> = Vec::new();
        let mut k: usize = 0;
        while k < ir.words.len()
            invariant
                k <= ir.words@.len(),
                pair_views(r@) == opportunities(*call_graph, ir.words@.take(k as int), ir.main@),
            decreases ir.words@.len() - k,
        {
            let w = &ir.words[k];
            proof { assert(ir.words@.take(k + 1).drop_last() =~= ir.words@.take(k as int)); }
            let ghost before = r@;
            if !call_graph.is_recursive(w.name.as_str()) && w.cost <= 15 {
                match self.find_constant_pattern(&ir.main, w.name.as_str()) {
                    Some(c) => {
                        r.push((w.name.clone(), c));
                        assert(pair_views(r@) =~= pair_views(before) + seq![(w.name@, c)]);
                    },
                    None => {},
                }
            }
            k = k + 1;
        }
        assert(ir.words@.take(k as int) =~= ir.words@);
        r
    }
}

/// Word `w` is word `v` with the calls of `original` after `constant` replaced by
/// calls of `specialized`, its effect and cost recomputed.
pub open spec fn replaced_word(w: WordDef, v: WordDef, original: Seq<char>, specialized: Seq<char>, constant: i64) -> bool {
    &&& w.name == v.name
    &&& w.is_inline == v.is_inline
    &&& carries_out(w.instructions@, replace_plan(v.instructions@, original, constant), specialized)
    &&& w.stack_effect == seq_effect(w.instructions@)
    &&& w.cost == w.instructions@.len()
}

impl WholeProgramOptimizer {
    /// Replaces, in the top-level sequence and in every word, each
    /// `Literal(constant) Call(original_name)` pair by a call of the specialized
    /// word; fails with `InvalidStackEffect` where a word's new effect does not
    /// fit in `u8`.
    pub fn replace_calls_with_specialized(&self, ir: &ForthIR, original_name: &str, specialized_name: &str, constant: i64)
        -> (r: Result<ForthIR, OptimizerError>)
        ensures
            r matches Ok(out) ==> {
                &&& carries_out(out.main@, replace_plan(ir.main@, original_name@, constant), specialized_name@)
                &&& out.words@.len() == ir.words@.len()
                &&& forall|j: int| 0 <= j < ir.words@.len()
                    ==> replaced_word(#[trigger] out.words@[j], ir.words@[j], original_name@, specialized_name@, constant)
            },
            r matches Err(e) ==> e is InvalidStackEffect && exists|j: int, s: Seq<Instruction>| 0 <= j < ir.words@.len()
                && #[trigger] carries_out(s, replace_plan((#[trigger] ir.words@[j]).instructions@, original_name@, constant), specialized_name@)
                && !effect_fits(s),
    {
        let main = self.replace_in_sequence(&ir.main, original_name, specialized_name, constant);
        let mut words: Vec<WordDef> = Vec::new();
        let mut k: usize = 0;
        while k < ir.words.len()
            invariant
                k <= ir.words@.len(),
                words@.len() == k,
                forall|j: int| 0 <= j < k
                    ==> replaced_word(#[trigger] words@[j], ir.words@[j], original_name@, specialized_name@, constant),
            decreases ir.words@.len() - k,
        {
            let w = &ir.words[k];
            let body = self.replace_in_sequence(&w.instructions, original_name, specialized_name, constant);
            let ghost b = body@;
            match rebuild_word(w, body) {
                Ok(nw) => words.push(nw),
                Err(e) => {
                    assert(carries_out(b, replace_plan(ir.words@[k as int].instructions@, original_name@, constant), specialized_name@)
                        && !effect_fits(b));
                    return Err(e);
                },
            }
            k = k + 1;
        }
        Ok(ForthIR { words, main })
    }
}

/// `b` is a copy of `a`: the same top-level sequence and the same words.
pub open spec fn same_ir(a: ForthIR, b: ForthIR) -> bool {
    &&& b.main@ == a.main@
    &&& b.words@.len() == a.words@.len()
    &&& forall|j: int| 0 <= j < a.words@.len() ==> same_word(#[trigger] b.words@[j], a.words@[j])
}

/// The words `ws` with `w` added: in place of the word of the same name, or at the end.
pub open spec fn with_word(ws: Seq<WordDef>, w: WordDef) -> Seq<WordDef> {
    match word_index(ws, w.name@) {
        Some(k) => ws.update(k, w),
        None => ws.push(w),
    }
}

/// One specialization: when `cur` has a word named `name`, its version for `c`
/// is added, and the calls of `name` after `c` are replaced by calls of it
/// everywhere, the new word included; otherwise nothing changes.
pub open spec fn specialize_step(cur: ForthIR, name: Seq<char>, c: i64, next: ForthIR) -> bool {
    match word_index(cur.words@, name) {
        None => next == cur,
        Some(i) => exists|w: WordDef| {
            let body = seq![Instruction::Literal(c)] + cur.words@[i].instructions@;
            let sname = specialized_name(name, c);
            let mw = with_word(cur.words@, w);
            &&& #[trigger] w.name@ == sname
            &&& w.instructions@ == body
            &&& w.stack_effect == seq_effect(body)
            &&& w.cost == body.len()
            &&& w.is_inline == (cur.words@[i].cost < 10)
            &&& carries_out(next.main@, replace_plan(cur.main@, name, c), sname)
            &&& next.words@.len() == mw.len()
            &&& forall|j: int| 0 <= j < mw.len() ==> replaced_word(#[trigger] next.words@[j], mw[j], name, sname, c)
        },
    }
}

/// Specializing the word `name` of `cur` for `c` gives a word whose stack
/// effect does not fit in `u8`: the specialized word itself, or a word after
/// its calls are redirected.
pub open spec fn specialize_step_fails(cur: ForthIR, name: Seq<char>, c: i64) -> bool {
    match word_index(cur.words@, name) {
        None => false,
        Some(i) => {
            let body = seq![Instruction::Literal(c)] + cur.words@[i].instructions@;
            let sname = specialized_name(name, c);
            ||| !effect_fits(body)
            ||| exists|w: WordDef, j: int, t: Seq<Instruction>| w.name@ == sname && w.instructions@ == body
                && 0 <= j < with_word(cur.words@, w).len()
                && #[trigger] carries_out(t, replace_plan(with_word(cur.words@, w)[j].instructions@, name, c), sname)
                && !effect_fits(t)
        },
    }
}

/// `states` are the programs that the specializations `opps`, in order, go
/// through from a copy of `start`: each one is the step of the one before.
pub open spec fn specialize_chain(start: ForthIR, opps: Seq<(Seq<char>, i64)>, states: Seq<ForthIR>) -> bool {
    &&& states.len() == opps.len() + 1
    &&& same_ir(start, states[0])
    &&& forall|i: int| 0 <= i < opps.len() ==> specialize_step(#[trigger] states[i], opps[i].0, opps[i].1, states[i + 1])
}

/// `Literal(c)` followed by the instructions of `s`.
fn prefixed(c: i64, s: &[Instruction]) -> (r: Vec<Instruction>)
    ensures
        r@ == seq![Instruction::Literal(c)] + s@,
{
    let mut r: Vec<Instruction> = Vec::new();
    r.push(Instruction::Literal(c));
    let mut j: usize = 0;
    while j < s.len()
        invariant
            j <= s@.len(),
            r@ == seq![Instruction::Literal(c)] + s@.take(j as int),
        decreases s@.len() - j,
    {
        r.push(s[j].duplicate());
        assert(seq![Instruction::Literal(c)] + s@.take(j + 1)
            =~= (seq![Instruction::Literal(c)] + s@.take(j as int)).push(s@[j as int]));
        j = j + 1;
    }
    assert(s@.take(j as int) =~= s@);
    r
}

impl WholeProgramOptimizer {
    /// Specializes the words that are always called after the same constant:
    /// for each opportunity, in order, adds the word's version for the constant
    /// and redirects the calls after that constant to it. Fails with
    /// `InvalidStackEffect` where a new word's effect does not fit in `u8`.
    pub fn specialize_words(&self, ir: &ForthIR, call_graph: &CallGraph) -> (r: Result<ForthIR, OptimizerError>)
        requires
            ir.wf(),
        ensures
            r matches Ok(out) ==> out.wf() && exists|states: Seq<ForthIR>|
                #[trigger] specialize_chain(*ir, opportunities(*call_graph, ir.words@, ir.main@), states) && states.last() == out,
            r matches Err(e) ==> e is InvalidStackEffect && exists|k: int, states: Seq<ForthIR>|
                0 <= k < opportunities(*call_graph, ir.words@, ir.main@).len()
                && #[trigger] specialize_chain(*ir, opportunities(*call_graph, ir.words@, ir.main@).take(k), states)
                && specialize_step_fails(states.last(), opportunities(*call_graph, ir.words@, ir.main@)[k].0,
                    opportunities(*call_graph, ir.words@, ir.main@)[k].1),
    {
        let mut optimized = ir.duplicate();
        let specs = self.find_specialization_opportunities(ir, call_graph);
        let ghost opps = opportunities(*call_graph, ir.words@, ir.main@);
        proof {
            assert forall|i: int, j: int| 0 <= i < optimized.words@.len() && 0 <= j < optimized.words@.len() && i != j
                implies optimized.words@[i].name@ != optimized.words@[j].name@ by {
                assert(same_word(optimized.words@[i], ir.words@[i]));
                assert(same_word(optimized.words@[j], ir.words@[j]));
            }
        }
        let ghost mut states: Seq<ForthIR> = seq![optimized];
        let mut k: usize = 0;
        while k < specs.len()
            invariant
                k <= specs@.len(),
                pair_views(specs@) == opps,
                opps == opportunities(*call_graph, ir.words@, ir.main@),
                optimized.wf(),
                specialize_chain(*ir, opps.take(k as int), states),
                states.last() == optimized,
            decreases specs@.len() - k,
        {
            let name = &specs[k].0;
            let c = specs[k].1;
            let ghost cur = optimized;
            proof {
                assert(opps[k as int] == (name@, c));
                assert(opps.take(k + 1).drop_last() =~= opps.take(k as int));
                assert(opps.take(k + 1).last() == opps[k as int]);
            }
            match optimized.find_word(name) {
                None => {
                    assert(specialize_step(cur, name@, c, optimized));
                },
                Some(i) => {
                    let probe = prefixed(c, optimized.words[i].instructions.as_slice());
                    if checked_stack_effect(&probe).is_none() {
                        assert(specialize_step_fails(cur, name@, c));
                        assert(specialize_chain(*ir, opps.take(k as int), states));
                        return Err(OptimizerError::InvalidStackEffect(name.clone()));
                    }
                    let w = match self.create_specialized_word(&optimized.words[i], c) {
                        Ok(w) => w,
                        Err(e) => return Err(e),
                    };
                    let sname = w.name.clone();
                    let ghost wg = w;
                    optimized.add_word(w);
                    let ghost mw = optimized.words@;
                    assert(mw == with_word(cur.words@, wg));
                    let next = match self.replace_calls_with_specialized(&optimized, name.as_str(), sname.as_str(), c) {
                        Ok(n) => n,
                        Err(e) => {
                            proof {
                                let (j, t) = choose|j: int, t: Seq<Instruction>| 0 <= j < mw.len()
                                    && #[trigger] carries_out(t, replace_plan(mw[j].instructions@, name@, c), sname@)
                                    && !effect_fits(t);
                                assert(carries_out(t, replace_plan(with_word(cur.words@, wg)[j].instructions@, name@, c), specialized_name(name@, c)));
                                assert(specialize_step_fails(cur, name@, c));
                                assert(specialize_chain(*ir, opps.take(k as int), states));
                            }
                            return Err(e);
                        },
                    };
                    proof {
                        assert forall|x: int, y: int| 0 <= x < next.words@.len() && 0 <= y < next.words@.len() && x != y
                            implies next.words@[x].name@ != next.words@[y].name@ by {
                            assert(replaced_word(next.words@[x], mw[x], name@, sname@, c));
                            assert(replaced_word(next.words@[y], mw[y], name@, sname@, c));
                        }
                        assert(wg.name@ == specialized_name(name@, c));
                    }
                    optimized = next;
                    assert(specialize_step(cur, name@, c, optimized));
                },
            }
            proof {
                states = states.push(optimized);
                assert forall|x: int| 0 <= x < k + 1 implies
                    specialize_step(#[trigger] states[x], opps.take(k + 1)[x].0, opps.take(k + 1)[x].1, states[x + 1]) by {
                    if x < k {
                        assert(opps.take(k + 1)[x] == opps.take(k as int)[x]);
                    }
                }
            }
            k = k + 1;
        }
        proof {
            assert(opps.take(k as int) =~= opps);
            assert(specialize_chain(*ir, opps, states));
        }
        Ok(optimized)
    }
}

/// Word `w` is word `v` with every call of `name` replaced by `body`, its
/// effect and cost recomputed.
pub open spec fn inlined_word(w: WordDef, v: WordDef, name: Seq<char>, body: Seq<Instruction>) -> bool {
    &&& w.name == v.name
    &&& w.is_inline == v.is_inline
    &&& w.instructions@ == inline_calls(v.instructions@, name, body)
    &&& w.stack_effect == seq_effect(w.instructions@)
    &&& w.cost == w.instructions@.len()
}

/// `out` is the words `ws` other than the one named `name`, in order, each with
/// the calls of `name` replaced by `body`.
pub open spec fn inlined_others(ws: Seq<WordDef>, name: Seq<char>, body: Seq<Instruction>, out: Seq<WordDef>) -> bool {
    let kept = kept_positions(Seq::new(ws.len(), |j: int| ws[j].name@ != name), 0);
    &&& out.len() == kept.len()
    &&& forall|i: int| 0 <= i < kept.len() ==> inlined_word(#[trigger] out[i], ws[kept[i]], name, body)
}

/// One inlining: when the program `base` has a word named `name` that costs at
/// most `max_cost`, its calls in `cur` are replaced by its body (as `base` has
/// it) and the word is removed; otherwise nothing changes.
pub open spec fn inline_step(base: ForthIR, max_cost: usize, cur: ForthIR, name: Seq<char>, next: ForthIR) -> bool {
    match word_index(base.words@, name) {
        Some(i) => if base.words@[i].cost <= max_cost {
            &&& next.main@ == inline_calls(cur.main@, name, base.words@[i].instructions@)
            &&& inlined_others(cur.words@, name, base.words@[i].instructions@, next.words@)
        } else {
            next == cur
        },
        None => next == cur,
    }
}

/// `states` are the programs that inlining the words `names`, in order, goes
/// through from a copy of `start`.
pub open spec fn inline_chain(start: ForthIR, max_cost: usize, names: Seq<Seq<char>>, states: Seq<ForthIR>) -> bool {
    &&& states.len() == names.len() + 1
    &&& same_ir(start, states[0])
    &&& forall|i: int| 0 <= i < names.len() ==> inline_step(start, max_cost, #[trigger] states[i], names[i], states[i + 1])
}

impl WholeProgramOptimizer {
    /// The words of `ws` other than the one named `name`, each with the calls of
    /// `name` replaced by `body`.
    fn inline_into_others(&self, ws: &Vec<WordDef>, name: &String, body: &WordDef) -> (r: Result<Vec<WordDef>, OptimizerError>)
        ensures
            r matches Ok(out) ==> inlined_others(ws@, name@, body.instructions@, out@),
            r matches Err(e) ==> e is InvalidStackEffect && exists|j: int| 0 <= j < ws@.len() && ws@[j].name@ != name@
                && !effect_fits(inline_calls(#[trigger] ws@[j].instructions@, name@, body.instructions@)),
    {
        let ghost keep = Seq::new(ws@.len(), |j: int| ws@[j].name@ != name@);
        let mut words: Vec<WordDef> = Vec::new();
        let mut k: usize = 0;
        while k < ws.len()
            invariant
                k <= ws@.len(),
                keep == Seq::new(ws@.len(), |j: int| ws@[j].name@ != name@),
                words@.len() + kept_positions(keep, k as int).len() == kept_positions(keep, 0).len(),
                forall|i: int| 0 <= i < words@.len()
                    ==> inlined_word(#[trigger] words@[i], ws@[kept_positions(keep, 0)[i]], name@, body.instructions@),
                forall|i: int| words@.len() <= i < kept_positions(keep, 0).len() ==>
                    #[trigger] kept_positions(keep, 0)[i] == kept_positions(keep, k as int)[i - words@.len()],
            decreases ws@.len() - k,
        {
            let ghost rest = kept_positions(keep, k as int);
            assert(rest == (if keep[k as int] { seq![k as int] } else { Seq::<int>::empty() })
                + kept_positions(keep, k + 1));
            let ghost before = words@;
            let w = &ws[k];
            if !str_eq(w.name.as_str(), name.as_str()) {
                let instructions = self.inline_in_sequence(w.instructions.as_slice(), name.as_str(), body);
                let ghost iv = instructions@;
                match rebuild_word(w, instructions) {
                    Ok(nw) => words.push(nw),
                    Err(e) => {
                        assert(!effect_fits(inline_calls(ws@[k as int].instructions@, name@, body.instructions@)));
                        return Err(e);
                    },
                }
                assert(kept_positions(keep, 0)[before.len() as int] == rest[0]);
            }
            assert forall|i: int| words@.len() <= i < kept_positions(keep, 0).len() implies
                #[trigger] kept_positions(keep, 0)[i] == kept_positions(keep, k + 1)[i - words@.len()] by {
                assert(kept_positions(keep, 0)[i] == rest[i - before.len()]);
            }
            k = k + 1;
        }
        Ok(words)
    }
}

/// Inlining the word `name` of `base` into the words of `cur` gives some
/// word a stack effect that does not fit in `u8`.
pub open spec fn inline_step_fails(base: ForthIR, max_cost: usize, cur: ForthIR, name: Seq<char>) -> bool {
    match word_index(base.words@, name) {
        Some(i) => base.words@[i].cost <= max_cost && exists|j: int| 0 <= j < cur.words@.len()
            && cur.words@[j].name@ != name
            && !effect_fits(inline_calls(#[trigger] cur.words@[j].instructions@, name, base.words@[i].instructions@)),
        None => false,
    }
}

/// The names of the words that `g` finds called exactly once, in node order.
pub open spec fn single_call_names(g: CallGraph) -> Seq<Seq<char>> {
    names_where(g.nodes@, Seq::new(g.nodes@.len(), |k: int| k >= 1
        && g.nodes@[k].name@ != "__main__"@ && g.nodes@[k].call_count == 1), 0)
}

impl WholeProgramOptimizer {
    /// Inlines the words called exactly once: for each, in node order, when it
    /// costs at most the inlining budget, replaces its calls (in the top-level
    /// sequence and in the other words) by its body as the input has it, and
    /// removes it. Fails with `InvalidStackEffect` where a word's new effect
    /// does not fit in `u8`.
    pub fn inline_single_call_words(&self, ir: &ForthIR, call_graph: &CallGraph) -> (r: Result<ForthIR, OptimizerError>)
        requires
            ir.wf(),
        ensures
            r matches Ok(out) ==> out.wf() && exists|states: Seq<ForthIR>|
                #[trigger] inline_chain(*ir, self.max_inline_cost, single_call_names(*call_graph), states) && states.last() == out,
            r matches Err(e) ==> e is InvalidStackEffect && exists|k: int, states: Seq<ForthIR>|
                0 <= k < single_call_names(*call_graph).len()
                && #[trigger] inline_chain(*ir, self.max_inline_cost, single_call_names(*call_graph).take(k), states)
                && inline_step_fails(*ir, self.max_inline_cost, states.last(), single_call_names(*call_graph)[k]),
    {
        let singles = call_graph.find_single_call_words();
        let ghost names = single_call_names(*call_graph);
        let mut optimized = ir.duplicate();
        proof {
            assert forall|x: int, y: int| 0 <= x < optimized.words@.len() && 0 <= y < optimized.words@.len() && x != y
                implies optimized.words@[x].name@ != optimized.words@[y].name@ by {
                assert(same_word(optimized.words@[x], ir.words@[x]));
                assert(same_word(optimized.words@[y], ir.words@[y]));
            }
        }
        let ghost mut states: Seq<ForthIR> = seq![optimized];
        let mut k: usize = 0;
        while k < singles.len()
            invariant
                k <= singles@.len(),
                ir.wf(),
                string_views(singles@) == names,
                names == single_call_names(*call_graph),
                optimized.wf(),
                inline_chain(*ir, self.max_inline_cost, names.take(k as int), states),
                states.last() == optimized,
            decreases singles@.len() - k,
        {
            let name = &singles[k];
            let ghost cur = optimized;
            proof { assert(names[k as int] == name@); }
            match ir.get_word(name) {
                Some(word) => {
                    if word.cost <= self.max_inline_cost {
                        let main = self.inline_in_sequence(optimized.main.as_slice(), name.as_str(), word);
                        let words = match self.inline_into_others(&optimized.words, name, word) {
                            Ok(w) => w,
                            Err(e) => {
                                assert(inline_step_fails(*ir, self.max_inline_cost, states.last(), names[k as int]));
                                assert(inline_chain(*ir, self.max_inline_cost, single_call_names(*call_graph).take(k as int), states));
                                return Err(e);
                            },
                        };
                        proof {
                            let ws = optimized.words@;
                            let keep = Seq::new(ws.len(), |j: int| ws[j].name@ != name@);
                            assert forall|i: int| 0 <= i < words@.len() implies
                                (#[trigger] words@[i]).name@ == ws[kept_positions(keep, 0)[i]].name@ by {
                                assert(inlined_word(words@[i], ws[kept_positions(keep, 0)[i]], name@, word.instructions@));
                            }
                            lemma_kept_names_distinct(ws, keep, words@);
                        }
                        optimized = ForthIR { words, main };
                    }
                },
                None => {},
            }
            assert(inline_step(*ir, self.max_inline_cost, cur, names[k as int], optimized));
            proof {
                states = states.push(optimized);
                assert forall|x: int| 0 <= x < k + 1 implies
                    inline_step(*ir, self.max_inline_cost, #[trigger] states[x], names.take(k + 1)[x], states[x + 1]) by {
                    if x < k {
                        assert(names.take(k + 1)[x] == names.take(k as int)[x]);
                    }
                }
            }
            k = k + 1;
        }
        proof {
            assert(names.take(k as int) =~= names);
            assert(inline_chain(*ir, self.max_inline_cost, names, states));
        }
        Ok(optimized)
    }
}

/// `g` is the call graph that `CallGraph::build` makes of `ir`.
pub open spec fn built_graph(g: CallGraph, ir: ForthIR) -> bool {
    &&& g.nodes@.len() == ir.words@.len() + 1
    &&& g.nodes@[0].name@ == "__main__"@ && g.nodes@[0].is_entry_point
    &&& forall|j: int| 0 <= j < ir.words@.len() ==> (#[trigger] g.nodes@[j + 1]).name@ == ir.words@[j].name@
        && !g.nodes@[j + 1].is_entry_point
    &&& g.edges@ == graph_edges(ir.main@, ir.words@)
    &&& forall|j: int| 0 <= j < g.nodes@.len() ==> (#[trigger] g.nodes@[j]).call_count == node_count(g.edges@, j)
    &&& g.entry_points@ == seq![0usize]
}

/// `b` is `a` without the words that the top-level code of `a` never reaches.
pub open spec fn dead_words_removed(g: CallGraph, a: ForthIR, b: ForthIR) -> bool {
    let kept = kept_positions(Seq::new(a.words@.len(), |j: int| word_live(g, a.words@, j)), 0);
    &&& b.main@ == a.main@
    &&& b.words@.len() == kept.len()
    &&& forall|i: int| 0 <= i < kept.len() ==> same_word(#[trigger] b.words@[i], a.words@[kept[i]])
}

/// Constants can be propagated through every sequence of `a` without overflow.
pub open spec fn propagation_fits(a: ForthIR) -> bool {
    &&& propagate_fits(a.main@)
    &&& forall|j: int| 0 <= j < a.words@.len() ==> propagate_fits(#[trigger] a.words@[j].instructions@)
}

/// `b` is `a` with constants propagated through every sequence.
pub open spec fn constants_propagated(a: ForthIR, b: ForthIR) -> bool {
    &&& b.main@ == propagate_run(a.main@).1
    &&& b.words@.len() == a.words@.len()
    &&& forall|j: int| 0 <= j < a.words@.len() ==> propagated_word(#[trigger] b.words@[j], a.words@[j])
}

/// `a2` is what dead-word removal, then (where `o` inlines single calls) the
/// inlining of the words called once, make of `ir`, with `g` its call graph.
pub open spec fn wpo_front(o: WholeProgramOptimizer, ir: ForthIR, g: CallGraph, a2: ForthIR) -> bool {
    exists|a1: ForthIR| #[trigger] dead_words_removed(g, ir, a1) && if o.inline_single_calls {
        exists|states: Seq<ForthIR>| #[trigger] inline_chain(a1, o.max_inline_cost, single_call_names(g), states)
            && states.last() == a2
    } else {
        a2 == a1
    }
}

/// `out` is what the whole-program passes make of `ir` before the final
/// verification, through `a2` (after the front passes) and `a3` (after
/// constant propagation, from the standard level on): where `o` specializes,
/// word specialization follows.
pub open spec fn wpo_steps(o: WholeProgramOptimizer, ir: ForthIR, g: CallGraph, a2: ForthIR, a3: ForthIR, out: ForthIR) -> bool {
    &&& built_graph(g, ir)
    &&& wpo_front(o, ir, g, a2)
    &&& if level_rank(o.level) >= 2 { constants_propagated(a2, a3) } else { a3 == a2 }
    &&& if o.aggressive_specialization {
        exists|states: Seq<ForthIR>| #[trigger] specialize_chain(a3, opportunities(g, a3.words@, a3.main@), states)
            && states.last() == out
    } else {
        out == a3
    }
}

/// Some pass gives a word a stack effect that does not fit in `u8`: the
/// inlining of a word called once (where `o` inlines), constant propagation
/// (from the standard level on), or a specialization (where `o` specializes).
pub open spec fn wpo_overflow(o: WholeProgramOptimizer, ir: ForthIR, g: CallGraph) -> bool {
    ||| o.inline_single_calls && exists|a1: ForthIR, k: int, states: Seq<ForthIR>|
        #![trigger dead_words_removed(g, ir, a1), inline_chain(a1, o.max_inline_cost, single_call_names(g).take(k), states)]
        dead_words_removed(g, ir, a1) && 0 <= k < single_call_names(g).len()
        && inline_chain(a1, o.max_inline_cost, single_call_names(g).take(k), states)
        && inline_step_fails(a1, o.max_inline_cost, states.last(), single_call_names(g)[k])
    ||| level_rank(o.level) >= 2 && exists|a2: ForthIR, j: int| #![trigger wpo_front(o, ir, g, a2), a2.words@[j]]
        wpo_front(o, ir, g, a2) && 0 <= j < a2.words@.len() && !effect_fits(propagate_run(a2.words@[j].instructions@).1)
    ||| o.aggressive_specialization && exists|a2: ForthIR, a3: ForthIR, k: int, states: Seq<ForthIR>|
        #![trigger wpo_front(o, ir, g, a2), specialize_chain(a3, opportunities(g, a3.words@, a3.main@).take(k), states)]
        wpo_front(o, ir, g, a2)
        && (if level_rank(o.level) >= 2 { constants_propagated(a2, a3) } else { a3 == a2 })
        && 0 <= k < opportunities(g, a3.words@, a3.main@).len()
        && specialize_chain(a3, opportunities(g, a3.words@, a3.main@).take(k), states)
        && specialize_step_fails(states.last(), opportunities(g, a3.words@, a3.main@)[k].0,
            opportunities(g, a3.words@, a3.main@)[k].1)
}

impl WholeProgramOptimizer {
    /// Runs the whole-program passes: builds the call graph, removes the words
    /// that are never reached, inlines the words called once (where the
    /// settings say so), propagates constants (from the standard level on),
    /// specializes words for constant arguments (where the settings say so),
    /// and verifies the result. At the unoptimized level the program comes
    /// back as it is. It fails only where a pass would give a word a stack
    /// effect that does not fit in `u8`, or where the final verification fails.
    pub fn optimize(&self, ir: &ForthIR) -> (r: Result<ForthIR, OptimizerError>)
        requires
            ir.wf(),
            ir.words@.len() < usize::MAX,
            level_rank(self.level) >= 2 ==> forall|g: CallGraph, a2: ForthIR|
                built_graph(g, *ir) && #[trigger] wpo_front(*self, *ir, g, a2) ==> propagation_fits(a2),
        ensures
            self.level is Unoptimized ==> (r matches Ok(out) && same_ir(*ir, out)),
            !(self.level is Unoptimized) ==> (r matches Ok(out) ==> verify_outcome(out.main@, out.words@, Ok(()))
                && exists|g: CallGraph, a2: ForthIR, a3: ForthIR| #[trigger] wpo_steps(*self, *ir, g, a2, a3, out)),
            r matches Err(e) ==> (e is InvalidStackEffect && exists|g: CallGraph| built_graph(g, *ir) && #[trigger] wpo_overflow(*self, *ir, g))
                || exists|g: CallGraph, a2: ForthIR, a3: ForthIR, out: ForthIR|
                #[trigger] wpo_steps(*self, *ir, g, a2, a3, out) && verify_outcome(out.main@, out.words@, Err(e)),
            level_rank(self.level) < 2 && !self.inline_single_calls && !self.aggressive_specialization ==> (r matches Err(e) ==> exists|g: CallGraph, a2: ForthIR, a3: ForthIR, out: ForthIR|
                #[trigger] wpo_steps(*self, *ir, g, a2, a3, out) && verify_outcome(out.main@, out.words@, Err(e))),
    {
        if matches!(self.level, OptimizationLevel::Unoptimized) {
            return Ok(ir.duplicate());
        }
        let g = CallGraph::build(ir);
        assert(built_graph(g, *ir));
        let a1 = match self.eliminate_dead_words(ir, &g) {
            Ok(a) => a,
            Err(e) => return Err(e),
        };
        assert(dead_words_removed(g, *ir, a1));
        let a2 = if self.inline_single_calls {
            match self.inline_single_call_words(&a1, &g) {
                Ok(a) => a,
                Err(e) => {
                    proof {
                        let (k, states) = choose|k: int, states: Seq<ForthIR>| 0 <= k < single_call_names(g).len()
                            && #[trigger] inline_chain(a1, self.max_inline_cost, single_call_names(g).take(k), states)
                            && inline_step_fails(a1, self.max_inline_cost, states.last(), single_call_names(g)[k]);
                        assert(dead_words_removed(g, *ir, a1) && inline_chain(a1, self.max_inline_cost, single_call_names(g).take(k), states));
                        assert(wpo_overflow(*self, *ir, g));
                    }
                    return Err(e);
                },
            }
        } else {
            a1
        };
        assert(wpo_front(*self, *ir, g, a2));
        let standard = matches!(self.level, OptimizationLevel::Standard | OptimizationLevel::Aggressive);
        let a3 = if standard {
            assert(propagation_fits(a2));
            match self.apply_constant_propagation(&a2) {
                Ok(a) => a,
                Err(e) => {
                    proof {
                        let j = choose|j: int| 0 <= j < a2.words@.len()
                            && !effect_fits(propagate_run(#[trigger] a2.words@[j].instructions@).1);
                        assert(wpo_front(*self, *ir, g, a2) && a2.words@[j] == a2.words@[j]);
                        assert(wpo_overflow(*self, *ir, g));
                    }
                    return Err(e);
                },
            }
        } else {
            a2
        };
        assert(level_rank(self.level) >= 2 ==> constants_propagated(a2, a3));
        let a4 = if self.aggressive_specialization {
            match self.specialize_words(&a3, &g) {
                Ok(a) => a,
                Err(e) => {
                    proof {
                        let opps = opportunities(g, a3.words@, a3.main@);
                        let (k, states) = choose|k: int, states: Seq<ForthIR>| 0 <= k < opps.len()
                            && #[trigger] specialize_chain(a3, opps.take(k), states)
                            && specialize_step_fails(states.last(), opps[k].0, opps[k].1);
                        assert(level_rank(self.level) < 2 ==> a3 == a2);
                        assert(wpo_front(*self, *ir, g, a2) && specialize_chain(a3, opps.take(k), states));
                        assert(wpo_overflow(*self, *ir, g));
                    }
                    return Err(e);
                },
            }
        } else {
            a3
        };
        assert(if self.aggressive_specialization {
            exists|states: Seq<ForthIR>| #[trigger] specialize_chain(a3, opportunities(g, a3.words@, a3.main@), states)
                && states.last() == a4
        } else {
            a4 == a3
        });
        assert(level_rank(self.level) < 2 ==> a3 == a2);
        assert(wpo_steps(*self, *ir, g, a2, a3, a4));
        match a4.verify() {
            Ok(()) => Ok(a4),
            Err(e) => Err(e),
        }
    }
}

/// Number of unmarked flags in `t`.
pub open spec fn unmarked(t: Seq<bool>) -> nat
    decreases t.len(),
{
    if t.len() == 0 { 0 } else { unmarked(t.drop_last()) + if t.last() { 0nat } else { 1nat } }
}

proof fn lemma_unmarked_mark(t: Seq<bool>, i: int)
    requires
        0 <= i < t.len(),
        !t[i],
    ensures
        unmarked(t.update(i, true)) + 1 == unmarked(t),
    decreases t.len(),
{
    if i < t.len() - 1 {
        lemma_unmarked_mark(t.drop_last(), i);
        assert(t.update(i, true).drop_last() =~= t.drop_last().update(i, true));
    } else {
        assert(t.update(i, true).drop_last() =~= t.drop_last());
    }
}

/// The visited nodes are exactly those listed in `order`, each once.
pub open spec fn order_matches(visited: Seq<bool>, order: Seq<usize>) -> bool {
    &&& forall|m: int| 0 <= m < visited.len() ==> (#[trigger] visited[m] <==> order.contains(m as usize))
    &&& forall|i: int| 0 <= i < order.len() ==> (#[trigger] order[i]) < visited.len()
    &&& forall|i: int, j: int| 0 <= i < j < order.len() ==> #[trigger] order[i] != #[trigger] order[j]
}

/// Some edge goes from `u` to `v`.
pub open spec fn has_edge(es: Seq<(usize, usize, CallEdge)>, u: usize, v: usize) -> bool {
    exists|k: int| 0 <= k < es.len() && (#[trigger] es[k]).0 == u && es[k].1 == v
}

/// `xs` is a nonempty walk along edges.
pub open spec fn walk(es: Seq<(usize, usize, CallEdge)>, xs: Seq<usize>) -> bool {
    &&& xs.len() > 0
    &&& forall|i: int| 0 <= i < xs.len() - 1 ==> has_edge(es, #[trigger] xs[i], xs[i + 1])
}

/// `u` reaches `v` by zero or more calls.
pub open spec fn reaches(es: Seq<(usize, usize, CallEdge)>, u: usize, v: usize) -> bool {
    exists|xs: Seq<usize>| #[trigger] walk(es, xs) && xs[0] == u && xs.last() == v
}

/// In `order`, each node comes after the nodes (below `n`) that it calls,
/// except a callee that reaches it back (a call that closes a cycle).
pub open spec fn callees_first(es: Seq<(usize, usize, CallEdge)>, order: Seq<usize>, n: int) -> bool {
    forall|i: int, k: int| 0 <= i < order.len() && 0 <= k < es.len() && (#[trigger] es[k]).0 == #[trigger] order[i] && es[k].1 < n
        ==> order.take(i).contains(es[k].1) || reaches(es, es[k].1, order[i])
}

proof fn lemma_walk_suffix(es: Seq<(usize, usize, CallEdge)>, xs: Seq<usize>, i: int)
    requires
        walk(es, xs),
        0 <= i < xs.len(),
    ensures
        walk(es, xs.subrange(i, xs.len() as int)),
{
    let ys = xs.subrange(i, xs.len() as int);
    assert forall|j: int| 0 <= j < ys.len() - 1 implies has_edge(es, #[trigger] ys[j], ys[j + 1]) by {
        assert(ys[j] == xs[i + j] && ys[j + 1] == xs[i + j + 1]);
    }
}

/// Depth-first visit from `node`: visits its callees first, then lists
/// `node`; nodes already listed, or on the current path `path`, are skipped.
fn visit_postorder(edges: &Vec<(usize, usize, CallEdge)>, node: usize, visited: &mut Vec<bool>, temp: &mut Vec<bool>, order: &mut Vec<usize>,
    Ghost(path): Ghost<Seq<usize>>)
    requires
        node < old(visited)@.len(),
        old(visited)@.len() == old(temp)@.len(),
        order_matches(old(visited)@, old(order)@),
        forall|m: int| 0 <= m < old(temp)@.len() ==> (#[trigger] old(temp)@[m] <==> path.contains(m as usize)),
        path.len() > 0 ==> walk(edges@, path.push(node)),
        callees_first(edges@, old(order)@, old(visited)@.len() as int),
    ensures
        callees_first(edges@, final(order)@, old(visited)@.len() as int),
        final(visited)@.len() == old(visited)@.len(),
        final(temp)@ == old(temp)@,
        order_matches(final(visited)@, final(order)@),
        forall|m: int| 0 <= m < old(visited)@.len() && #[trigger] old(visited)@[m] ==> final(visited)@[m],
        forall|m: int| 0 <= m < old(visited)@.len() && old(temp)@[m] && !old(visited)@[m] ==> !(#[trigger] final(visited)@[m]),
        final(visited)@[node as int] || old(temp)@[node as int],
    decreases unmarked(old(temp)@),
{
    if visited[node] || temp[node] {
        return;
    }
    let n = visited.len();
    proof { lemma_unmarked_mark(temp@, node as int); }
    let ghost t0 = temp@;
    let ghost v0 = visited@;
    let ghost path2 = path.push(node);
    temp.set(node, true);
    proof {
        assert forall|m: int| 0 <= m < n implies (#[trigger] temp@[m] <==> path2.contains(m as usize)) by {
            if m == node as int {
                assert(path2[path.len() as int] == node);
            } else {
                if path2.contains(m as usize) {
                    let i = choose|i: int| 0 <= i < path2.len() && path2[i] == m as usize;
                    assert(path[i] == m as usize);
                }
                if path.contains(m as usize) {
                    let i = choose|i: int| 0 <= i < path.len() && path[i] == m as usize;
                    assert(path2[i] == m as usize);
                }
            }
        }
        if path.len() == 0 {
            assert(walk(edges@, path2));
        }
    }
    let mut k: usize = 0;
    while k < edges.len()
        invariant
            node < n,
            visited@.len() == n,
            temp@ == t0.update(node as int, true),
            t0.len() == n,
            t0 == old(temp)@,
            unmarked(temp@) < unmarked(t0),
            order_matches(visited@, order@),
            !visited@[node as int],
            forall|m: int| 0 <= m < n && #[trigger] v0[m] ==> visited@[m],
            forall|m: int| 0 <= m < n && temp@[m] && !v0[m] ==> !(#[trigger] visited@[m]),
            forall|m: int| 0 <= m < n ==> (#[trigger] temp@[m] <==> path2.contains(m as usize)),
            walk(edges@, path2),
            path2.last() == node,
            callees_first(edges@, order@, n as int),
            forall|j: int| 0 <= j < k && (#[trigger] edges@[j]).0 == node && edges@[j].1 < n
                ==> visited@[edges@[j].1 as int] || temp@[edges@[j].1 as int],
        decreases edges@.len() - k,
    {
        let (a, b, _) = edges[k];
        let ghost vb = visited@;
        if a == node && b < n {
            proof {
                assert(has_edge(edges@, node, b));
                let xs = path2.push(b);
                assert forall|i: int| 0 <= i < xs.len() - 1 implies has_edge(edges@, #[trigger] xs[i], xs[i + 1]) by {
                    if i < path2.len() - 1 {
                        assert(xs[i] == path2[i] && xs[i + 1] == path2[i + 1]);
                    }
                }
            }
            visit_postorder(edges, b, visited, temp, order, Ghost(path2));
        }
        assert forall|j: int| 0 <= j < k + 1 && (#[trigger] edges@[j]).0 == node && edges@[j].1 < n
            implies visited@[edges@[j].1 as int] || temp@[edges@[j].1 as int] by {
            if j < k {
                if vb[edges@[j].1 as int] {
                    assert(visited@[edges@[j].1 as int]);
                }
            }
        }
        k = k + 1;
    }
    let ghost tl = temp@;
    let ghost vl = visited@;
    temp.set(node, false);
    assert(temp@ =~= t0);
    let ghost o0 = order@;
    visited.set(node, true);
    order.push(node);
    proof {
        let es = edges@;
        assert forall|i: int, k: int| 0 <= i < order@.len() && 0 <= k < es.len() && (#[trigger] es[k]).0 == #[trigger] order@[i]
            && es[k].1 < n implies order@.take(i).contains(es[k].1) || reaches(es, es[k].1, order@[i]) by {
            if i < o0.len() {
                assert(order@[i] == o0[i]);
                assert(order@.take(i) =~= o0.take(i));
            } else {
                let v = es[k].1;
                assert(order@[i] == node);
                assert(order@.take(i) =~= o0);
                assert(vl[v as int] || tl[v as int]);
                if tl[v as int] {
                    assert(path2.contains(v));
                    let p = choose|p: int| 0 <= p < path2.len() && path2[p] == v;
                    lemma_walk_suffix(es, path2, p);
                    let ys = path2.subrange(p, path2.len() as int);
                    assert(ys[0] == v && ys.last() == node);
                } else {
                    assert(vl[v as int]);
                    assert(o0.contains(v));
                }
            }
        }
        assert forall|m: int| 0 <= m < n implies (#[trigger] visited@[m] <==> order@.contains(m as usize)) by {
            if m == node as int {
                assert(order@[order@.len() - 1] == node);
            } else {
                if order@.contains(m as usize) {
                    let i = choose|i: int| 0 <= i < order@.len() && order@[i] == m as usize;
                    assert(o0[i] == m as usize);
                }
                if visited@[m] {
                    assert(o0.contains(m as usize));
                    let i = choose|i: int| 0 <= i < o0.len() && o0[i] == m as usize;
                    assert(order@[i] == m as usize);
                }
            }
        }
        assert forall|i: int, j: int| 0 <= i < j < order@.len() implies #[trigger] order@[i] != #[trigger] order@[j] by {
            if j == order@.len() - 1 {
                if order@[i] == node {
                    assert(o0[i] == node);
                    assert(o0.contains(node));
                }
            }
        }
    }
}

/// The nodes below `n`, from `first` on, in depth-first post-order: a visit
/// from each node in turn lists each node after the nodes it calls, except a
/// callee that reaches it back.
pub(crate) fn postorder(edges: &Vec<(usize, usize, CallEdge)>, n: usize, first: usize) -> (order: Vec<usize>)
    ensures
        forall|i: int| 0 <= i < order@.len() ==> (#[trigger] order@[i]) < n,
        forall|i: int, j: int| 0 <= i < j < order@.len() ==> #[trigger] order@[i] != #[trigger] order@[j],
        forall|m: usize| first <= m < n ==> #[trigger] order@.contains(m),
        callees_first(edges@, order@, n as int),
{
    let mut visited: Vec<bool> = Vec::new();
    let mut temp: Vec<bool> = Vec::new();
    let mut j: usize = 0;
    while j < n
        invariant
            j <= n,
            visited@ == Seq::new(j as nat, |m: int| false),
            temp@ == Seq::new(j as nat, |m: int| false),
        decreases n - j,
    {
        visited.push(false);
        temp.push(false);
        j = j + 1;
        assert(visited@ =~= Seq::new(j as nat, |m: int| false));
        assert(temp@ =~= Seq::new(j as nat, |m: int| false));
    }
    let mut order: Vec<usize> = Vec::new();
    let mut w: usize = first;
    while w < n
        invariant
            first <= w <= n || n <= first,
            visited@.len() == n,
            temp@ == Seq::new(n as nat, |m: int| false),
            order_matches(visited@, order@),
            forall|m: int| first <= m < w ==> #[trigger] visited@[m],
            callees_first(edges@, order@, n as int),
        decreases n - w,
    {
        let ghost vb = visited@;
        proof {
            assert forall|m: int| 0 <= m < temp@.len() implies (#[trigger] temp@[m] <==> Seq::<usize>::empty().contains(m as usize)) by {}
        }
        visit_postorder(edges, w, &mut visited, &mut temp, &mut order, Ghost(Seq::empty()));
        assert forall|m: int| first <= m < w + 1 implies #[trigger] visited@[m] by {
            if m < w {
                assert(vb[m]);
            }
        }
        w = w + 1;
    }
    proof {
        assert forall|m: usize| first <= m < n implies #[trigger] order@.contains(m) by {
            assert(visited@[m as int]);
        }
    }
    order
}

impl CallGraph {
    /// The nodes bottom-up, for interprocedural analysis: a depth-first visit
    /// from each word, in node order, lists each node after the nodes it calls;
    /// only a call that closes a cycle (the callee reaches the caller back) can
    /// point to a node listed later.
    pub fn topological_order(&self) -> (r: Vec<String>)
        ensures
            exists|ord: Seq<usize>| #![trigger ord.len()] {
                &&& ord.len() == r@.len()
                &&& forall|i: int| 0 <= i < ord.len() ==> (#[trigger] ord[i]) < self.nodes@.len()
                    && r@[i]@ == self.nodes@[ord[i] as int].name@
                &&& forall|i: int, j: int| 0 <= i < j < ord.len() ==> #[trigger] ord[i] != #[trigger] ord[j]
                &&& forall|m: usize| 1 <= m < self.nodes@.len() ==> #[trigger] ord.contains(m)
                &&& callees_first(self.edges@, ord, self.nodes@.len() as int)
            },
    {
        let n = self.nodes.len();
        let order = postorder(&self.edges, n, 1);
        let mut r: Vec<String> = Vec::new();
        let mut i: usize = 0;
        while i < order.len()
            invariant
                i <= order@.len(),
                forall|x: int| 0 <= x < order@.len() ==> (#[trigger] order@[x]) < n,
                n == self.nodes@.len(),
                r@.len() == i,
                forall|x: int| 0 <= x < r@.len() ==> (#[trigger] r@[x])@ == self.nodes@[order@[x] as int].name@,
            decreases order@.len() - i,
        {
            r.push(self.nodes[order[i]].name.clone());
            i = i + 1;
        }
        let ghost ord = order@;
        proof {
            assert(ord.len() == r@.len());
        }
        r
    }
}

} // verus!
