//! Constant folding and propagation: evaluates constant expressions at compile
//! time by running the top-level sequence on an abstract stack of values that
//! are either known constants or unknown.
use vstd::prelude::*;
use crate::optimizer::ir::{ForthIR, Instruction, WordDef, instr_effect, instr_pure, copy_instructions, same_word};
use crate::optimizer::error::OptimizerError;
use crate::optimizer::semantics::{exec_instr, binary_value, unary_value, run, literals, lemma_run_append, lemma_run_literals};
use crate::optimizer::arith::{wrapping_div, wrapping_rem, wrapping_neg, wrapping_abs, spec_wrapping_div, spec_wrapping_rem, spec_wrapping_neg, spec_wrapping_abs};

verus! {

/// A value tracked through constant propagation.
#[derive(Debug, Clone, Copy, PartialEq, Eq, Structural)]
pub enum Value {
    Constant(i64),
    Unknown,
}

impl Value {
    /// The constant, if known.
    pub fn as_constant(&self) -> (r: Option<i64>)
        ensures
            r == (match *self {
                Value::Constant(v) => Some(v),
                Value::Unknown => None,
            }),
    {
        match self {
            Value::Constant(v) => Some(*v),
            Value::Unknown => None,
        }
    }
}

/// The stack of abstract values used while folding.
pub struct AbstractStack {
    pub stack: Vec<Value>,
}

/// Popping an abstract stack: its top, or `Unknown` when it is empty.
pub open spec fn spec_pop(s: Seq<Value>) -> (Seq<Value>, Value) {
    if s.len() == 0 { (s, Value::Unknown) } else { (s.drop_last(), s.last()) }
}

/// The value `depth` items below the top, or `Unknown` past the bottom.
pub open spec fn spec_peek(s: Seq<Value>, depth: int) -> Value {
    if 0 <= depth < s.len() { s[s.len() - 1 - depth] } else { Value::Unknown }
}

impl AbstractStack {
    pub fn new() -> (r: Self)
        ensures
            r.stack@.len() == 0,
    {
        AbstractStack { stack: Vec::new() }
    }

    pub fn push(&mut self, value: Value)
        ensures
            final(self).stack@ == old(self).stack@.push(value),
    {
        self.stack.push(value);
    }

    pub fn pop(&mut self) -> (r: Value)
        ensures
            (final(self).stack@, r) == spec_pop(old(self).stack@),
    {
        match self.stack.pop() {
            Some(v) => v,
            None => Value::Unknown,
        }
    }

    pub fn peek(&self, depth: usize) -> (r: Value)
        ensures
            r == spec_peek(self.stack@, depth as int),
    {
        if depth < self.stack.len() {
            self.stack[self.stack.len() - 1 - depth]
        } else {
            Value::Unknown
        }
    }

    pub fn depth(&self) -> (r: usize)
        ensures
            r == self.stack@.len(),
    {
        self.stack.len()
    }
}

/// The operations the folder evaluates on two constants.
#[derive(Debug, Clone, Copy, PartialEq, Eq, Structural)]
pub enum BinOp {
    Add, Sub, Mul, Div, Mod, And, Or, Xor, Shl, Shr, Eq, Ne, Lt, Le, Gt, Ge,
}

/// The operations the folder evaluates on one constant.
#[derive(Debug, Clone, Copy, PartialEq, Eq, Structural)]
pub enum UnOp {
    Neg, Abs, Not, ZeroEq, ZeroLt, ZeroGt, IncOne, DecOne, MulTwo, DivTwo,
}

/// A Forth flag: -1 for true, 0 for false.
pub open spec fn flag(b: bool) -> i64 {
    if b { -1i64 } else { 0i64 }
}

/// The value of a binary operation on constants (division by zero is never folded).
pub open spec fn eval_bin(op: BinOp, a: i64, b: i64) -> i64 {
    match op {
        BinOp::Add => a.wrapping_add(b),
        BinOp::Sub => a.wrapping_sub(b),
        BinOp::Mul => a.wrapping_mul(b),
        BinOp::Div => spec_wrapping_div(a, b),
        BinOp::Mod => spec_wrapping_rem(a, b),
        BinOp::And => a & b,
        BinOp::Or => a | b,
        BinOp::Xor => a ^ b,
        BinOp::Shl => a.wrapping_shl(b as u32),
        BinOp::Shr => a.wrapping_shr(b as u32),
        BinOp::Eq => flag(a == b),
        BinOp::Ne => flag(a != b),
        BinOp::Lt => flag(a < b),
        BinOp::Le => flag(a <= b),
        BinOp::Gt => flag(a > b),
        BinOp::Ge => flag(a >= b),
    }
}

/// The value of a unary operation on a constant.
pub open spec fn eval_un(op: UnOp, a: i64) -> i64 {
    match op {
        UnOp::Neg => spec_wrapping_neg(a),
        UnOp::Abs => spec_wrapping_abs(a),
        UnOp::Not => !a,
        UnOp::ZeroEq => flag(a == 0),
        UnOp::ZeroLt => flag(a < 0),
        UnOp::ZeroGt => flag(a > 0),
        UnOp::IncOne => a.wrapping_add(1),
        UnOp::DecOne => a.wrapping_sub(1),
        UnOp::MulTwo => a.wrapping_shl(1),
        UnOp::DivTwo => a.wrapping_shr(1),
    }
}

/// Evaluates a binary operation on constants.
pub fn eval_binary(op: BinOp, a: i64, b: i64) -> (r: i64)
    requires
        (op == BinOp::Div || op == BinOp::Mod) ==> b != 0,
    ensures
        r == eval_bin(op, a, b),
{
    match op {
        BinOp::Add => a.wrapping_add(b),
        BinOp::Sub => a.wrapping_sub(b),
        BinOp::Mul => a.wrapping_mul(b),
        BinOp::Div => wrapping_div(a, b),
        BinOp::Mod => wrapping_rem(a, b),
        BinOp::And => a & b,
        BinOp::Or => a | b,
        BinOp::Xor => a ^ b,
        BinOp::Shl => a.wrapping_shl(b as u32),
        BinOp::Shr => a.wrapping_shr(b as u32),
        BinOp::Eq => if a == b { -1 } else { 0 },
        BinOp::Ne => if a != b { -1 } else { 0 },
        BinOp::Lt => if a < b { -1 } else { 0 },
        BinOp::Le => if a <= b { -1 } else { 0 },
        BinOp::Gt => if a > b { -1 } else { 0 },
        BinOp::Ge => if a >= b { -1 } else { 0 },
    }
}

/// Evaluates a unary operation on a constant.
pub fn eval_unary(op: UnOp, a: i64) -> (r: i64)
    ensures
        r == eval_un(op, a),
{
    match op {
        UnOp::Neg => wrapping_neg(a),
        UnOp::Abs => wrapping_abs(a),
        UnOp::Not => !a,
        UnOp::ZeroEq => if a == 0 { -1 } else { 0 },
        UnOp::ZeroLt => if a < 0 { -1 } else { 0 },
        UnOp::ZeroGt => if a > 0 { -1 } else { 0 },
        UnOp::IncOne => a.wrapping_add(1),
        UnOp::DecOne => a.wrapping_sub(1),
        UnOp::MulTwo => a.wrapping_shl(1),
        UnOp::DivTwo => a.wrapping_shr(1),
    }
}

/// Every value of `s` as unknown (after its constants have been emitted).
pub open spec fn all_unknown(s: Seq<Value>) -> Seq<Value> {
    Seq::new(s.len(), |k: int| Value::Unknown)
}

/// An instruction that cannot be folded: the pending constants are emitted as
/// literals, then the instruction; the abstract stack takes its effect (a
/// side-effecting instruction leaves nothing known).
pub open spec fn generic_step(s: Seq<Value>, inst: Instruction) -> (Seq<Value>, Seq<Instruction>) {
    let code = materialize(s).push(inst);
    if !instr_pure(inst) {
        (Seq::empty(), code)
    } else {
        (push_unknown_n(pop_n(all_unknown(s), instr_effect(inst).consumed as nat), instr_effect(inst).produced as nat), code)
    }
}

/// Folding a binary operation: both operands constant gives a constant and no
/// code; otherwise the pending constants and the operation are emitted.
pub open spec fn bin_step(s: Seq<Value>, op: BinOp, fallback: Instruction) -> (Seq<Value>, Seq<Instruction>) {
    let (s1, b) = spec_pop(s);
    let (s2, a) = spec_pop(s1);
    match (a, b) {
        (Value::Constant(av), Value::Constant(bv)) => (s2.push(Value::Constant(eval_bin(op, av, bv))), Seq::empty()),
        _ => generic_step(s, fallback),
    }
}

/// Folding a unary operation.
pub open spec fn un_step(s: Seq<Value>, op: UnOp, fallback: Instruction) -> (Seq<Value>, Seq<Instruction>) {
    let (s1, a) = spec_pop(s);
    match a {
        Value::Constant(av) => (s1.push(Value::Constant(eval_un(op, av))), Seq::empty()),
        _ => generic_step(s, fallback),
    }
}

/// Division or remainder: a constant zero divisor is left for run time.
pub open spec fn div_step(s: Seq<Value>, op: BinOp, fallback: Instruction) -> (Seq<Value>, Seq<Instruction>) {
    if spec_peek(s, 0) == Value::Constant(0) {
        generic_step(s, fallback)
    } else {
        bin_step(s, op, fallback)
    }
}

/// Pops `n` values.
pub open spec fn pop_n(s: Seq<Value>, n: nat) -> Seq<Value>
    decreases n,
{
    if n == 0 { s } else { pop_n(spec_pop(s).0, (n - 1) as nat) }
}

/// Pushes `n` unknown values.
pub open spec fn push_unknown_n(s: Seq<Value>, n: nat) -> Seq<Value>
    decreases n,
{
    if n == 0 { s } else { push_unknown_n(s, (n - 1) as nat).push(Value::Unknown) }
}

/// One step of the folder: the abstract stack after `inst` and the code it emits.
pub open spec fn fold_step(inst: Instruction, s: Seq<Value>) -> (Seq<Value>, Seq<Instruction>) {
    match inst {
        Instruction::Literal(v) => (s.push(Value::Constant(v)), Seq::empty()),
        Instruction::Add => bin_step(s, BinOp::Add, inst),
        Instruction::Sub => bin_step(s, BinOp::Sub, inst),
        Instruction::Mul => bin_step(s, BinOp::Mul, inst),
        Instruction::Div => div_step(s, BinOp::Div, inst),
        Instruction::Mod => div_step(s, BinOp::Mod, inst),
        Instruction::And => bin_step(s, BinOp::And, inst),
        Instruction::Or => bin_step(s, BinOp::Or, inst),
        Instruction::Xor => bin_step(s, BinOp::Xor, inst),
        Instruction::Shl => bin_step(s, BinOp::Shl, inst),
        Instruction::Shr => bin_step(s, BinOp::Shr, inst),
        Instruction::Neg => un_step(s, UnOp::Neg, inst),
        Instruction::Abs => un_step(s, UnOp::Abs, inst),
        Instruction::Not => un_step(s, UnOp::Not, inst),
        Instruction::Eq => bin_step(s, BinOp::Eq, inst),
        Instruction::Ne => bin_step(s, BinOp::Ne, inst),
        Instruction::Lt => bin_step(s, BinOp::Lt, inst),
        Instruction::Le => bin_step(s, BinOp::Le, inst),
        Instruction::Gt => bin_step(s, BinOp::Gt, inst),
        Instruction::Ge => bin_step(s, BinOp::Ge, inst),
        Instruction::ZeroEq => un_step(s, UnOp::ZeroEq, inst),
        Instruction::ZeroLt => un_step(s, UnOp::ZeroLt, inst),
        Instruction::ZeroGt => un_step(s, UnOp::ZeroGt, inst),
        Instruction::Dup => match spec_peek(s, 0) {
            Value::Constant(v) => (s.push(Value::Constant(v)), Seq::empty()),
            Value::Unknown => generic_step(s, inst),
        },
        Instruction::Drop => if spec_peek(s, 0) is Constant {
            (spec_pop(s).0, Seq::empty())
        } else {
            generic_step(s, inst)
        },
        Instruction::Swap => if spec_peek(s, 0) is Constant && spec_peek(s, 1) is Constant {
            (s.drop_last().drop_last().push(s.last()).push(s[s.len() - 2]), Seq::empty())
        } else {
            generic_step(s, inst)
        },
        Instruction::Over => if spec_peek(s, 0) is Constant && spec_peek(s, 1) is Constant {
            (s.push(spec_peek(s, 1)), Seq::empty())
        } else {
            generic_step(s, inst)
        },
        Instruction::DupAdd => match spec_peek(s, 0) {
            Value::Constant(v) => (spec_pop(s).0.push(Value::Constant(v.wrapping_add(v))), Seq::empty()),
            Value::Unknown => generic_step(s, inst),
        },
        Instruction::DupMul => match spec_peek(s, 0) {
            Value::Constant(v) => (spec_pop(s).0.push(Value::Constant(v.wrapping_mul(v))), Seq::empty()),
            Value::Unknown => generic_step(s, inst),
        },
        Instruction::IncOne => un_step(s, UnOp::IncOne, inst),
        Instruction::DecOne => un_step(s, UnOp::DecOne, inst),
        Instruction::MulTwo => un_step(s, UnOp::MulTwo, inst),
        Instruction::DivTwo => un_step(s, UnOp::DivTwo, inst),
        _ => generic_step(s, inst),
    }
}

/// Running the folder over `insts` from stack `s`: the final stack and the code emitted.
pub open spec fn fold_run(insts: Seq<Instruction>, s: Seq<Value>) -> (Seq<Value>, Seq<Instruction>)
    decreases insts.len(),
{
    if insts.len() == 0 {
        (s, Seq::empty())
    } else {
        let (s1, out1) = fold_run(insts.drop_last(), s);
        let (s2, out2) = fold_step(insts.last(), s1);
        (s2, out1 + out2)
    }
}

/// The literals for the constants left on the abstract stack, bottom first.
pub open spec fn materialize(s: Seq<Value>) -> Seq<Instruction>
    decreases s.len(),
{
    if s.len() == 0 {
        Seq::empty()
    } else {
        materialize(s.drop_last()) + match s.last() {
            Value::Constant(v) => seq![Instruction::Literal(v)],
            Value::Unknown => Seq::empty(),
        }
    }
}

/// The folded form of a sequence: the code emitted while folding, then the
/// remaining constants as literals.
pub open spec fn spec_fold_sequence(insts: Seq<Instruction>) -> Seq<Instruction> {
    fold_run(insts, Seq::empty()).1 + materialize(fold_run(insts, Seq::empty()).0)
}

/// Constant folding optimizer.
pub struct ConstantFolder {
    /// Enable aggressive algebraic simplifications.
    pub aggressive: bool,
}

impl ConstantFolder {
    pub fn new() -> (r: Self)
        ensures
            r.aggressive,
    {
        ConstantFolder { aggressive: true }
    }

    /// Folds constants in the top-level sequence; word definitions work with
    /// their caller's stack and are left as they are.
    pub fn fold(&self, ir: &ForthIR) -> (r: Result<ForthIR, OptimizerError>)
        ensures
            r matches Ok(out) && out.main@ == spec_fold_sequence(ir.main@)
                && out.words@.len() == ir.words@.len()
                && forall|i: int| 0 <= i < ir.words@.len() ==> same_word(#[trigger] out.words@[i], ir.words@[i]),
    {
        let mut optimized = ir.duplicate();
        optimized.main = self.fold_sequence(&ir.main);
        Ok(optimized)
    }

    /// Folds constants in one instruction sequence.
    pub fn fold_sequence(&self, instructions: &[Instruction]) -> (r: Vec<Instruction>)
        ensures
            r@ == spec_fold_sequence(instructions@),
    {
        let mut result: Vec<Instruction> = Vec::new();
        let mut stack = AbstractStack::new();
        let mut i: usize = 0;
        while i < instructions.len()
            invariant
                i <= instructions.len(),
                (stack.stack@, result@) == fold_run(instructions@.take(i as int), Seq::empty()),
            decreases instructions.len() - i,
        {
            assert(instructions@.take(i + 1).drop_last() =~= instructions@.take(i as int));
            let out = self.fold_instruction(&instructions[i], &mut stack);
            let mut j: usize = 0;
            let ghost before = result@;
            while j < out.len()
                invariant
                    j <= out.len(),
                    result@ == before + out@.take(j as int),
                decreases out.len() - j,
            {
                result.push(out[j].duplicate());
                assert(before + out@.take(j + 1) =~= (before + out@.take(j as int)).push(out@[j as int]));
                j = j + 1;
            }
            assert(out@.take(out.len() as int) =~= out@);
            i = i + 1;
        }
        assert(instructions@.take(instructions.len() as int) =~= instructions@);
        let ghost emitted = result@;
        let mut k: usize = 0;
        while k < stack.stack.len()
            invariant
                k <= stack.stack.len(),
                result@ == emitted + materialize(stack.stack@.take(k as int)),
            decreases stack.stack.len() - k,
        {
            assert(stack.stack@.take(k + 1).drop_last() =~= stack.stack@.take(k as int));
            match stack.stack[k].as_constant() {
                Some(v) => {
                    result.push(Instruction::Literal(v));
                    assert(emitted + materialize(stack.stack@.take(k + 1))
                        =~= (emitted + materialize(stack.stack@.take(k as int))).push(Instruction::Literal(v)));
                }
                None => {
                    assert(materialize(stack.stack@.take(k + 1)) =~= materialize(stack.stack@.take(k as int)));
                }
            }
            k = k + 1;
        }
        assert(stack.stack@.take(stack.stack.len() as int) =~= stack.stack@);
        result
    }

    /// Emits the pending constants and then `inst`, and applies its effect.
    fn emit_generic(&self, stack: &mut AbstractStack, inst: Instruction) -> (r: Vec<Instruction>)
        ensures
            (final(stack).stack@, r@) == generic_step(old(stack).stack@, inst),
    {
        let ghost s0 = stack.stack@;
        let mut out: Vec<Instruction> = Vec::new();
        let mut k: usize = 0;
        assert(s0.take(0) =~= Seq::<Value>::empty());
        while k < stack.stack.len()
            invariant
                k <= stack.stack@.len(),
                stack.stack@.len() == s0.len(),
                out@ == materialize(s0.take(k as int)),
                forall|j: int| 0 <= j < k ==> stack.stack@[j] == Value::Unknown,
                forall|j: int| k <= j < s0.len() ==> stack.stack@[j] == s0[j],
            decreases stack.stack@.len() - k,
        {
            assert(s0.take(k + 1).drop_last() =~= s0.take(k as int));
            match stack.stack[k].as_constant() {
                Some(v) => {
                    out.push(Instruction::Literal(v));
                }
                None => {}
            }
            stack.stack.set(k, Value::Unknown);
            k = k + 1;
        }
        assert(s0.take(s0.len() as int) =~= s0);
        assert(stack.stack@ =~= all_unknown(s0));
        if !inst.is_pure() {
            stack.stack.clear();
        } else {
            let effect = inst.stack_effect();
            let ghost u = stack.stack@;
            let mut c: u8 = 0;
            while c < effect.consumed
                invariant
                    c <= effect.consumed,
                    stack.stack@ == pop_n(u, c as nat),
                decreases effect.consumed - c,
            {
                proof { lemma_pop_n_succ(u, c as nat); }
                stack.pop();
                c = c + 1;
            }
            let ghost popped = stack.stack@;
            let mut p: u8 = 0;
            while p < effect.produced
                invariant
                    p <= effect.produced,
                    stack.stack@ == push_unknown_n(popped, p as nat),
                decreases effect.produced - p,
            {
                stack.push(Value::Unknown);
                p = p + 1;
            }
        }
        out.push(inst);
        out
    }

    fn fold_binary_op(&self, stack: &mut AbstractStack, op: BinOp, fallback: Instruction) -> (r: Vec<Instruction>)
        requires
            op != BinOp::Div && op != BinOp::Mod,
        ensures
            (final(stack).stack@, r@) == bin_step(old(stack).stack@, op, fallback),
    {
        let b = stack.peek(0);
        let a = stack.peek(1);
        match (a, b) {
            (Value::Constant(av), Value::Constant(bv)) => {
                stack.pop();
                stack.pop();
                let v = eval_binary(op, av, bv);
                stack.push(Value::Constant(v));
                Vec::new()
            }
            _ => self.emit_generic(stack, fallback),
        }
    }

    fn fold_division(&self, stack: &mut AbstractStack, op: BinOp, fallback: Instruction) -> (r: Vec<Instruction>)
        requires
            op == BinOp::Div || op == BinOp::Mod,
        ensures
            (final(stack).stack@, r@) == div_step(old(stack).stack@, op, fallback),
    {
        if stack.peek(0) == Value::Constant(0) {
            self.emit_generic(stack, fallback)
        } else {
            let b = stack.peek(0);
            let a = stack.peek(1);
            match (a, b) {
                (Value::Constant(av), Value::Constant(bv)) => {
                    stack.pop();
                    stack.pop();
                    let v = eval_binary(op, av, bv);
                    stack.push(Value::Constant(v));
                    Vec::new()
                }
                _ => self.emit_generic(stack, fallback),
            }
        }
    }

    fn fold_unary_op(&self, stack: &mut AbstractStack, op: UnOp, fallback: Instruction) -> (r: Vec<Instruction>)
        ensures
            (final(stack).stack@, r@) == un_step(old(stack).stack@, op, fallback),
    {
        match stack.peek(0) {
            Value::Constant(av) => {
                stack.pop();
                let v = eval_unary(op, av);
                stack.push(Value::Constant(v));
                Vec::new()
            }
            _ => self.emit_generic(stack, fallback),
        }
    }

    /// Folds one instruction against the abstract stack, returning the code to emit.
    fn fold_instruction(&self, inst: &Instruction, stack: &mut AbstractStack) -> (r: Vec<Instruction>)
        ensures
            (final(stack).stack@, r@) == fold_step(*inst, old(stack).stack@),
    {
        match inst {
            Instruction::Literal(v) => {
                stack.push(Value::Constant(*v));
                Vec::new()
            }
            Instruction::Add => self.fold_binary_op(stack, BinOp::Add, Instruction::Add),
            Instruction::Sub => self.fold_binary_op(stack, BinOp::Sub, Instruction::Sub),
            Instruction::Mul => self.fold_binary_op(stack, BinOp::Mul, Instruction::Mul),
            Instruction::Div => self.fold_division(stack, BinOp::Div, Instruction::Div),
            Instruction::Mod => self.fold_division(stack, BinOp::Mod, Instruction::Mod),
            Instruction::And => self.fold_binary_op(stack, BinOp::And, Instruction::And),
            Instruction::Or => self.fold_binary_op(stack, BinOp::Or, Instruction::Or),
            Instruction::Xor => self.fold_binary_op(stack, BinOp::Xor, Instruction::Xor),
            Instruction::Shl => self.fold_binary_op(stack, BinOp::Shl, Instruction::Shl),
            Instruction::Shr => self.fold_binary_op(stack, BinOp::Shr, Instruction::Shr),
            Instruction::Neg => self.fold_unary_op(stack, UnOp::Neg, Instruction::Neg),
            Instruction::Abs => self.fold_unary_op(stack, UnOp::Abs, Instruction::Abs),
            Instruction::Not => self.fold_unary_op(stack, UnOp::Not, Instruction::Not),
            Instruction::Eq => self.fold_binary_op(stack, BinOp::Eq, Instruction::Eq),
            Instruction::Ne => self.fold_binary_op(stack, BinOp::Ne, Instruction::Ne),
            Instruction::Lt => self.fold_binary_op(stack, BinOp::Lt, Instruction::Lt),
            Instruction::Le => self.fold_binary_op(stack, BinOp::Le, Instruction::Le),
            Instruction::Gt => self.fold_binary_op(stack, BinOp::Gt, Instruction::Gt),
            Instruction::Ge => self.fold_binary_op(stack, BinOp::Ge, Instruction::Ge),
            Instruction::ZeroEq => self.fold_unary_op(stack, UnOp::ZeroEq, Instruction::ZeroEq),
            Instruction::ZeroLt => self.fold_unary_op(stack, UnOp::ZeroLt, Instruction::ZeroLt),
            Instruction::ZeroGt => self.fold_unary_op(stack, UnOp::ZeroGt, Instruction::ZeroGt),
            Instruction::Dup => {
                match stack.peek(0) {
                    Value::Constant(v) => {
                        stack.push(Value::Constant(v));
                        Vec::new()
                    }
                    Value::Unknown => self.emit_generic(stack, Instruction::Dup),
                }
            }
            Instruction::Drop => {
                if stack.peek(0).as_constant().is_some() {
                    stack.pop();
                    Vec::new()
                } else {
                    self.emit_generic(stack, Instruction::Drop)
                }
            }
            Instruction::Swap => {
                if stack.peek(0).as_constant().is_some() && stack.peek(1).as_constant().is_some() {
                    let ghost s0 = stack.stack@;
                    let a = stack.pop();
                    let b = stack.pop();
                    stack.push(a);
                    stack.push(b);
                    assert(s0.drop_last().drop_last().push(s0.last()).push(s0[s0.len() - 2]) =~= stack.stack@);
                    Vec::new()
                } else {
                    self.emit_generic(stack, Instruction::Swap)
                }
            }
            Instruction::Over => {
                if stack.peek(0).as_constant().is_some() && stack.peek(1).as_constant().is_some() {
                    let second = stack.peek(1);
                    stack.push(second);
                    Vec::new()
                } else {
                    self.emit_generic(stack, Instruction::Over)
                }
            }
            Instruction::DupAdd => {
                match stack.peek(0) {
                    Value::Constant(v) => {
                        stack.pop();
                        stack.push(Value::Constant(v.wrapping_add(v)));
                        Vec::new()
                    }
                    Value::Unknown => self.emit_generic(stack, Instruction::DupAdd),
                }
            }
            Instruction::DupMul => {
                match stack.peek(0) {
                    Value::Constant(v) => {
                        stack.pop();
                        stack.push(Value::Constant(v.wrapping_mul(v)));
                        Vec::new()
                    }
                    Value::Unknown => self.emit_generic(stack, Instruction::DupMul),
                }
            }
            Instruction::IncOne => self.fold_unary_op(stack, UnOp::IncOne, Instruction::IncOne),
            Instruction::DecOne => self.fold_unary_op(stack, UnOp::DecOne, Instruction::DecOne),
            Instruction::MulTwo => self.fold_unary_op(stack, UnOp::MulTwo, Instruction::MulTwo),
            Instruction::DivTwo => self.fold_unary_op(stack, UnOp::DivTwo, Instruction::DivTwo),
            _ => self.emit_generic(stack, inst.duplicate()),
        }
    }
}

proof fn lemma_pop_n_succ(s: Seq<Value>, n: nat)
    ensures
        pop_n(s, n + 1) == spec_pop(pop_n(s, n)).0,
    decreases n,
{
    reveal_with_fuel(pop_n, 2);
    if n > 0 {
        lemma_pop_n_succ(spec_pop(s).0, (n - 1) as nat);
    }
}

impl ConstantFolder {
    /// Word definitions work with their caller's stack, so folding leaves a
    /// word as it is: this is a copy of it.
    pub fn fold_word(&self, word: &WordDef) -> (r: Result<WordDef, OptimizerError>)
        ensures
            r matches Ok(w) && same_word(w, *word),
    {
        Ok(word.duplicate())
    }
}

impl Default for ConstantFolder {
    fn default() -> (r: Self)
        ensures
            r.aggressive,
    {
        ConstantFolder::new()
    }
}

/// An abstract stack of `n` unknown values under the constants `cs`.
pub open spec fn abstract_of(n: nat, cs: Seq<i64>) -> Seq<Value> {
    Seq::new(n, |k: int| Value::Unknown) + cs.map_values(|v: i64| Value::Constant(v))
}

proof fn lemma_abstract_shape(n: nat, cs: Seq<i64>)
    ensures
        abstract_of(n, cs).len() == n + cs.len(),
        forall|k: int| 0 <= k < n ==> #[trigger] abstract_of(n, cs)[k] == Value::Unknown,
        forall|k: int| 0 <= k < cs.len() ==> #[trigger] abstract_of(n, cs)[n + k] == Value::Constant(cs[k]),
        cs.len() > 0 ==> abstract_of(n, cs).last() == Value::Constant(cs.last())
            && abstract_of(n, cs).drop_last() == abstract_of(n, cs.drop_last()),
        cs.len() == 0 && n > 0 ==> abstract_of(n, cs).last() == Value::Unknown
            && abstract_of(n, cs).drop_last() == abstract_of((n - 1) as nat, cs),
{
    let s = abstract_of(n, cs);
    assert forall|k: int| 0 <= k < cs.len() implies #[trigger] s[n + k] == Value::Constant(cs[k]) by {}
    if cs.len() > 0 {
        assert(s.drop_last() =~= abstract_of(n, cs.drop_last()));
    } else if n > 0 {
        assert(s.drop_last() =~= abstract_of((n - 1) as nat, cs));
    }
}

proof fn lemma_abstract_push(n: nat, cs: Seq<i64>, v: i64)
    ensures
        abstract_of(n, cs).push(Value::Constant(v)) == abstract_of(n, cs.push(v)),
{
    assert(abstract_of(n, cs).push(Value::Constant(v)) =~= abstract_of(n, cs.push(v)));
}

/// The literals emitted for an abstract stack are those of its constants.
proof fn lemma_materialize_abstract(n: nat, cs: Seq<i64>)
    ensures
        materialize(abstract_of(n, cs)) == literals(cs),
    decreases cs.len(), n,
{
    lemma_abstract_shape(n, cs);
    if cs.len() > 0 {
        lemma_materialize_abstract(n, cs.drop_last());
        assert(literals(cs) =~= literals(cs.drop_last()) + seq![Instruction::Literal(cs.last())]);
    } else if n > 0 {
        lemma_materialize_abstract((n - 1) as nat, cs);
        assert(literals(cs) =~= literals(cs) + Seq::<Instruction>::empty());
    } else {
        assert(abstract_of(n, cs) =~= Seq::<Value>::empty());
        assert(literals(cs) =~= Seq::<Instruction>::empty());
    }
}

proof fn lemma_unknowns_pop(m: nat, c: nat)
    ensures
        pop_n(abstract_of(m, Seq::empty()), c) == abstract_of(if m >= c { (m - c) as nat } else { 0 }, Seq::empty()),
    decreases c,
{
    if c > 0 {
        let s = abstract_of(m, Seq::empty());
        let m1: nat = if m > 0 { (m - 1) as nat } else { 0 };
        assert(spec_pop(s).0 =~= abstract_of(m1, Seq::empty()));
        lemma_unknowns_pop(m1, (c - 1) as nat);
    }
}

proof fn lemma_unknowns_push(m: nat, p: nat)
    ensures
        push_unknown_n(abstract_of(m, Seq::empty()), p) == abstract_of(m + p, Seq::empty()),
    decreases p,
{
    if p > 0 {
        lemma_unknowns_push(m, (p - 1) as nat);
        assert(abstract_of((m + p - 1) as nat, Seq::empty()).push(Value::Unknown) =~= abstract_of(m + p, Seq::empty()));
    }
}

/// An instruction that is not folded emits the literals of the constants and
/// itself, and leaves only unknown values.
proof fn lemma_generic_meaning(n: nat, cs: Seq<i64>, inst: Instruction) -> (m: nat)
    ensures
        generic_step(abstract_of(n, cs), inst) == (abstract_of(m, Seq::empty()), literals(cs).push(inst)),
{
    let s = abstract_of(n, cs);
    lemma_abstract_shape(n, cs);
    lemma_materialize_abstract(n, cs);
    assert(all_unknown(s) =~= abstract_of(s.len(), Seq::empty()));
    if !instr_pure(inst) {
        assert(abstract_of(0, Seq::empty()) =~= Seq::<Value>::empty());
        0
    } else {
        let c = instr_effect(inst).consumed as nat;
        let p = instr_effect(inst).produced as nat;
        lemma_unknowns_pop(s.len(), c);
        let m1: nat = if s.len() >= c { (s.len() - c) as nat } else { 0 };
        lemma_unknowns_push(m1, p);
        m1 + p
    }
}


/// One step of the folder against the meaning of instructions: a folded step
/// computes on the constants what the instruction computes on the stack they
/// stand on; an emitted step is the literals of the constants and the
/// instruction itself.
proof fn lemma_fold_step_meaning(inst: Instruction, n: nat, cs: Seq<i64>) -> (r: (nat, Seq<i64>))
    ensures
        fold_step(inst, abstract_of(n, cs)).0 == abstract_of(r.0, r.1),
        fold_step(inst, abstract_of(n, cs)).1.len() == 0 ==> forall|base: Seq<i64>|
            #[trigger] exec_instr(inst, base + cs) == Some(base + r.1),
        fold_step(inst, abstract_of(n, cs)).1.len() != 0 ==> fold_step(inst, abstract_of(n, cs)).1 == literals(cs).push(inst)
            && r.1.len() == 0,
{
    let s = abstract_of(n, cs);
    let l = cs.len();
    lemma_abstract_shape(n, cs);
    let m = lemma_generic_meaning(n, cs, inst);
    let gen: (nat, Seq<i64>) = (m, Seq::empty());
    if l >= 1 {
        lemma_abstract_shape(n, cs.drop_last());
    }
    if l >= 2 {
        lemma_abstract_shape(n, cs.drop_last().drop_last());
    }
    match inst {
        Instruction::Literal(v) => {
            lemma_abstract_push(n, cs, v);
            assert forall|base: Seq<i64>| #[trigger] exec_instr(inst, base + cs) == Some(base + cs.push(v)) by {
                assert((base + cs).push(v) =~= base + cs.push(v));
            }
            (n, cs.push(v))
        },
        Instruction::Add | Instruction::Sub | Instruction::Mul | Instruction::Div | Instruction::Mod
        | Instruction::And | Instruction::Or | Instruction::Xor | Instruction::Shl | Instruction::Shr
        | Instruction::Eq | Instruction::Ne | Instruction::Lt | Instruction::Le | Instruction::Gt
        | Instruction::Ge => {
            if fold_step(inst, s).1.len() == 0 {
                assert(l >= 2);
                let a = cs[l - 2];
                let b = cs[l - 1];
                let x = binary_value(inst, a, b)->0;
                let cs2 = cs.drop_last().drop_last().push(x);
                lemma_abstract_push(n, cs.drop_last().drop_last(), x);
                assert(fold_step(inst, s).0 == abstract_of(n, cs2));
                assert forall|base: Seq<i64>| #[trigger] exec_instr(inst, base + cs) == Some(base + cs2) by {
                    let st = base + cs;
                    assert(st[st.len() - 2] == a);
                    assert(st[st.len() - 1] == b);
                    assert(st.drop_last().drop_last().push(x) =~= base + cs2);
                }
                (n, cs2)
            } else {
                gen
            }
        },
        Instruction::Neg | Instruction::Abs | Instruction::Not | Instruction::ZeroEq | Instruction::ZeroLt
        | Instruction::ZeroGt | Instruction::IncOne | Instruction::DecOne | Instruction::MulTwo
        | Instruction::DivTwo | Instruction::DupAdd | Instruction::DupMul => {
            if fold_step(inst, s).1.len() == 0 {
                assert(l >= 1);
                let a = cs[l - 1];
                let x = unary_value(inst, a)->0;
                let cs2 = cs.drop_last().push(x);
                lemma_abstract_push(n, cs.drop_last(), x);
                assert(fold_step(inst, s).0 == abstract_of(n, cs2));
                assert forall|base: Seq<i64>| #[trigger] exec_instr(inst, base + cs) == Some(base + cs2) by {
                    let st = base + cs;
                    assert(st[st.len() - 1] == a);
                    assert(st.drop_last().push(x) =~= base + cs2);
                }
                (n, cs2)
            } else {
                gen
            }
        },
        Instruction::Dup => {
            if l >= 1 {
                let cs2 = cs.push(cs[l - 1]);
                lemma_abstract_push(n, cs, cs[l - 1]);
                assert forall|base: Seq<i64>| #[trigger] exec_instr(inst, base + cs) == Some(base + cs2) by {
                    let st = base + cs;
                    assert(st[st.len() - 1] == cs[l - 1]);
                    assert(st.push(cs[l - 1]) =~= base + cs2);
                }
                (n, cs2)
            } else {
                gen
            }
        },
        Instruction::Drop => {
            if l >= 1 {
                assert forall|base: Seq<i64>| #[trigger] exec_instr(inst, base + cs) == Some(base + cs.drop_last()) by {
                    assert((base + cs).drop_last() =~= base + cs.drop_last());
                }
                (n, cs.drop_last())
            } else {
                gen
            }
        },
        Instruction::Swap => {
            if l >= 2 {
                let cs2 = cs.drop_last().drop_last().push(cs[l - 1]).push(cs[l - 2]);
                lemma_abstract_push(n, cs.drop_last().drop_last(), cs[l - 1]);
                lemma_abstract_push(n, cs.drop_last().drop_last().push(cs[l - 1]), cs[l - 2]);
                assert(s[s.len() - 2] == Value::Constant(cs[l - 2]));
                assert(fold_step(inst, s).0 == abstract_of(n, cs2));
                assert forall|base: Seq<i64>| #[trigger] exec_instr(inst, base + cs) == Some(base + cs2) by {
                    let st = base + cs;
                    assert(st[st.len() - 1] == cs[l - 1]);
                    assert(st[st.len() - 2] == cs[l - 2]);
                    assert(st.drop_last().drop_last().push(cs[l - 1]).push(cs[l - 2]) =~= base + cs2);
                }
                (n, cs2)
            } else {
                gen
            }
        },
        Instruction::Over => {
            if l >= 2 {
                let cs2 = cs.push(cs[l - 2]);
                lemma_abstract_push(n, cs, cs[l - 2]);
                assert(s[s.len() - 2] == Value::Constant(cs[l - 2]));
                assert forall|base: Seq<i64>| #[trigger] exec_instr(inst, base + cs) == Some(base + cs2) by {
                    let st = base + cs;
                    assert(st[st.len() - 2] == cs[l - 2]);
                    assert(st.push(cs[l - 2]) =~= base + cs2);
                }
                (n, cs2)
            } else {
                gen
            }
        },
        _ => gen,
    }
}

/// The folder run over a sequence, against the meaning of instructions: the
/// abstract stack is unknown values under constants, and the unrewritten sequence leaves
/// what the emitted code leaves with those constants pushed on it.
proof fn lemma_fold_run_meaning(insts: Seq<Instruction>, base: Seq<i64>) -> (r: (nat, Seq<i64>))
    ensures
        fold_run(insts, Seq::empty()).0 == abstract_of(r.0, r.1),
        run(insts, base) == (match run(fold_run(insts, Seq::empty()).1, base) {
            Some(t) => Some(t + r.1),
            None => None,
        }),
    decreases insts.len(),
{
    if insts.len() == 0 {
        assert(abstract_of(0, Seq::empty()) =~= Seq::<Value>::empty());
        assert(base + Seq::<i64>::empty() =~= base);
        (0, Seq::empty())
    } else {
        let (n, cs) = lemma_fold_run_meaning(insts.drop_last(), base);
        let out1 = fold_run(insts.drop_last(), Seq::empty()).1;
        let inst = insts.last();
        let r2 = lemma_fold_step_meaning(inst, n, cs);
        let out2 = fold_step(inst, abstract_of(n, cs)).1;
        assert(fold_run(insts, Seq::empty()).1 == out1 + out2);
        lemma_run_append(out1, out2, base);
        if out2.len() == 0 {
            assert(out1 + out2 =~= out1);
        } else {
            match run(out1, base) {
                Some(t) => {
                    lemma_run_literals(cs, t);
                    assert(literals(cs).push(inst).drop_last() =~= literals(cs));
                    assert(exec_instr(inst, t + cs) == run(out2, t));
                    match exec_instr(inst, t + cs) {
                        Some(u) => { assert(u + r2.1 =~= u); },
                        None => {},
                    }
                },
                None => {},
            }
        }
        r2
    }
}

/// Constant folding keeps the meaning of a sequence: from any starting stack,
/// the folded sequence leaves the stack that the unrewritten sequence leaves, and fails
/// exactly where the unrewritten sequence fails.
pub proof fn law_folding_keeps_meaning(insts: Seq<Instruction>, base: Seq<i64>)
    ensures
        run(spec_fold_sequence(insts), base) == run(insts, base),
{
    let (n, cs) = lemma_fold_run_meaning(insts, base);
    let code = fold_run(insts, Seq::empty()).1;
    lemma_materialize_abstract(n, cs);
    lemma_run_append(code, literals(cs), base);
    match run(code, base) {
        Some(t) => { lemma_run_literals(cs, t); },
        None => {},
    }
}

} // verus!
