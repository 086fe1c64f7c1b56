//! What an instruction means: its effect on a stack of 64-bit cells. The
//! passes that rewrite code are held to this meaning by the laws stated in
//! their own modules.
use vstd::prelude::*;
use crate::optimizer::ir::{Instruction, instr_effect};
use crate::optimizer::arith::{spec_wrapping_div, spec_wrapping_rem, spec_wrapping_neg, spec_wrapping_abs};

verus! {

/// A Forth truth value: all bits set for true, zero for false.
pub open spec fn truth(b: bool) -> i64 {
    if b { -1i64 } else { 0i64 }
}

/// The value of an operation on the second cell `a` and the top cell `b`,
/// or `None` for a division by zero or an instruction of another shape.
pub open spec fn binary_value(i: Instruction, a: i64, b: i64) -> Option<i64> {
    match i {
        Instruction::Add => Some(a.wrapping_add(b)),
        Instruction::Sub => Some(a.wrapping_sub(b)),
        Instruction::Mul => Some(a.wrapping_mul(b)),
        Instruction::Div => if b == 0 { None } else { Some(spec_wrapping_div(a, b)) },
        Instruction::Mod => if b == 0 { None } else { Some(spec_wrapping_rem(a, b)) },
        Instruction::And => Some(a & b),
        Instruction::Or => Some(a | b),
        Instruction::Xor => Some(a ^ b),
        Instruction::Shl => Some(a.wrapping_shl(b as u32)),
        Instruction::Shr => Some(a.wrapping_shr(b as u32)),
        Instruction::Eq => Some(truth(a == b)),
        Instruction::Ne => Some(truth(a != b)),
        Instruction::Lt => Some(truth(a < b)),
        Instruction::Le => Some(truth(a <= b)),
        Instruction::Gt => Some(truth(a > b)),
        Instruction::Ge => Some(truth(a >= b)),
        Instruction::SwapSub => Some(b.wrapping_sub(a)),
        _ => None,
    }
}

/// The value of an operation on the top cell `a`, or `None` for an
/// instruction of another shape.
pub open spec fn unary_value(i: Instruction, a: i64) -> Option<i64> {
    match i {
        Instruction::Neg => Some(spec_wrapping_neg(a)),
        Instruction::Abs => Some(spec_wrapping_abs(a)),
        Instruction::Not => Some(!a),
        Instruction::ZeroEq => Some(truth(a == 0)),
        Instruction::ZeroLt => Some(truth(a < 0)),
        Instruction::ZeroGt => Some(truth(a > 0)),
        Instruction::DupAdd => Some(a.wrapping_add(a)),
        Instruction::DupMul => Some(a.wrapping_mul(a)),
        Instruction::LiteralAdd(n) => Some(a.wrapping_add(n)),
        Instruction::LiteralMul(n) => Some(a.wrapping_mul(n)),
        Instruction::IncOne => Some(a.wrapping_add(1)),
        Instruction::DecOne => Some(a.wrapping_sub(1)),
        Instruction::MulTwo => Some(a.wrapping_shl(1)),
        Instruction::DivTwo => Some(a.wrapping_shr(1)),
        _ => None,
    }
}

/// The stack after one instruction, the top of the stack last; `None` where
/// the stack is too shallow, on a division by zero, and for an instruction
/// whose effect reaches beyond the data stack (memory, the return stack,
/// calls, control flow, channels), which this meaning leaves out.
pub open spec fn exec_instr(i: Instruction, st: Seq<i64>) -> Option<Seq<i64>> {
    let n = st.len();
    match i {
        Instruction::Literal(v) => Some(st.push(v)),
        Instruction::Dup | Instruction::CachedDup { .. } =>
            if n >= 1 { Some(st.push(st[n - 1])) } else { None },
        Instruction::Drop => if n >= 1 { Some(st.drop_last()) } else { None },
        Instruction::Swap | Instruction::CachedSwap { .. } =>
            if n >= 2 { Some(st.drop_last().drop_last().push(st[n - 1]).push(st[n - 2])) } else { None },
        Instruction::Over | Instruction::CachedOver { .. } =>
            if n >= 2 { Some(st.push(st[n - 2])) } else { None },
        Instruction::Rot =>
            if n >= 3 { Some(st.take(n - 3).push(st[n - 2]).push(st[n - 1]).push(st[n - 3])) } else { None },
        Instruction::Nip => if n >= 2 { Some(st.drop_last().drop_last().push(st[n - 1])) } else { None },
        Instruction::Tuck =>
            if n >= 2 { Some(st.drop_last().drop_last().push(st[n - 1]).push(st[n - 2]).push(st[n - 1])) } else { None },
        Instruction::OverAdd =>
            if n >= 2 { Some(st.drop_last().push(st[n - 2].wrapping_add(st[n - 1]))) } else { None },
        Instruction::Nop | Instruction::Comment(_) | Instruction::Label(_) | Instruction::FlushCache => Some(st),
        _ => if n >= 2 && binary_value(i, 0, 1) is Some {
            match binary_value(i, st[n - 2], st[n - 1]) {
                Some(v) => Some(st.drop_last().drop_last().push(v)),
                None => None,
            }
        } else if n >= 1 {
            match unary_value(i, st[n - 1]) {
                Some(v) => Some(st.drop_last().push(v)),
                None => None,
            }
        } else {
            None
        },
    }
}

/// The stack after running `prog` from `st`, or `None` where a step fails.
pub open spec fn run(prog: Seq<Instruction>, st: Seq<i64>) -> Option<Seq<i64>>
    decreases prog.len(),
{
    if prog.len() == 0 {
        Some(st)
    } else {
        match run(prog.drop_last(), st) {
            Some(s1) => exec_instr(prog.last(), s1),
            None => None,
        }
    }
}

/// Running one program after another runs the first, then the second on its result.
pub proof fn lemma_run_append(a: Seq<Instruction>, b: Seq<Instruction>, st: Seq<i64>)
    ensures
        run(a + b, st) == (match run(a, st) {
            Some(s1) => run(b, s1),
            None => None,
        }),
    decreases b.len(),
{
    if b.len() == 0 {
        assert(a + b =~= a);
    } else {
        lemma_run_append(a, b.drop_last(), st);
        assert((a + b).drop_last() =~= a + b.drop_last());
        assert((a + b).last() == b.last());
    }
}

/// The literals for `vs`, bottom first.
pub open spec fn literals(vs: Seq<i64>) -> Seq<Instruction> {
    vs.map_values(|v: i64| Instruction::Literal(v))
}

/// Running literals pushes their values.
pub proof fn lemma_run_literals(vs: Seq<i64>, st: Seq<i64>)
    ensures
        run(literals(vs), st) == Some(st + vs),
    decreases vs.len(),
{
    if vs.len() == 0 {
        assert(st + vs =~= st);
    } else {
        lemma_run_literals(vs.drop_last(), st);
        assert(literals(vs).drop_last() =~= literals(vs.drop_last()));
        assert(st + vs =~= (st + vs.drop_last()).push(vs.last()));
    }
}


/// Running a single instruction.
pub proof fn lemma_run_one(x: Instruction, st: Seq<i64>)
    ensures
        run(seq![x], st) == exec_instr(x, st),
{
    assert(seq![x].drop_last() =~= Seq::<Instruction>::empty());
    assert(run(Seq::<Instruction>::empty(), st) == Some(st));
}

/// Running two instructions.
pub proof fn lemma_run_two(x: Instruction, y: Instruction, st: Seq<i64>)
    ensures
        run(seq![x, y], st) == (match exec_instr(x, st) {
            Some(s1) => exec_instr(y, s1),
            None => None,
        }),
{
    assert(seq![x, y].drop_last() =~= seq![x]);
    lemma_run_one(x, st);
}


/// Running three instructions.
pub proof fn lemma_run_three(x: Instruction, y: Instruction, z: Instruction, st: Seq<i64>)
    ensures
        run(seq![x, y, z], st) == (match run(seq![x, y], st) {
            Some(s1) => exec_instr(z, s1),
            None => None,
        }),
{
    assert(seq![x, y, z].drop_last() =~= seq![x, y]);
}

/// Replacing a middle part by one of the same meaning keeps the meaning of
/// the whole.
pub proof fn lemma_run_replace(a: Seq<Instruction>, m1: Seq<Instruction>, m2: Seq<Instruction>, b: Seq<Instruction>, st: Seq<i64>)
    requires
        forall|t: Seq<i64>| run(m1, t) == run(m2, t),
    ensures
        run(a + m1 + b, st) == run(a + m2 + b, st),
{
    lemma_run_append(a + m1, b, st);
    lemma_run_append(a + m2, b, st);
    lemma_run_append(a, m1, st);
    lemma_run_append(a, m2, st);
    match run(a, st) {
        Some(t) => { assert(run(m1, t) == run(m2, t)); },
        None => {},
    }
}


/// Every instruction that runs takes and leaves as many cells as its stack
/// effect says.
pub proof fn law_effects_match_meaning(i: Instruction, st: Seq<i64>)
    ensures
        exec_instr(i, st) matches Some(r) ==> st.len() >= instr_effect(i).consumed
            && r.len() == st.len() - instr_effect(i).consumed + instr_effect(i).produced,
{
}

} // verus!
