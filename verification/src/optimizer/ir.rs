//! Intermediate representation of Forth code used by every optimization pass.
use vstd::prelude::*;
use crate::text::{chars_of, eq_lit, parse_i64, spec_parse_i64, is_whitespace, spec_is_whitespace, string_from_chars, push_str};
use crate::optimizer::error::{OptimizerError, optimizer_error_message, error_text};

verus! {

/// Stack effect notation `( before -- after )`: how many items an operation
/// takes from the stack and how many it leaves.
#[derive(Debug, Clone, Copy, PartialEq, Eq, Hash, Structural)]
pub struct StackEffect {
    /// Number of items consumed from the stack.
    pub consumed: u8,
    /// Number of items produced onto the stack.
    pub produced: u8,
}

/// `a - b` when it is positive, else 0.
pub open spec fn sat_sub(a: int, b: int) -> int {
    if a > b { a - b } else { 0 }
}

/// Composition of `( c1 -- p1 )` followed by `( c2 -- p2 )` over the integers.
pub open spec fn compose_counts(c1: int, p1: int, c2: int, p2: int) -> (int, int) {
    (c1 + sat_sub(c2, p1), sat_sub(p1, c2) + p2)
}

/// Whether the composition of two effects is still representable in `u8`.
pub open spec fn composable(a: StackEffect, b: StackEffect) -> bool {
    let r = compose_counts(a.consumed as int, a.produced as int, b.consumed as int, b.produced as int);
    r.0 <= 255 && r.1 <= 255
}

/// The effect of running `a` and then `b`.
pub open spec fn spec_compose(a: StackEffect, b: StackEffect) -> StackEffect {
    let r = compose_counts(a.consumed as int, a.produced as int, b.consumed as int, b.produced as int);
    StackEffect { consumed: r.0 as u8, produced: r.1 as u8 }
}

impl StackEffect {
    pub fn new(consumed: u8, produced: u8) -> (r: Self)
        ensures
            r.consumed == consumed,
            r.produced == produced,
    {
        Self { consumed, produced }
    }

    /// Net stack change (negative shrinks the stack, positive grows it).
    /// The text this effect displays: `(consumed -- produced)`.
    pub fn display_text(&self) -> (r: String)
        ensures
            r@ == "("@ + crate::text::decimal_text(self.consumed as int) + " -- "@
                + crate::text::decimal_text(self.produced as int) + ")"@,
    {
        let mut r = String::new();
        crate::text::push_str(&mut r, "(");
        let c = crate::text::usize_text(self.consumed as usize);
        crate::text::push_str(&mut r, c.as_str());
        crate::text::push_str(&mut r, " -- ");
        let p = crate::text::usize_text(self.produced as usize);
        crate::text::push_str(&mut r, p.as_str());
        crate::text::push_str(&mut r, ")");
        r
    }

    pub fn net_change(&self) -> (r: i32)
        ensures
            r == self.produced as int - self.consumed as int,
    {
        self.produced as i32 - self.consumed as i32
    }

    /// The effect of running `self` and then `other`.
    pub fn compose(&self, other: &StackEffect) -> (r: Self)
        requires
            composable(*self, *other),
        ensures
            r == spec_compose(*self, *other),
    {
        let c2 = if other.consumed > self.produced { other.consumed - self.produced } else { 0 };
        let p1 = if self.produced > other.consumed { self.produced - other.consumed } else { 0 };
        Self { consumed: self.consumed + c2, produced: p1 + other.produced }
    }
}

/// `( 0 -- 0 )` is a neutral element of composition.
pub proof fn law_compose_identity(a: StackEffect)
    ensures
        composable(StackEffect { consumed: 0, produced: 0 }, a),
        composable(a, StackEffect { consumed: 0, produced: 0 }),
        spec_compose(StackEffect { consumed: 0, produced: 0 }, a) == a,
        spec_compose(a, StackEffect { consumed: 0, produced: 0 }) == a,
{
}

/// Composition is associative wherever the intermediate results are representable.
pub proof fn law_compose_associative(a: StackEffect, b: StackEffect, c: StackEffect)
    requires
        composable(a, b),
        composable(spec_compose(a, b), c),
        composable(b, c),
        composable(a, spec_compose(b, c)),
    ensures
        spec_compose(spec_compose(a, b), c) == spec_compose(a, spec_compose(b, c)),
{
}

/// The net change of a composition is the sum of the net changes.
pub proof fn law_compose_net_change(a: StackEffect, b: StackEffect)
    requires
        composable(a, b),
    ensures
        spec_compose(a, b).produced - spec_compose(a, b).consumed
            == (a.produced - a.consumed) + (b.produced - b.consumed),
{
}

/// A Forth instruction in IR form.
#[derive(Debug, Clone, PartialEq)]
pub enum Instruction {
    // Literals
    Literal(i64),
    /// A floating-point literal, held as its IEEE-754 bit pattern.
    FloatLiteral(u64),
    // Stack operations
    Dup,
    Drop,
    Swap,
    Over,
    Rot,
    Nip,
    Tuck,
    Pick(u8),
    Roll(u8),
    // Arithmetic
    Add,
    Sub,
    Mul,
    Div,
    Mod,
    Neg,
    Abs,
    // Bitwise
    And,
    Or,
    Xor,
    Not,
    Shl,
    Shr,
    // Comparison
    Eq,
    Ne,
    Lt,
    Le,
    Gt,
    Ge,
    ZeroEq,
    ZeroLt,
    ZeroGt,
    // Control flow
    Call(String),
    Return,
    Branch(usize),
    BranchIf(usize),
    BranchIfNot(usize),
    // Memory operations
    Load,
    Store,
    Load8,
    Store8,
    // Return stack
    ToR,
    FromR,
    RFetch,
    // Superinstructions (fused operations)
    DupAdd,
    DupMul,
    OverAdd,
    SwapSub,
    LiteralAdd(i64),
    LiteralMul(i64),
    IncOne,
    DecOne,
    MulTwo,
    DivTwo,
    // Stack caching hints
    CachedDup { depth: u8 },
    CachedSwap { depth: u8 },
    CachedOver { depth: u8 },
    FlushCache,
    // Concurrency primitives
    Spawn,
    Join,
    Channel(i64),
    Send,
    Recv,
    CloseChannel,
    DestroyChannel,
    // Metadata
    Comment(String),
    Label(String),
    Nop,
}

/// `( c -- p )` as a value.
pub open spec fn eff(c: u8, p: u8) -> StackEffect {
    StackEffect { consumed: c, produced: p }
}

/// The stack effect of one instruction.
pub open spec fn instr_effect(i: Instruction) -> StackEffect {
    match i {
        Instruction::Literal(_) | Instruction::FloatLiteral(_) => eff(0, 1),
        Instruction::Dup => eff(1, 2),
        Instruction::Drop => eff(1, 0),
        Instruction::Swap => eff(2, 2),
        Instruction::Rot => eff(3, 3),
        Instruction::Nip => eff(2, 1),
        Instruction::Over | Instruction::Tuck => eff(2, 3),
        Instruction::Pick(_) => eff(1, 1),
        Instruction::Roll(_) => eff(1, 0),
        Instruction::Add | Instruction::Sub | Instruction::Mul | Instruction::Div | Instruction::Mod => eff(2, 1),
        Instruction::And | Instruction::Or | Instruction::Xor => eff(2, 1),
        Instruction::Eq | Instruction::Ne | Instruction::Lt | Instruction::Le | Instruction::Gt | Instruction::Ge => eff(2, 1),
        Instruction::Shl | Instruction::Shr => eff(2, 1),
        Instruction::Neg | Instruction::Abs | Instruction::Not => eff(1, 1),
        Instruction::ZeroEq | Instruction::ZeroLt | Instruction::ZeroGt => eff(1, 1),
        Instruction::Load | Instruction::Load8 => eff(1, 1),
        Instruction::Store | Instruction::Store8 => eff(2, 0),
        Instruction::ToR => eff(1, 0),
        Instruction::FromR | Instruction::RFetch => eff(0, 1),
        Instruction::DupAdd | Instruction::DupMul => eff(1, 1),
        Instruction::OverAdd => eff(2, 2),
        Instruction::SwapSub => eff(2, 1),
        Instruction::LiteralAdd(_) | Instruction::LiteralMul(_) => eff(1, 1),
        Instruction::IncOne | Instruction::DecOne | Instruction::MulTwo | Instruction::DivTwo => eff(1, 1),
        Instruction::CachedDup { .. } => eff(1, 2),
        Instruction::CachedSwap { .. } => eff(2, 2),
        Instruction::CachedOver { .. } => eff(2, 3),
        Instruction::FlushCache => eff(0, 0),
        Instruction::Return | Instruction::Branch(_) | Instruction::BranchIf(_) | Instruction::BranchIfNot(_) => eff(0, 0),
        Instruction::Call(_) => eff(0, 0),
        Instruction::Spawn => eff(1, 1),
        Instruction::Join => eff(1, 0),
        Instruction::Channel(_) => eff(0, 1),
        Instruction::Send => eff(2, 0),
        Instruction::Recv => eff(1, 1),
        Instruction::CloseChannel | Instruction::DestroyChannel => eff(1, 0),
        Instruction::Comment(_) | Instruction::Label(_) | Instruction::Nop => eff(0, 0),
    }
}

/// Whether an instruction has no side effect.
pub open spec fn instr_pure(i: Instruction) -> bool {
    !(i is Store || i is Store8 || i is ToR || i is Call || i is Return || i is Branch
        || i is BranchIf || i is BranchIfNot || i is FlushCache || i is Spawn || i is Join
        || i is Channel || i is Send || i is Recv || i is CloseChannel || i is DestroyChannel)
}

/// No instruction consumes or produces more than three items.
pub proof fn lemma_effect_small(i: Instruction)
    ensures
        instr_effect(i).consumed <= 3,
        instr_effect(i).produced <= 3,
{
}

impl Instruction {
    /// The stack effect of this instruction.
    pub fn stack_effect(&self) -> (r: StackEffect)
        ensures
            r == instr_effect(*self),
    {
        match self {
            Instruction::Literal(_) | Instruction::FloatLiteral(_) => StackEffect::new(0, 1),
            Instruction::Dup => StackEffect::new(1, 2),
            Instruction::Drop => StackEffect::new(1, 0),
            Instruction::Swap => StackEffect::new(2, 2),
            Instruction::Rot => StackEffect::new(3, 3),
            Instruction::Nip => StackEffect::new(2, 1),
            Instruction::Over | Instruction::Tuck => StackEffect::new(2, 3),
            Instruction::Pick(_) => StackEffect::new(1, 1),
            Instruction::Roll(_) => StackEffect::new(1, 0),
            Instruction::Add | Instruction::Sub | Instruction::Mul | Instruction::Div | Instruction::Mod => StackEffect::new(2, 1),
            Instruction::And | Instruction::Or | Instruction::Xor => StackEffect::new(2, 1),
            Instruction::Eq | Instruction::Ne | Instruction::Lt | Instruction::Le | Instruction::Gt | Instruction::Ge => StackEffect::new(2, 1),
            Instruction::Shl | Instruction::Shr => StackEffect::new(2, 1),
            Instruction::Neg | Instruction::Abs | Instruction::Not => StackEffect::new(1, 1),
            Instruction::ZeroEq | Instruction::ZeroLt | Instruction::ZeroGt => StackEffect::new(1, 1),
            Instruction::Load | Instruction::Load8 => StackEffect::new(1, 1),
            Instruction::Store | Instruction::Store8 => StackEffect::new(2, 0),
            Instruction::ToR => StackEffect::new(1, 0),
            Instruction::FromR | Instruction::RFetch => StackEffect::new(0, 1),
            Instruction::DupAdd | Instruction::DupMul => StackEffect::new(1, 1),
            Instruction::OverAdd => StackEffect::new(2, 2),
            Instruction::SwapSub => StackEffect::new(2, 1),
            Instruction::LiteralAdd(_) | Instruction::LiteralMul(_) => StackEffect::new(1, 1),
            Instruction::IncOne | Instruction::DecOne | Instruction::MulTwo | Instruction::DivTwo => StackEffect::new(1, 1),
            Instruction::CachedDup { .. } => StackEffect::new(1, 2),
            Instruction::CachedSwap { .. } => StackEffect::new(2, 2),
            Instruction::CachedOver { .. } => StackEffect::new(2, 3),
            Instruction::FlushCache => StackEffect::new(0, 0),
            Instruction::Return | Instruction::Branch(_) | Instruction::BranchIf(_) | Instruction::BranchIfNot(_) => StackEffect::new(0, 0),
            Instruction::Call(_) => StackEffect::new(0, 0),
            Instruction::Spawn => StackEffect::new(1, 1),
            Instruction::Join => StackEffect::new(1, 0),
            Instruction::Channel(_) => StackEffect::new(0, 1),
            Instruction::Send => StackEffect::new(2, 0),
            Instruction::Recv => StackEffect::new(1, 1),
            Instruction::CloseChannel | Instruction::DestroyChannel => StackEffect::new(1, 0),
            Instruction::Comment(_) | Instruction::Label(_) | Instruction::Nop => StackEffect::new(0, 0),
        }
    }

    /// Whether this is a pure operation (no side effect).
    pub fn is_pure(&self) -> (r: bool)
        ensures
            r == instr_pure(*self),
    {
        !matches!(
            self,
            Instruction::Store | Instruction::Store8 | Instruction::ToR | Instruction::Call(_)
                | Instruction::Return | Instruction::Branch(_) | Instruction::BranchIf(_)
                | Instruction::BranchIfNot(_) | Instruction::FlushCache | Instruction::Spawn
                | Instruction::Join | Instruction::Channel(_) | Instruction::Send
                | Instruction::Recv | Instruction::CloseChannel | Instruction::DestroyChannel
        )
    }

    /// The value of a literal, if this is one.
    pub fn as_constant(&self) -> (r: Option<i64>)
        ensures
            r == (match *self {
                Instruction::Literal(v) => Some(v),
                _ => None,
            }),
    {
        match self {
            Instruction::Literal(v) => Some(*v),
            _ => None,
        }
    }

    /// An identical copy of this instruction.
    pub fn duplicate(&self) -> (r: Instruction)
        ensures
            r == *self,
    {
        match self {
            Instruction::Literal(v) => Instruction::Literal(*v),
            Instruction::FloatLiteral(v) => Instruction::FloatLiteral(*v),
            Instruction::Dup => Instruction::Dup,
            Instruction::Drop => Instruction::Drop,
            Instruction::Swap => Instruction::Swap,
            Instruction::Over => Instruction::Over,
            Instruction::Rot => Instruction::Rot,
            Instruction::Nip => Instruction::Nip,
            Instruction::Tuck => Instruction::Tuck,
            Instruction::Pick(n) => Instruction::Pick(*n),
            Instruction::Roll(n) => Instruction::Roll(*n),
            Instruction::Add => Instruction::Add,
            Instruction::Sub => Instruction::Sub,
            Instruction::Mul => Instruction::Mul,
            Instruction::Div => Instruction::Div,
            Instruction::Mod => Instruction::Mod,
            Instruction::Neg => Instruction::Neg,
            Instruction::Abs => Instruction::Abs,
            Instruction::And => Instruction::And,
            Instruction::Or => Instruction::Or,
            Instruction::Xor => Instruction::Xor,
            Instruction::Not => Instruction::Not,
            Instruction::Shl => Instruction::Shl,
            Instruction::Shr => Instruction::Shr,
            Instruction::Eq => Instruction::Eq,
            Instruction::Ne => Instruction::Ne,
            Instruction::Lt => Instruction::Lt,
            Instruction::Le => Instruction::Le,
            Instruction::Gt => Instruction::Gt,
            Instruction::Ge => Instruction::Ge,
            Instruction::ZeroEq => Instruction::ZeroEq,
            Instruction::ZeroLt => Instruction::ZeroLt,
            Instruction::ZeroGt => Instruction::ZeroGt,
            Instruction::Call(s) => Instruction::Call(s.clone()),
            Instruction::Return => Instruction::Return,
            Instruction::Branch(t) => Instruction::Branch(*t),
            Instruction::BranchIf(t) => Instruction::BranchIf(*t),
            Instruction::BranchIfNot(t) => Instruction::BranchIfNot(*t),
            Instruction::Load => Instruction::Load,
            Instruction::Store => Instruction::Store,
            Instruction::Load8 => Instruction::Load8,
            Instruction::Store8 => Instruction::Store8,
            Instruction::ToR => Instruction::ToR,
            Instruction::FromR => Instruction::FromR,
            Instruction::RFetch => Instruction::RFetch,
            Instruction::DupAdd => Instruction::DupAdd,
            Instruction::DupMul => Instruction::DupMul,
            Instruction::OverAdd => Instruction::OverAdd,
            Instruction::SwapSub => Instruction::SwapSub,
            Instruction::LiteralAdd(n) => Instruction::LiteralAdd(*n),
            Instruction::LiteralMul(n) => Instruction::LiteralMul(*n),
            Instruction::IncOne => Instruction::IncOne,
            Instruction::DecOne => Instruction::DecOne,
            Instruction::MulTwo => Instruction::MulTwo,
            Instruction::DivTwo => Instruction::DivTwo,
            Instruction::CachedDup { depth } => Instruction::CachedDup { depth: *depth },
            Instruction::CachedSwap { depth } => Instruction::CachedSwap { depth: *depth },
            Instruction::CachedOver { depth } => Instruction::CachedOver { depth: *depth },
            Instruction::FlushCache => Instruction::FlushCache,
            Instruction::Spawn => Instruction::Spawn,
            Instruction::Join => Instruction::Join,
            Instruction::Channel(n) => Instruction::Channel(*n),
            Instruction::Send => Instruction::Send,
            Instruction::Recv => Instruction::Recv,
            Instruction::CloseChannel => Instruction::CloseChannel,
            Instruction::DestroyChannel => Instruction::DestroyChannel,
            Instruction::Comment(s) => Instruction::Comment(s.clone()),
            Instruction::Label(s) => Instruction::Label(s.clone()),
            Instruction::Nop => Instruction::Nop,
        }
    }
}

/// Two instructions are the same, names and texts compared by their characters.
pub open spec fn instr_match(a: Instruction, b: Instruction) -> bool {
    match a {
        Instruction::Call(x) => b is Call && x@ == b->Call_0@,
        Instruction::Comment(x) => b is Comment && x@ == b->Comment_0@,
        Instruction::Label(x) => b is Label && x@ == b->Label_0@,
        _ => a == b,
    }
}

/// Two sequences hold the same instructions.
pub open spec fn seq_match(a: Seq<Instruction>, b: Seq<Instruction>) -> bool {
    a.len() == b.len() && forall|i: int| 0 <= i < a.len() ==> instr_match(#[trigger] a[i], b[i])
}

/// Two words are the same.
pub open spec fn word_match(a: WordDef, b: WordDef) -> bool {
    &&& a.name@ == b.name@
    &&& seq_match(a.instructions@, b.instructions@)
    &&& a.stack_effect == b.stack_effect
    &&& a.is_inline == b.is_inline
    &&& a.cost == b.cost
}

/// Two programs are the same: the same words in the same order, and the same
/// top-level sequence.
pub open spec fn programs_match(a: ForthIR, b: ForthIR) -> bool {
    &&& seq_match(a.main@, b.main@)
    &&& a.words@.len() == b.words@.len()
    &&& forall|i: int| 0 <= i < a.words@.len() ==> word_match(#[trigger] a.words@[i], b.words@[i])
}

/// A program is the same as itself.
pub proof fn lemma_programs_match_refl(a: ForthIR)
    ensures
        programs_match(a, a),
{
}

/// Whether two instructions are the same.
pub fn instructions_match(a: &Instruction, b: &Instruction) -> (r: bool)
    ensures
        r == instr_match(*a, *b),
{
    match a {
        Instruction::Literal(x) => match b {
            Instruction::Literal(y) => *x == *y,
            _ => false,
        },
        Instruction::FloatLiteral(x) => match b {
            Instruction::FloatLiteral(y) => *x == *y,
            _ => false,
        },
        Instruction::Dup => matches!(b, Instruction::Dup),
        Instruction::Drop => matches!(b, Instruction::Drop),
        Instruction::Swap => matches!(b, Instruction::Swap),
        Instruction::Over => matches!(b, Instruction::Over),
        Instruction::Rot => matches!(b, Instruction::Rot),
        Instruction::Nip => matches!(b, Instruction::Nip),
        Instruction::Tuck => matches!(b, Instruction::Tuck),
        Instruction::Pick(x) => match b {
            Instruction::Pick(y) => *x == *y,
            _ => false,
        },
        Instruction::Roll(x) => match b {
            Instruction::Roll(y) => *x == *y,
            _ => false,
        },
        Instruction::Add => matches!(b, Instruction::Add),
        Instruction::Sub => matches!(b, Instruction::Sub),
        Instruction::Mul => matches!(b, Instruction::Mul),
        Instruction::Div => matches!(b, Instruction::Div),
        Instruction::Mod => matches!(b, Instruction::Mod),
        Instruction::Neg => matches!(b, Instruction::Neg),
        Instruction::Abs => matches!(b, Instruction::Abs),
        Instruction::And => matches!(b, Instruction::And),
        Instruction::Or => matches!(b, Instruction::Or),
        Instruction::Xor => matches!(b, Instruction::Xor),
        Instruction::Not => matches!(b, Instruction::Not),
        Instruction::Shl => matches!(b, Instruction::Shl),
        Instruction::Shr => matches!(b, Instruction::Shr),
        Instruction::Eq => matches!(b, Instruction::Eq),
        Instruction::Ne => matches!(b, Instruction::Ne),
        Instruction::Lt => matches!(b, Instruction::Lt),
        Instruction::Le => matches!(b, Instruction::Le),
        Instruction::Gt => matches!(b, Instruction::Gt),
        Instruction::Ge => matches!(b, Instruction::Ge),
        Instruction::ZeroEq => matches!(b, Instruction::ZeroEq),
        Instruction::ZeroLt => matches!(b, Instruction::ZeroLt),
        Instruction::ZeroGt => matches!(b, Instruction::ZeroGt),
        Instruction::Call(x) => match b {
            Instruction::Call(y) => *x == *y,
            _ => false,
        },
        Instruction::Return => matches!(b, Instruction::Return),
        Instruction::Branch(x) => match b {
            Instruction::Branch(y) => *x == *y,
            _ => false,
        },
        Instruction::BranchIf(x) => match b {
            Instruction::BranchIf(y) => *x == *y,
            _ => false,
        },
        Instruction::BranchIfNot(x) => match b {
            Instruction::BranchIfNot(y) => *x == *y,
            _ => false,
        },
        Instruction::Load => matches!(b, Instruction::Load),
        Instruction::Store => matches!(b, Instruction::Store),
        Instruction::Load8 => matches!(b, Instruction::Load8),
        Instruction::Store8 => matches!(b, Instruction::Store8),
        Instruction::ToR => matches!(b, Instruction::ToR),
        Instruction::FromR => matches!(b, Instruction::FromR),
        Instruction::RFetch => matches!(b, Instruction::RFetch),
        Instruction::DupAdd => matches!(b, Instruction::DupAdd),
        Instruction::DupMul => matches!(b, Instruction::DupMul),
        Instruction::OverAdd => matches!(b, Instruction::OverAdd),
        Instruction::SwapSub => matches!(b, Instruction::SwapSub),
        Instruction::LiteralAdd(x) => match b {
            Instruction::LiteralAdd(y) => *x == *y,
            _ => false,
        },
        Instruction::LiteralMul(x) => match b {
            Instruction::LiteralMul(y) => *x == *y,
            _ => false,
        },
        Instruction::IncOne => matches!(b, Instruction::IncOne),
        Instruction::DecOne => matches!(b, Instruction::DecOne),
        Instruction::MulTwo => matches!(b, Instruction::MulTwo),
        Instruction::DivTwo => matches!(b, Instruction::DivTwo),
        Instruction::CachedDup { depth: x } => match b {
            Instruction::CachedDup { depth: y } => *x == *y,
            _ => false,
        },
        Instruction::CachedSwap { depth: x } => match b {
            Instruction::CachedSwap { depth: y } => *x == *y,
            _ => false,
        },
        Instruction::CachedOver { depth: x } => match b {
            Instruction::CachedOver { depth: y } => *x == *y,
            _ => false,
        },
        Instruction::FlushCache => matches!(b, Instruction::FlushCache),
        Instruction::Spawn => matches!(b, Instruction::Spawn),
        Instruction::Join => matches!(b, Instruction::Join),
        Instruction::Channel(x) => match b {
            Instruction::Channel(y) => *x == *y,
            _ => false,
        },
        Instruction::Send => matches!(b, Instruction::Send),
        Instruction::Recv => matches!(b, Instruction::Recv),
        Instruction::CloseChannel => matches!(b, Instruction::CloseChannel),
        Instruction::DestroyChannel => matches!(b, Instruction::DestroyChannel),
        Instruction::Comment(x) => match b {
            Instruction::Comment(y) => *x == *y,
            _ => false,
        },
        Instruction::Label(x) => match b {
            Instruction::Label(y) => *x == *y,
            _ => false,
        },
        Instruction::Nop => matches!(b, Instruction::Nop),
    }
}

/// Whether two instruction sequences are the same.
pub fn sequences_match(a: &[Instruction], b: &[Instruction]) -> (r: bool)
    ensures
        r == seq_match(a@, b@),
{
    if a.len() != b.len() {
        return false;
    }
    let mut i: usize = 0;
    while i < a.len()
        invariant
            i <= a.len(),
            a.len() == b.len(),
            forall|k: int| 0 <= k < i ==> instr_match(#[trigger] a@[k], b@[k]),
        decreases a.len() - i,
    {
        if !instructions_match(&a[i], &b[i]) {
            return false;
        }
        i = i + 1;
    }
    true
}

/// Whether two programs are the same.
pub fn same_program(a: &ForthIR, b: &ForthIR) -> (r: bool)
    ensures
        r == programs_match(*a, *b),
{
    if !sequences_match(a.main.as_slice(), b.main.as_slice()) {
        return false;
    }
    if a.words.len() != b.words.len() {
        return false;
    }
    let mut i: usize = 0;
    while i < a.words.len()
        invariant
            i <= a.words.len(),
            a.words.len() == b.words.len(),
            forall|k: int| 0 <= k < i ==> word_match(#[trigger] a.words@[k], b.words@[k]),
        decreases a.words.len() - i,
    {
        let x = &a.words[i];
        let y = &b.words[i];
        if !(x.name == y.name && sequences_match(x.instructions.as_slice(), y.instructions.as_slice())
            && x.stack_effect == y.stack_effect && x.is_inline == y.is_inline && x.cost == y.cost) {
            return false;
        }
        i = i + 1;
    }
    true
}

/// An identical copy of an instruction sequence.
pub fn copy_instructions(v: &[Instruction]) -> (r: Vec<Instruction>)
    ensures
        r@ == v@,
{
    let mut r: Vec<Instruction> = Vec::new();
    let mut i: usize = 0;
    while i < v.len()
        invariant
            i <= v.len(),
            r@ == v@.take(i as int),
        decreases v.len() - i,
    {
        r.push(v[i].duplicate());
        assert(v@.take(i as int).push(v@[i as int]) =~= v@.take(i + 1));
        i = i + 1;
    }
    assert(v@.take(v.len() as int) =~= v@);
    r
}

/// Stack effect of a whole sequence over the integers: the composition of the
/// effects of its instructions, from `( 0 -- 0 )`.
pub open spec fn seq_counts(s: Seq<Instruction>) -> (int, int)
    decreases s.len(),
{
    if s.len() == 0 {
        (0, 0)
    } else {
        let a = seq_counts(s.drop_last());
        let e = instr_effect(s.last());
        compose_counts(a.0, a.1, e.consumed as int, e.produced as int)
    }
}

/// Every prefix of `s` has an effect representable in `u8`, so that computing
/// it step by step does not overflow.
pub open spec fn effect_fits(s: Seq<Instruction>) -> bool {
    forall|k: int| #![trigger s.take(k)] 0 <= k <= s.len() ==> seq_counts(s.take(k)).0 <= 255 && seq_counts(s.take(k)).1 <= 255
}

/// The stack effect of a sequence, as computed by folding `compose`.
pub open spec fn seq_effect(s: Seq<Instruction>) -> StackEffect {
    StackEffect { consumed: seq_counts(s).0 as u8, produced: seq_counts(s).1 as u8 }
}

proof fn lemma_seq_counts_nonneg(s: Seq<Instruction>)
    ensures
        seq_counts(s).0 >= 0,
        seq_counts(s).1 >= 0,
    decreases s.len(),
{
    if s.len() > 0 {
        lemma_seq_counts_nonneg(s.drop_last());
    }
}

/// Computes the stack effect of a sequence by folding `compose`.
pub fn calculate_stack_effect(instructions: &[Instruction]) -> (r: StackEffect)
    requires
        effect_fits(instructions@),
    ensures
        r == seq_effect(instructions@),
{
    let mut acc = StackEffect::new(0, 0);
    let mut i: usize = 0;
    assert(instructions@.take(0) =~= Seq::<Instruction>::empty());
    while i < instructions.len()
        invariant
            i <= instructions.len(),
            effect_fits(instructions@),
            acc.consumed as int == seq_counts(instructions@.take(i as int)).0,
            acc.produced as int == seq_counts(instructions@.take(i as int)).1,
        decreases instructions.len() - i,
    {
        let e = instructions[i].stack_effect();
        assert(instructions@.take(i + 1).drop_last() =~= instructions@.take(i as int));
        assert(instructions@.take(i + 1).last() == instructions@[i as int]);
        assert(seq_counts(instructions@.take(i + 1)).0 <= 255);
        acc = acc.compose(&e);
        i = i + 1;
    }
    assert(instructions@.take(instructions.len() as int) =~= instructions@);
    acc
}

/// Computes the stack effect of a sequence, or `None` where some prefix of it has an
/// effect that does not fit in `u8`.
pub fn checked_stack_effect(instructions: &[Instruction]) -> (r: Option<StackEffect>)
    ensures
        r is Some <==> effect_fits(instructions@),
        r matches Some(e) ==> e == seq_effect(instructions@),
{
    let mut consumed: u16 = 0;
    let mut produced: u16 = 0;
    let mut i: usize = 0;
    assert(instructions@.take(0) =~= Seq::<Instruction>::empty());
    while i < instructions.len()
        invariant
            i <= instructions.len(),
            forall|k: int| #![trigger instructions@.take(k)] 0 <= k <= i ==>
                seq_counts(instructions@.take(k)).0 <= 255 && seq_counts(instructions@.take(k)).1 <= 255,
            consumed as int == seq_counts(instructions@.take(i as int)).0,
            produced as int == seq_counts(instructions@.take(i as int)).1,
        decreases instructions.len() - i,
    {
        let e = instructions[i].stack_effect();
        assert(instructions@.take(i + 1).drop_last() =~= instructions@.take(i as int));
        assert(instructions@.take(i + 1).last() == instructions@[i as int]);
        let c2: u16 = if e.consumed as u16 > produced { e.consumed as u16 - produced } else { 0 };
        let p1: u16 = if produced > e.consumed as u16 { produced - e.consumed as u16 } else { 0 };
        consumed = consumed + c2;
        produced = p1 + e.produced as u16;
        if consumed > 255 || produced > 255 {
            assert(!(seq_counts(instructions@.take(i + 1)).0 <= 255 && seq_counts(instructions@.take(i + 1)).1 <= 255));
            return None;
        }
        i = i + 1;
    }
    assert(instructions@.take(instructions.len() as int) =~= instructions@);
    Some(StackEffect { consumed: consumed as u8, produced: produced as u8 })
}

/// A word definition (like a function).
#[derive(Debug, Clone, PartialEq)]
pub struct WordDef {
    pub name: String,
    pub instructions: Vec<Instruction>,
    pub stack_effect: StackEffect,
    pub is_inline: bool,
    /// Instruction count, used for inlining decisions.
    pub cost: usize,
}

/// The computed properties of a word agree with its instructions.
pub open spec fn word_consistent(w: WordDef) -> bool {
    &&& w.stack_effect == seq_effect(w.instructions@)
    &&& w.cost == w.instructions@.len()
}

impl WordDef {
    pub fn new(name: String, instructions: Vec<Instruction>) -> (r: Self)
        requires
            effect_fits(instructions@),
        ensures
            r.name == name,
            r.instructions@ == instructions@,
            r.stack_effect == seq_effect(instructions@),
            !r.is_inline,
            r.cost == instructions@.len(),
    {
        let stack_effect = calculate_stack_effect(&instructions);
        let cost = instructions.len();
        Self { name, instructions, stack_effect, is_inline: false, cost }
    }

    /// A word whose stack effect is computed from its instructions; fails with
    /// `InvalidStackEffect` (naming the word) where that effect does not fit in `u8`.
    pub fn try_new(name: String, instructions: Vec<Instruction>) -> (r: Result<Self, OptimizerError>)
        ensures
            r is Ok <==> effect_fits(instructions@),
            r matches Ok(w) ==> {
                &&& w.name == name
                &&& w.instructions@ == instructions@
                &&& w.stack_effect == seq_effect(instructions@)
                &&& !w.is_inline
                &&& w.cost == instructions@.len()
            },
            r matches Err(e) ==> e == OptimizerError::InvalidStackEffect(name),
    {
        match checked_stack_effect(&instructions) {
            Some(stack_effect) => {
                let cost = instructions.len();
                Ok(Self { name, instructions, stack_effect, is_inline: false, cost })
            },
            None => Err(OptimizerError::InvalidStackEffect(name)),
        }
    }

    /// Recomputes the stack effect and cost after the instructions changed.
    pub fn update(&mut self)
        requires
            effect_fits(old(self).instructions@),
        ensures
            final(self).name == old(self).name,
            final(self).instructions@ == old(self).instructions@,
            final(self).is_inline == old(self).is_inline,
            final(self).stack_effect == seq_effect(old(self).instructions@),
            final(self).cost == old(self).instructions@.len(),
    {
        self.stack_effect = calculate_stack_effect(&self.instructions);
        self.cost = self.instructions.len();
    }

    /// An identical copy of this word.
    pub fn duplicate(&self) -> (r: WordDef)
        ensures
            r.name == self.name,
            r.instructions@ == self.instructions@,
            r.stack_effect == self.stack_effect,
            r.is_inline == self.is_inline,
            r.cost == self.cost,
    {
        WordDef {
            name: self.name.clone(),
            instructions: copy_instructions(&self.instructions),
            stack_effect: self.stack_effect,
            is_inline: self.is_inline,
            cost: self.cost,
        }
    }
}

/// `word` with new instructions and its stack effect and cost recomputed; fails with
/// `InvalidStackEffect` (naming the word) where the new effect does not fit in `u8`.
pub fn rebuild_word(word: &WordDef, instructions: Vec<Instruction>) -> (r: Result<WordDef, OptimizerError>)
    ensures
        r is Ok <==> effect_fits(instructions@),
        r matches Ok(w) ==> {
            &&& w.name == word.name
            &&& w.instructions@ == instructions@
            &&& w.is_inline == word.is_inline
            &&& w.stack_effect == seq_effect(instructions@)
            &&& w.cost == instructions@.len()
        },
        r matches Err(e) ==> e is InvalidStackEffect,
{
    match checked_stack_effect(&instructions) {
        Some(stack_effect) => {
            let cost = instructions.len();
            Ok(WordDef { name: word.name.clone(), instructions, stack_effect, is_inline: word.is_inline, cost })
        },
        None => Err(OptimizerError::InvalidStackEffect(word.name.clone())),
    }
}

/// Two words that agree in every field (instructions compared as sequences).
pub open spec fn same_word(a: WordDef, b: WordDef) -> bool {
    &&& a.name == b.name
    &&& a.instructions@ == b.instructions@
    &&& a.stack_effect == b.stack_effect
    &&& a.is_inline == b.is_inline
    &&& a.cost == b.cost
}

/// A complete Forth program in IR form: its word definitions, in the order
/// they were added, and the top-level sequence.
#[derive(Debug, Clone, PartialEq)]
pub struct ForthIR {
    pub words: Vec<WordDef>,
    pub main: Vec<Instruction>,
}

/// No two words share a name.
pub open spec fn names_distinct(ws: Seq<WordDef>) -> bool {
    forall|i: int, j: int| 0 <= i < ws.len() && 0 <= j < ws.len() && i != j ==> ws[i].name@ != ws[j].name@
}

/// Index of the word named `name`, if there is one.
pub open spec fn word_index(ws: Seq<WordDef>, name: Seq<char>) -> Option<int> {
    if exists|i: int| 0 <= i < ws.len() && ws[i].name@ == name {
        Some(choose|i: int| 0 <= i < ws.len() && ws[i].name@ == name)
    } else {
        None
    }
}

/// Number of instructions in the top-level sequence and every word.
pub open spec fn words_instruction_total(ws: Seq<WordDef>) -> int
    decreases ws.len(),
{
    if ws.len() == 0 {
        0
    } else {
        words_instruction_total(ws.drop_last()) + ws.last().instructions@.len()
    }
}

impl ForthIR {
    /// Well-formedness: word names are distinct.
    pub open spec fn wf(&self) -> bool {
        names_distinct(self.words@)
    }

    pub fn new() -> (r: Self)
        ensures
            r.words@.len() == 0,
            r.main@.len() == 0,
            r.wf(),
    {
        ForthIR { words: Vec::new(), main: Vec::new() }
    }

    /// An identical copy of this IR.
    pub fn duplicate(&self) -> (r: ForthIR)
        ensures
            r.main@ == self.main@,
            r.words@.len() == self.words@.len(),
            forall|i: int| 0 <= i < self.words@.len() ==> same_word(#[trigger] r.words@[i], self.words@[i]),
    {
        let mut words: Vec<WordDef> = Vec::new();
        let mut i: usize = 0;
        while i < self.words.len()
            invariant
                i <= self.words.len(),
                words@.len() == i,
                forall|j: int| 0 <= j < i ==> same_word(#[trigger] words@[j], self.words@[j]),
            decreases self.words.len() - i,
        {
            words.push(self.words[i].duplicate());
            i = i + 1;
        }
        ForthIR { words, main: copy_instructions(&self.main) }
    }

    /// Reads Forth source into IR: whitespace-separated tokens, each a known
    /// word, an integer literal, a definition marker (skipped) or a call.
    pub fn parse(source: &str) -> (r: Result<Self, OptimizerError>)
        ensures
            r is Ok,
            r matches Ok(ir) ==> ir.words@.len() == 0 && ir.wf() && reads_as(split_whitespace(source@), ir.main@),
    {
        let cs = chars_of(source);
        let tokens = split_tokens(&cs);
        let mut main: Vec<Instruction> = Vec::new();
        let mut k: usize = 0;
        while k < tokens.len()
            invariant
                k <= tokens.len(),
                tokens@.len() == split_whitespace(source@).len(),
                forall|j: int| 0 <= j < tokens@.len() ==> #[trigger] tokens@[j]@ == split_whitespace(source@)[j],
                reads_as(split_whitespace(source@).take(k as int), main@),
            decreases tokens.len() - k,
        {
            let t = &tokens[k];
            let ghost before = main@;
            match token_instruction(t.as_slice()) {
                Some(inst) => {
                    main.push(inst);
                    proof {
                        let ts = split_whitespace(source@);
                        assert(ts.take(k + 1).drop_last() =~= ts.take(k as int));
                        assert(ts.take(k + 1).last() == t@);
                        assert(main@.drop_last() =~= before);
                        assert(!token_skipped(t@));
                    }
                }
                None => {
                    proof {
                        let ts = split_whitespace(source@);
                        assert(ts.take(k + 1).drop_last() =~= ts.take(k as int));
                        assert(ts.take(k + 1).last() == t@);
                    }
                }
            }
            k = k + 1;
        }
        assert(split_whitespace(source@).take(tokens.len() as int) =~= split_whitespace(source@));
        Ok(ForthIR { words: Vec::new(), main })
    }

    /// Adds a word definition, replacing any word of the same name in place.
    pub fn add_word(&mut self, word: WordDef)
        requires
            old(self).wf(),
        ensures
            final(self).wf(),
            final(self).main@ == old(self).main@,
            match word_index(old(self).words@, word.name@) {
                Some(i) => final(self).words@ == old(self).words@.update(i, word),
                None => final(self).words@ == old(self).words@.push(word),
            },
    {
        match self.find_word(&word.name) {
            Some(i) => {
                let ghost ws = self.words@;
                self.words.set(i, word);
                proof {
                    assert(ws[i as int].name@ == self.words@[i as int].name@);
                    assert(word_index(ws, self.words@[i as int].name@) == Some(i as int));
                }
            }
            None => {
                self.words.push(word);
            }
        }
    }

    /// Index of the word named `name`.
    pub fn find_word(&self, name: &String) -> (r: Option<usize>)
        requires
            self.wf(),
        ensures
            match r {
                Some(i) => word_index(self.words@, name@) == Some(i as int),
                None => word_index(self.words@, name@) is None,
            },
    {
        let mut i: usize = 0;
        while i < self.words.len()
            invariant
                i <= self.words.len(),
                self.wf(),
                forall|j: int| 0 <= j < i ==> self.words@[j].name@ != name@,
            decreases self.words.len() - i,
        {
            if self.words[i].name == *name {
                proof {
                    assert(self.words@[i as int].name@ == name@);
                    assert(exists|j: int| 0 <= j < self.words@.len() && self.words@[j].name@ == name@);
                    let w = choose|j: int| 0 <= j < self.words@.len() && self.words@[j].name@ == name@;
                    if w != i {
                        assert(self.words@[w].name@ != self.words@[i as int].name@);
                    }
                }
                return Some(i);
            }
            i = i + 1;
        }
        None
    }

    /// The word named `name`.
    pub fn get_word(&self, name: &String) -> (r: Option<&WordDef>)
        requires
            self.wf(),
        ensures
            match word_index(self.words@, name@) {
                Some(i) => r == Some(&self.words@[i]),
                None => r is None,
            },
    {
        match self.find_word(name) {
            Some(i) => Some(&self.words[i]),
            None => None,
        }
    }

    /// Verifies that no sequence underflows the stack or grows it past 255 items:
    /// the top-level sequence from an empty stack, each word from the items its
    /// stack effect says it takes.
    pub fn verify(&self) -> (r: Result<(), OptimizerError>)
        ensures
            verify_outcome(self.main@, self.words@, r),
    {
        match verify_sequence(&self.main) {
            Ok(()) => {}
            Err(e) => return Err(e),
        }
        let mut i: usize = 0;
        while i < self.words.len()
            invariant
                i <= self.words.len(),
                sequence_check(self.main@) is Ok,
                spec_verify_words(self.words@.take(i as int)) is Ok,
            decreases self.words.len() - i,
        {
            assert(self.words@.take(i + 1).drop_last() =~= self.words@.take(i as int));
            match verify_sequence_from(&self.words[i].instructions, self.words[i].stack_effect.consumed) {
                Ok(()) => {}
                Err(e) => {
                    let mut msg = String::new();
                    push_str(&mut msg, "In word '");
                    push_str(&mut msg, self.words[i].name.as_str());
                    push_str(&mut msg, "': ");
                    let m = optimizer_error_message(&e);
                    push_str(&mut msg, m.as_str());
                    let ghost ws = self.words@;
                    proof {
                        lemma_verify_words_first_error(ws, i as int);
                    }
                    return Err(OptimizerError::InvalidStackEffect(msg));
                }
            }
            i = i + 1;
        }
        assert(self.words@.take(self.words.len() as int) =~= self.words@);
        Ok(())
    }

    /// Total number of instructions, or `None` where it exceeds `usize::MAX`.
    pub fn checked_instruction_count(&self) -> (r: Option<usize>)
        ensures
            r is Some <==> self.main@.len() + words_instruction_total(self.words@) <= usize::MAX,
            r matches Some(n) ==> n == self.main@.len() + words_instruction_total(self.words@),
    {
        let mut total: usize = self.main.len();
        let mut i: usize = 0;
        proof { lemma_words_total_prefix(self.words@, 0); }
        while i < self.words.len()
            invariant
                i <= self.words.len(),
                total == self.main@.len() + words_instruction_total(self.words@.take(i as int)),
            decreases self.words.len() - i,
        {
            proof {
                assert(self.words@.take(i + 1).drop_last() =~= self.words@.take(i as int));
                lemma_words_total_prefix(self.words@, i + 1);
            }
            let len = self.words[i].instructions.len();
            if total > usize::MAX - len {
                return None;
            }
            total = total + len;
            i = i + 1;
        }
        assert(self.words@.take(self.words.len() as int) =~= self.words@);
        Some(total)
    }

    /// Total number of instructions in the top-level sequence and every word.
    pub fn instruction_count(&self) -> (r: usize)
        requires
            self.main@.len() + words_instruction_total(self.words@) <= usize::MAX,
        ensures
            r == self.main@.len() + words_instruction_total(self.words@),
    {
        let mut total: usize = self.main.len();
        let mut i: usize = 0;
        proof { lemma_words_total_prefix(self.words@, 0); }
        while i < self.words.len()
            invariant
                i <= self.words.len(),
                self.main@.len() + words_instruction_total(self.words@) <= usize::MAX,
                total == self.main@.len() + words_instruction_total(self.words@.take(i as int)),
            decreases self.words.len() - i,
        {
            proof {
                assert(self.words@.take(i + 1).drop_last() =~= self.words@.take(i as int));
                lemma_words_total_prefix(self.words@, i + 1);
            }
            total = total + self.words[i].instructions.len();
            i = i + 1;
        }
        assert(self.words@.take(self.words.len() as int) =~= self.words@);
        total
    }
}

proof fn lemma_words_total_nonneg(ws: Seq<WordDef>)
    ensures
        words_instruction_total(ws) >= 0,
    decreases ws.len(),
{
    if ws.len() > 0 {
        lemma_words_total_nonneg(ws.drop_last());
    }
}

/// A prefix of the words holds no more instructions than all of them.
pub proof fn lemma_words_total_prefix(ws: Seq<WordDef>, k: int)
    requires
        0 <= k <= ws.len(),
    ensures
        0 <= words_instruction_total(ws.take(k)) <= words_instruction_total(ws),
    decreases ws.len() - k,
{
    lemma_words_total_nonneg(ws.take(k));
    if k < ws.len() {
        lemma_words_total_prefix(ws, k + 1);
        assert(ws.take(k + 1).drop_last() =~= ws.take(k));
    } else {
        assert(ws.take(k) =~= ws);
    }
}

/// Outcome of checking one sequence: the index of the first instruction that
/// underflows the stack or raises it above 255 items.
pub open spec fn sequence_check_from(s: Seq<Instruction>, i: int, depth: int) -> Result<(), OptimizerError>
    decreases s.len() - i,
{
    if i < 0 || i >= s.len() {
        Ok(())
    } else {
        let e = instr_effect(s[i]);
        if depth - e.consumed < 0 {
            Err(OptimizerError::StackUnderflow(i as usize))
        } else if depth - e.consumed + e.produced > 255 {
            Err(OptimizerError::StackOverflow(i as usize))
        } else {
            sequence_check_from(s, i + 1, depth - e.consumed + e.produced)
        }
    }
}

/// Checking a sequence from an empty stack.
pub open spec fn sequence_check(s: Seq<Instruction>) -> Result<(), OptimizerError> {
    sequence_check_from(s, 0, 0)
}

/// Checking a body from the stack items its own effect says it takes.
pub open spec fn body_check(s: Seq<Instruction>) -> Result<(), OptimizerError> {
    sequence_check_from(s, 0, seq_effect(s).consumed as int)
}

/// Checking a word's body from the stack items its recorded effect says it takes.
pub open spec fn word_check(w: WordDef) -> Result<(), OptimizerError> {
    sequence_check_from(w.instructions@, 0, w.stack_effect.consumed as int)
}

/// Outcome of checking the words in order: the first failing word's error.
pub open spec fn spec_verify_words(ws: Seq<WordDef>) -> Result<(), int>
    decreases ws.len(),
{
    if ws.len() == 0 {
        Ok(())
    } else {
        match spec_verify_words(ws.drop_last()) {
            Err(i) => Err(i),
            Ok(()) => if word_check(ws.last()) is Ok { Ok(()) } else { Err(ws.len() - 1) },
        }
    }
}

/// The words pass verification exactly when each of them does.
pub proof fn lemma_verify_words_all(ws: Seq<WordDef>)
    ensures
        spec_verify_words(ws) is Ok <==> forall|i: int| 0 <= i < ws.len() ==> word_check(#[trigger] ws[i]) is Ok,
    decreases ws.len(),
{
    if ws.len() > 0 {
        lemma_verify_words_all(ws.drop_last());
        if spec_verify_words(ws) is Ok {
            assert forall|i: int| 0 <= i < ws.len() implies word_check(#[trigger] ws[i]) is Ok by {
                if i < ws.len() - 1 {
                    assert(ws.drop_last()[i] == ws[i]);
                }
            }
        }
        if forall|i: int| 0 <= i < ws.len() ==> word_check(#[trigger] ws[i]) is Ok {
            assert forall|i: int| 0 <= i < ws.drop_last().len() implies word_check(#[trigger] ws.drop_last()[i]) is Ok by {
                assert(ws.drop_last()[i] == ws[i]);
            }
            assert(word_check(ws[ws.len() - 1]) is Ok);
        }
    }
}

proof fn lemma_verify_words_first_error(ws: Seq<WordDef>, i: int)
    requires
        0 <= i < ws.len(),
        spec_verify_words(ws.take(i)) is Ok,
        word_check(ws[i]) is Err,
    ensures
        spec_verify_words(ws) == Err::<(), int>(i),
    decreases ws.len() - i,
{
    assert(ws.take(i + 1).drop_last() =~= ws.take(i));
    if i + 1 < ws.len() {
        lemma_verify_words_prefix_err(ws, i, i + 1);
    } else {
        assert(ws.take(i + 1) =~= ws);
    }
}

proof fn lemma_verify_words_prefix_err(ws: Seq<WordDef>, i: int, k: int)
    requires
        0 <= i < k <= ws.len(),
        spec_verify_words(ws.take(k)) == Err::<(), int>(i),
    ensures
        spec_verify_words(ws) == Err::<(), int>(i),
    decreases ws.len() - k,
{
    if k < ws.len() {
        assert(ws.take(k + 1).drop_last() =~= ws.take(k));
        lemma_verify_words_prefix_err(ws, i, k + 1);
    } else {
        assert(ws.take(k) =~= ws);
    }
}

/// `r` is the outcome of `ForthIR::verify`: the top-level sequence is checked
/// first, then each word in order; a word's failure is reported as an invalid
/// stack effect whose message names the word and gives the sequence's error.
pub open spec fn verify_outcome(main: Seq<Instruction>, ws: Seq<WordDef>, r: Result<(), OptimizerError>) -> bool {
    match sequence_check(main) {
        Err(e) => r == Err::<(), OptimizerError>(e),
        Ok(()) => match spec_verify_words(ws) {
            Ok(()) => r is Ok,
            Err(i) => r matches Err(OptimizerError::InvalidStackEffect(m))
                && m@ == "In word '"@ + ws[i].name@ + "': "@ + error_text(word_check(ws[i])->Err_0),
        },
    }
}

/// Checks one sequence from an empty stack.
pub fn verify_sequence(instructions: &[Instruction]) -> (r: Result<(), OptimizerError>)
    ensures
        r == sequence_check(instructions@),
{
    verify_sequence_from(instructions, 0)
}

/// Checks one sequence from a stack that holds `start` items.
pub fn verify_sequence_from(instructions: &[Instruction], start: u8) -> (r: Result<(), OptimizerError>)
    ensures
        r == sequence_check_from(instructions@, 0, start as int),
{
    let mut depth: i32 = start as i32;
    let mut i: usize = 0;
    while i < instructions.len()
        invariant
            i <= instructions.len(),
            0 <= depth <= 255,
            sequence_check_from(instructions@, 0, start as int) == sequence_check_from(instructions@, i as int, depth as int),
        decreases instructions.len() - i,
    {
        let effect = instructions[i].stack_effect();
        depth = depth - effect.consumed as i32;
        if depth < 0 {
            return Err(OptimizerError::StackUnderflow(i));
        }
        depth = depth + effect.produced as i32;
        if depth > 255 {
            return Err(OptimizerError::StackOverflow(i));
        }
        i = i + 1;
    }
    Ok(())
}

/// The whitespace-separated tokens of `s` (as `str::split_whitespace`).
pub open spec fn split_whitespace(s: Seq<char>) -> Seq<Seq<char>>
    decreases s.len(),
{
    if s.len() == 0 {
        Seq::empty()
    } else {
        let prev = split_whitespace(s.drop_last());
        let c = s.last();
        if spec_is_whitespace(c) {
            prev
        } else if s.len() > 1 && !spec_is_whitespace(s[s.len() - 2]) && prev.len() > 0 {
            prev.update(prev.len() - 1, prev.last().push(c))
        } else {
            prev.push(seq![c])
        }
    }
}

/// Splits characters into whitespace-separated tokens.
pub fn split_tokens(cs: &[char]) -> (r: Vec<Vec<char>>)
    ensures
        r@.len() == split_whitespace(cs@).len(),
        forall|j: int| 0 <= j < r@.len() ==> #[trigger] r@[j]@ == split_whitespace(cs@)[j],
{
    let mut r: Vec<Vec<char>> = Vec::new();
    let mut cur: Vec<char> = Vec::new();
    let mut i: usize = 0;
    while i < cs.len()
        invariant
            i <= cs.len(),
            cur@.len() > 0 ==> i > 0 && !spec_is_whitespace(cs@[i - 1]),
            i > 0 && !spec_is_whitespace(cs@[i - 1]) ==> cur@.len() > 0,
            ({
                let ts = split_whitespace(cs@.take(i as int));
                if cur@.len() > 0 {
                    &&& ts.len() == r@.len() + 1
                    &&& ts.last() == cur@
                    &&& forall|j: int| 0 <= j < r@.len() ==> #[trigger] r@[j]@ == ts[j]
                } else {
                    &&& ts.len() == r@.len()
                    &&& forall|j: int| 0 <= j < r@.len() ==> #[trigger] r@[j]@ == ts[j]
                }
            }),
        decreases cs.len() - i,
    {
        let c = cs[i];
        let ghost pre = cs@.take(i as int);
        let ghost nxt = cs@.take(i + 1);
        assert(nxt.drop_last() =~= pre);
        assert(nxt.last() == c);
        if is_whitespace(c) {
            if cur.len() > 0 {
                let t = cur;
                cur = Vec::new();
                r.push(t);
            }
        } else {
            proof {
                if i > 0 {
                    assert(nxt[nxt.len() - 2] == cs@[i - 1]);
                }
            }
            cur.push(c);
        }
        i = i + 1;
    }
    assert(cs@.take(cs.len() as int) =~= cs@);
    if cur.len() > 0 {
        r.push(cur);
    }
    r
}

/// The instruction a known word token stands for.
pub open spec fn keyword_instruction(t: Seq<char>) -> Option<Instruction> {
    if t == "dup"@ { Some(Instruction::Dup) }
    else if t == "drop"@ { Some(Instruction::Drop) }
    else if t == "swap"@ { Some(Instruction::Swap) }
    else if t == "over"@ { Some(Instruction::Over) }
    else if t == "rot"@ { Some(Instruction::Rot) }
    else if t == "nip"@ { Some(Instruction::Nip) }
    else if t == "tuck"@ { Some(Instruction::Tuck) }
    else if t == "+"@ { Some(Instruction::Add) }
    else if t == "-"@ { Some(Instruction::Sub) }
    else if t == "*"@ { Some(Instruction::Mul) }
    else if t == "/"@ { Some(Instruction::Div) }
    else if t == "mod"@ { Some(Instruction::Mod) }
    else if t == "negate"@ { Some(Instruction::Neg) }
    else if t == "abs"@ { Some(Instruction::Abs) }
    else if t == "&"@ || t == "and"@ { Some(Instruction::And) }
    else if t == "|"@ || t == "or"@ { Some(Instruction::Or) }
    else if t == "^"@ || t == "xor"@ { Some(Instruction::Xor) }
    else if t == "~"@ || t == "not"@ || t == "invert"@ { Some(Instruction::Not) }
    else if t == "<<"@ || t == "lshift"@ { Some(Instruction::Shl) }
    else if t == ">>"@ || t == "rshift"@ { Some(Instruction::Shr) }
    else if t == "="@ { Some(Instruction::Eq) }
    else if t == "<>"@ { Some(Instruction::Ne) }
    else if t == "<"@ { Some(Instruction::Lt) }
    else if t == "<="@ { Some(Instruction::Le) }
    else if t == ">"@ { Some(Instruction::Gt) }
    else if t == ">="@ { Some(Instruction::Ge) }
    else if t == "0="@ { Some(Instruction::ZeroEq) }
    else if t == "0<"@ { Some(Instruction::ZeroLt) }
    else if t == "0>"@ { Some(Instruction::ZeroGt) }
    else if t == "return"@ { Some(Instruction::Return) }
    else if t == "@"@ || t == "fetch"@ { Some(Instruction::Load) }
    else if t == "!"@ || t == "store"@ { Some(Instruction::Store) }
    else { None }
}

/// Whether `t` marks a definition (`:` or `;` first) and is skipped.
pub open spec fn is_marker(t: Seq<char>) -> bool {
    t.len() > 0 && (t[0] == ':' || t[0] == ';')
}

/// `inst` is what the token `t` reads as.
pub open spec fn token_reads_as(t: Seq<char>, inst: Instruction) -> bool {
    match keyword_instruction(t) {
        Some(k) => inst == k,
        None => match spec_parse_i64(t) {
            Some(n) => inst == Instruction::Literal(n),
            None => !is_marker(t) && (inst matches Instruction::Call(name) && name@ == t),
        },
    }
}

/// The token `t` produces no instruction.
pub open spec fn token_skipped(t: Seq<char>) -> bool {
    keyword_instruction(t) is None && spec_parse_i64(t) is None && is_marker(t)
}

/// `insts` is what the tokens `ts` read as, in order, skipped tokens dropped.
pub open spec fn reads_as(ts: Seq<Seq<char>>, insts: Seq<Instruction>) -> bool
    decreases ts.len(),
{
    if ts.len() == 0 {
        insts.len() == 0
    } else if token_skipped(ts.last()) {
        reads_as(ts.drop_last(), insts)
    } else {
        insts.len() > 0 && token_reads_as(ts.last(), insts.last()) && reads_as(ts.drop_last(), insts.drop_last())
    }
}

/// The instruction a token reads as, or `None` for a skipped marker.
pub fn token_instruction(t: &[char]) -> (r: Option<Instruction>)
    ensures
        match r {
            Some(i) => token_reads_as(t@, i),
            None => token_skipped(t@),
        },
{
    let k = keyword_of(t);
    match k {
        Some(i) => Some(i),
        None => {
            match parse_i64(t) {
                Some(n) => Some(Instruction::Literal(n)),
                None => {
                    if t.len() > 0 && (t[0] == ':' || t[0] == ';') {
                        None
                    } else {
                        Some(Instruction::Call(string_from_chars(t)))
                    }
                }
            }
        }
    }
}

/// The instruction a known word token stands for.
pub fn keyword_of(t: &[char]) -> (r: Option<Instruction>)
    ensures
        r == keyword_instruction(t@),
{
    if eq_lit(t, "dup") { Some(Instruction::Dup) }
    else if eq_lit(t, "drop") { Some(Instruction::Drop) }
    else if eq_lit(t, "swap") { Some(Instruction::Swap) }
    else if eq_lit(t, "over") { Some(Instruction::Over) }
    else if eq_lit(t, "rot") { Some(Instruction::Rot) }
    else if eq_lit(t, "nip") { Some(Instruction::Nip) }
    else if eq_lit(t, "tuck") { Some(Instruction::Tuck) }
    else if eq_lit(t, "+") { Some(Instruction::Add) }
    else if eq_lit(t, "-") { Some(Instruction::Sub) }
    else if eq_lit(t, "*") { Some(Instruction::Mul) }
    else if eq_lit(t, "/") { Some(Instruction::Div) }
    else if eq_lit(t, "mod") { Some(Instruction::Mod) }
    else if eq_lit(t, "negate") { Some(Instruction::Neg) }
    else if eq_lit(t, "abs") { Some(Instruction::Abs) }
    else if eq_lit(t, "&") || eq_lit(t, "and") { Some(Instruction::And) }
    else if eq_lit(t, "|") || eq_lit(t, "or") { Some(Instruction::Or) }
    else if eq_lit(t, "^") || eq_lit(t, "xor") { Some(Instruction::Xor) }
    else if eq_lit(t, "~") || eq_lit(t, "not") || eq_lit(t, "invert") { Some(Instruction::Not) }
    else if eq_lit(t, "<<") || eq_lit(t, "lshift") { Some(Instruction::Shl) }
    else if eq_lit(t, ">>") || eq_lit(t, "rshift") { Some(Instruction::Shr) }
    else if eq_lit(t, "=") { Some(Instruction::Eq) }
    else if eq_lit(t, "<>") { Some(Instruction::Ne) }
    else if eq_lit(t, "<") { Some(Instruction::Lt) }
    else if eq_lit(t, "<=") { Some(Instruction::Le) }
    else if eq_lit(t, ">") { Some(Instruction::Gt) }
    else if eq_lit(t, ">=") { Some(Instruction::Ge) }
    else if eq_lit(t, "0=") { Some(Instruction::ZeroEq) }
    else if eq_lit(t, "0<") { Some(Instruction::ZeroLt) }
    else if eq_lit(t, "0>") { Some(Instruction::ZeroGt) }
    else if eq_lit(t, "return") { Some(Instruction::Return) }
    else if eq_lit(t, "@") || eq_lit(t, "fetch") { Some(Instruction::Load) }
    else if eq_lit(t, "!") || eq_lit(t, "store") { Some(Instruction::Store) }
    else { None }
}

impl ForthIR {
    /// The word named `name`, to change in place.
    pub fn get_word_mut(&mut self, name: &String) -> (r: Option<&mut WordDef>)
        requires
            old(self).wf(),
        ensures
            match word_index(old(self).words@, name@) {
                Some(i) => r matches Some(w) && *w == old(self).words@[i]
                    && final(self).words@ == old(self).words@.update(i, *final(w))
                    && final(self).main == old(self).main,
                None => r is None && *final(self) == *old(self),
            },
    {
        match self.find_word(name) {
            Some(i) => Some(&mut self.words[i]),
            None => None,
        }
    }
}

impl Default for ForthIR {
    fn default() -> (r: Self)
        ensures
            r.words@.len() == 0,
            r.main@.len() == 0,
            r.wf(),
    {
        ForthIR::new()
    }
}

} // verus!
