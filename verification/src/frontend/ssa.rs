//! Conversion of Forth definitions to SSA form: every stack value gets a
//! register of its own and every operation becomes an explicit instruction.
use vstd::prelude::*;
use crate::text::{chars_of, eq_lit, push_str, usize_text, decimal_text};
use crate::frontend::ast::{Word, Definition, Program, StackEffect, StackType, SourceLocation};
use crate::frontend::error::ForthError;
use crate::optimizer::type_specialization::{assoc_map, distinct_keys, lemma_assoc_map_dom, lemma_assoc_map_at,
    lemma_assoc_map_update, lemma_distinct_push};
use crate::optimizer::ir::{Instruction, keyword_instruction};
use crate::optimizer::semantics::exec_instr;
use crate::optimizer::arith::{spec_wrapping_div, spec_wrapping_rem, spec_wrapping_neg, spec_wrapping_abs};

verus! {

/// An SSA register.
#[derive(Debug, Clone, Copy, PartialEq, Eq, Hash, Structural)]
pub struct Register(pub usize);

/// A basic block's identifier.
#[derive(Debug, Clone, Copy, PartialEq, Eq, Hash, Structural)]
pub struct BlockId(pub usize);

/// Binary operators.
#[derive(Debug, Clone, Copy, PartialEq, Eq, Structural)]
pub enum BinaryOperator {
    Add,
    Sub,
    Mul,
    Div,
    Mod,
    Lt,
    Gt,
    Le,
    Ge,
    Eq,
    Ne,
    And,
    Or,
}

/// Unary operators.
#[derive(Debug, Clone, Copy, PartialEq, Eq, Structural)]
pub enum UnaryOperator {
    Negate,
    Not,
    Abs,
}

/// An SSA instruction.
#[derive(Debug, Clone, PartialEq)]
pub enum SSAInstruction {
    LoadInt { dest: Register, value: i64 },
    /// A floating-point constant, kept as its source text.
    LoadFloat { dest: Register, value: String },
    /// A string literal: its address and its length.
    LoadString { dest_addr: Register, dest_len: Register, value: String },
    BinaryOp { dest: Register, op: BinaryOperator, left: Register, right: Register },
    UnaryOp { dest: Register, op: UnaryOperator, operand: Register },
    Call { dest: Vec<Register>, name: String, args: Vec<Register> },
    Branch { condition: Register, true_block: BlockId, false_block: BlockId },
    Jump { target: BlockId },
    Return { values: Vec<Register> },
    Phi { dest: Register, incoming: Vec<(BlockId, Register)> },
    Load { dest: Register, address: Register, ty: StackType },
    Store { address: Register, value: Register, ty: StackType },
    FFICall { dest: Vec<Register>, function: String, args: Vec<Register> },
    FileOpen { dest_fileid: Register, dest_ior: Register, path_addr: Register, path_len: Register, mode: Register },
    FileRead { dest_bytes: Register, dest_ior: Register, buffer: Register, count: Register, fileid: Register },
    FileWrite { dest_ior: Register, buffer: Register, count: Register, fileid: Register },
    FileClose { dest_ior: Register, fileid: Register },
    FileDelete { dest_ior: Register, path_addr: Register, path_len: Register },
    FileCreate { dest_fileid: Register, dest_ior: Register, path_addr: Register, path_len: Register, mode: Register },
    SystemCall { dest: Register, command_addr: Register, command_len: Register },
}

/// A basic block.
#[derive(Debug, Clone)]
pub struct BasicBlock {
    pub id: BlockId,
    pub instructions: Vec<SSAInstruction>,
    pub predecessors: Vec<BlockId>,
}

impl BasicBlock {
    pub fn new(id: BlockId) -> (r: Self)
        ensures
            r.id == id,
            r.instructions@.len() == 0,
            r.predecessors@.len() == 0,
    {
        BasicBlock { id, instructions: Vec::new(), predecessors: Vec::new() }
    }
}

/// A function in SSA form.
#[derive(Debug, Clone)]
pub struct SSAFunction {
    pub name: String,
    pub parameters: Vec<Register>,
    pub blocks: Vec<BasicBlock>,
    pub entry_block: BlockId,
}

/// The registers `%0` to `%(n-1)`, in order.
pub open spec fn first_registers(n: int) -> Seq<Register> {
    Seq::new(n as nat, |i: int| Register(i as usize))
}

impl SSAFunction {
    /// A function with `param_count` parameters `%0 ..` and one empty entry block `bb0`.
    pub fn new(name: String, param_count: usize) -> (r: Self)
        ensures
            r.name == name,
            r.parameters@ == first_registers(param_count as int),
            r.blocks@.len() == 1,
            r.blocks@[0].id == BlockId(0),
            r.blocks@[0].instructions@.len() == 0,
            r.entry_block == BlockId(0),
    {
        let mut parameters: Vec<Register> = Vec::new();
        let mut i: usize = 0;
        while i < param_count
            invariant
                i <= param_count,
                parameters@ == first_registers(i as int),
            decreases param_count - i,
        {
            parameters.push(Register(i));
            i = i + 1;
            assert(parameters@ =~= first_registers(i as int));
        }
        let mut blocks: Vec<BasicBlock> = Vec::new();
        blocks.push(BasicBlock::new(BlockId(0)));
        SSAFunction { name, parameters, blocks, entry_block: BlockId(0) }
    }
}

/// An instruction as a specification states it: instructions that hold a
/// name or a list are given by their parts.
pub enum InstSpec {
    Plain(SSAInstruction),
    LoadString(Register, Register, Seq<char>),
    Call(Seq<Register>, Seq<char>, Seq<Register>),
    LoadFloat(Register, Seq<char>),
    Phi(Register, Seq<(BlockId, Register)>),
    Return(Seq<Register>),
}

/// `e` is the instruction `s` states.
pub open spec fn inst_is(e: SSAInstruction, s: InstSpec) -> bool {
    match s {
        InstSpec::Plain(x) => e == x,
        InstSpec::LoadString(a, l, v) => e matches SSAInstruction::LoadString { dest_addr, dest_len, value }
            && dest_addr == a && dest_len == l && value@ == v,
        InstSpec::Call(d, n, a) => e matches SSAInstruction::Call { dest, name, args }
            && dest@ == d && name@ == n && args@ == a,
        InstSpec::LoadFloat(d, v) => e matches SSAInstruction::LoadFloat { dest, value } && dest == d && value@ == v,
        InstSpec::Phi(d, xs) => e matches SSAInstruction::Phi { dest, incoming } && dest == d && incoming@ == xs,
        InstSpec::Return(vs) => e matches SSAInstruction::Return { values } && values@ == vs,
    }
}

/// `new` is `old` followed by instructions as `es` states them.
pub open spec fn emitted_as(old: Seq<SSAInstruction>, new: Seq<SSAInstruction>, es: Seq<InstSpec>) -> bool {
    &&& new.len() == old.len() + es.len()
    &&& new.take(old.len() as int) == old
    &&& forall|k: int| 0 <= k < es.len() ==> inst_is(#[trigger] new[old.len() + k], es[k])
}

/// The register with number `n`.
pub open spec fn reg(n: int) -> Register {
    Register(n as usize)
}

/// The binary operator a word names.
pub open spec fn binary_op_of(n: Seq<char>) -> Option<BinaryOperator> {
    if n == "+"@ { Some(BinaryOperator::Add) }
    else if n == "-"@ { Some(BinaryOperator::Sub) }
    else if n == "*"@ { Some(BinaryOperator::Mul) }
    else if n == "/"@ { Some(BinaryOperator::Div) }
    else if n == "mod"@ { Some(BinaryOperator::Mod) }
    else if n == "<"@ { Some(BinaryOperator::Lt) }
    else if n == ">"@ { Some(BinaryOperator::Gt) }
    else if n == "<="@ { Some(BinaryOperator::Le) }
    else if n == ">="@ { Some(BinaryOperator::Ge) }
    else if n == "="@ { Some(BinaryOperator::Eq) }
    else if n == "<>"@ { Some(BinaryOperator::Ne) }
    else if n == "and"@ { Some(BinaryOperator::And) }
    else if n == "or"@ { Some(BinaryOperator::Or) }
    else { None }
}

/// The unary operator a word names.
pub open spec fn unary_op_of(n: Seq<char>) -> Option<UnaryOperator> {
    if n == "not"@ { Some(UnaryOperator::Not) }
    else if n == "negate"@ { Some(UnaryOperator::Negate) }
    else if n == "abs"@ { Some(UnaryOperator::Abs) }
    else { None }
}

/// The text a binary operator displays.
pub open spec fn binop_text(op: BinaryOperator) -> Seq<char> {
    match op {
        BinaryOperator::Add => "add"@,
        BinaryOperator::Sub => "sub"@,
        BinaryOperator::Mul => "mul"@,
        BinaryOperator::Div => "div"@,
        BinaryOperator::Mod => "mod"@,
        BinaryOperator::Lt => "lt"@,
        BinaryOperator::Gt => "gt"@,
        BinaryOperator::Le => "le"@,
        BinaryOperator::Ge => "ge"@,
        BinaryOperator::Eq => "eq"@,
        BinaryOperator::Ne => "ne"@,
        BinaryOperator::And => "and"@,
        BinaryOperator::Or => "or"@,
    }
}

/// The text a unary operator displays.
pub open spec fn unop_text(op: UnaryOperator) -> Seq<char> {
    match op {
        UnaryOperator::Negate => "neg"@,
        UnaryOperator::Not => "not"@,
        UnaryOperator::Abs => "abs"@,
    }
}

impl BinaryOperator {
    /// The text this operator displays.
    pub fn display_text(&self) -> (r: &'static str)
        ensures
            r@ == binop_text(*self),
    {
        match self {
            BinaryOperator::Add => "add",
            BinaryOperator::Sub => "sub",
            BinaryOperator::Mul => "mul",
            BinaryOperator::Div => "div",
            BinaryOperator::Mod => "mod",
            BinaryOperator::Lt => "lt",
            BinaryOperator::Gt => "gt",
            BinaryOperator::Le => "le",
            BinaryOperator::Ge => "ge",
            BinaryOperator::Eq => "eq",
            BinaryOperator::Ne => "ne",
            BinaryOperator::And => "and",
            BinaryOperator::Or => "or",
        }
    }
}

impl UnaryOperator {
    /// The text this operator displays.
    pub fn display_text(&self) -> (r: &'static str)
        ensures
            r@ == unop_text(*self),
    {
        match self {
            UnaryOperator::Negate => "neg",
            UnaryOperator::Not => "not",
            UnaryOperator::Abs => "abs",
        }
    }
}

/// What converting one word call does: the new stack, the instructions
/// emitted and the number of registers allocated; or the error.
pub enum CallOutcome {
    Done(Seq<Register>, Seq<InstSpec>, int),
    Underflow(Seq<char>, int, int, int),
    OutsideDefinition,
}

/// Number of parameters recorded for a word (0 for a word not recorded).
pub open spec fn param_count_of(params: Map<Seq<char>, usize>, n: Seq<char>) -> int {
    if params.dom().contains(n) { params[n] as int } else { 0 }
}

/// A call of a word taking `pc` arguments from the stack: the arguments in
/// order, replaced by one result register.
pub open spec fn generic_call(callee: Seq<char>, word: Seq<char>, pc: int, st: Seq<Register>, next: int) -> CallOutcome {
    if st.len() < pc {
        CallOutcome::Underflow(word, pc, st.len() as int, 0)
    } else {
        let args = st.subrange(st.len() - pc, st.len() as int);
        CallOutcome::Done(st.take(st.len() - pc).push(reg(next)),
            seq![InstSpec::Call(seq![reg(next)], callee, args)], 1)
    }
}

/// What converting a call of the word `n` does to the stack `st`, with
/// registers allocated from `next`, the recorded parameter counts `params`
/// and the function being converted `current`.
pub open spec fn call_spec(n: Seq<char>, st: Seq<Register>, next: int, params: Map<Seq<char>, usize>,
    current: Option<Seq<char>>) -> CallOutcome
{
    let len = st.len() as int;
    let r0 = reg(next);
    let r1 = reg(next + 1);
    if binary_op_of(n) is Some {
        let op = binary_op_of(n)->0;
        if len < 2 {
            CallOutcome::Underflow(binop_text(op), 2, len, 0)
        } else {
            CallOutcome::Done(st.take(len - 2).push(r0),
                seq![InstSpec::Plain(SSAInstruction::BinaryOp { dest: r0, op, left: st[len - 2], right: st[len - 1] })], 1)
        }
    } else if unary_op_of(n) is Some {
        let op = unary_op_of(n)->0;
        if len < 1 {
            CallOutcome::Underflow(unop_text(op), 1, 0, 0)
        } else {
            CallOutcome::Done(st.take(len - 1).push(r0),
                seq![InstSpec::Plain(SSAInstruction::UnaryOp { dest: r0, op, operand: st[len - 1] })], 1)
        }
    } else if n == "dup"@ {
        if len < 1 { CallOutcome::Underflow(n, 1, 0, 0) } else { CallOutcome::Done(st.push(st[len - 1]), seq![], 0) }
    } else if n == "drop"@ {
        if len < 1 { CallOutcome::Underflow(n, 1, 0, 0) } else { CallOutcome::Done(st.take(len - 1), seq![], 0) }
    } else if n == "swap"@ {
        if len < 2 { CallOutcome::Underflow(n, 2, len, 0) }
        else { CallOutcome::Done(st.take(len - 2).push(st[len - 1]).push(st[len - 2]), seq![], 0) }
    } else if n == "over"@ {
        if len < 2 { CallOutcome::Underflow(n, 2, len, 0) } else { CallOutcome::Done(st.push(st[len - 2]), seq![], 0) }
    } else if n == "rot"@ {
        if len < 3 { CallOutcome::Underflow(n, 3, len, 0) }
        else { CallOutcome::Done(st.take(len - 3).push(st[len - 2]).push(st[len - 1]).push(st[len - 3]), seq![], 0) }
    } else if n == "@"@ {
        if len < 1 { CallOutcome::Underflow(n, 1, 0, 0) }
        else {
            CallOutcome::Done(st.take(len - 1).push(r0),
                seq![InstSpec::Plain(SSAInstruction::Load { dest: r0, address: st[len - 1], ty: StackType::Int })], 1)
        }
    } else if n == "!"@ {
        if len < 2 { CallOutcome::Underflow(n, 2, len, 0) }
        else {
            CallOutcome::Done(st.take(len - 2),
                seq![InstSpec::Plain(SSAInstruction::Store { address: st[len - 1], value: st[len - 2], ty: StackType::Int })], 0)
        }
    } else if n == ">r"@ {
        if len < 1 { CallOutcome::Underflow(n, 1, 0, 1) }
        else { CallOutcome::Done(st.take(len - 1), seq![InstSpec::Call(seq![r0], n, seq![st[len - 1]])], 1) }
    } else if n == "r>"@ || n == "r@"@ || n == "i"@ || n == "j"@ {
        CallOutcome::Done(st.push(r0), seq![InstSpec::Call(seq![r0], n, seq![])], 1)
    } else if n == "."@ || n == "emit"@ || n == "cr"@ {
        if len < 1 { CallOutcome::Underflow(n, 1, 0, 0) }
        else { CallOutcome::Done(st.take(len - 1), seq![InstSpec::Call(seq![], n, seq![st[len - 1]])], 0) }
    } else if n == "r/o"@ || n == "w/o"@ || n == "r/w"@ {
        let mode = if n == "r/o"@ { "r"@ } else if n == "w/o"@ { "w"@ } else { "r+"@ };
        CallOutcome::Done(st.push(r0).push(r1), seq![InstSpec::LoadString(r0, r1, mode)], 2)
    } else if n == "create-file"@ || n == "open-file"@ {
        if len < 4 { CallOutcome::Underflow(n, 4, len, 0) }
        else {
            let i = if n == "create-file"@ {
                SSAInstruction::FileCreate { dest_fileid: r0, dest_ior: r1, path_addr: st[len - 4], path_len: st[len - 3], mode: st[len - 2] }
            } else {
                SSAInstruction::FileOpen { dest_fileid: r0, dest_ior: r1, path_addr: st[len - 4], path_len: st[len - 3], mode: st[len - 2] }
            };
            CallOutcome::Done(st.take(len - 4).push(r0).push(r1), seq![InstSpec::Plain(i)], 2)
        }
    } else if n == "read-file"@ {
        if len < 3 { CallOutcome::Underflow(n, 3, len, 0) }
        else {
            CallOutcome::Done(st.take(len - 3).push(r0).push(r1), seq![InstSpec::Plain(SSAInstruction::FileRead {
                dest_bytes: r0, dest_ior: r1, buffer: st[len - 3], count: st[len - 2], fileid: st[len - 1] })], 2)
        }
    } else if n == "write-file"@ {
        if len < 3 { CallOutcome::Underflow(n, 3, len, 0) }
        else {
            CallOutcome::Done(st.take(len - 3).push(r0), seq![InstSpec::Plain(SSAInstruction::FileWrite {
                dest_ior: r0, buffer: st[len - 3], count: st[len - 2], fileid: st[len - 1] })], 1)
        }
    } else if n == "close-file"@ {
        if len < 1 { CallOutcome::Underflow(n, 1, 0, 0) }
        else {
            CallOutcome::Done(st.take(len - 1).push(r0),
                seq![InstSpec::Plain(SSAInstruction::FileClose { dest_ior: r0, fileid: st[len - 1] })], 1)
        }
    } else if n == "delete-file"@ {
        if len < 2 { CallOutcome::Underflow(n, 2, len, 0) }
        else {
            CallOutcome::Done(st.take(len - 2).push(r0), seq![InstSpec::Plain(SSAInstruction::FileDelete {
                dest_ior: r0, path_addr: st[len - 2], path_len: st[len - 1] })], 1)
        }
    } else if n == "system"@ {
        if len < 2 { CallOutcome::Underflow(n, 2, len, 0) }
        else {
            CallOutcome::Done(st.take(len - 2).push(r0), seq![InstSpec::Plain(SSAInstruction::SystemCall {
                dest: r0, command_addr: st[len - 2], command_len: st[len - 1] })], 1)
        }
    } else if n == "execute"@ {
        if len > 0 {
            CallOutcome::Done(st.take(len - 1).push(r0), seq![InstSpec::Call(seq![r0], n, seq![st[len - 1]])], 1)
        } else {
            CallOutcome::Done(st.push(r0), seq![InstSpec::Call(seq![r0], n, seq![])], 1)
        }
    } else if n == "char"@ {
        CallOutcome::Done(st.push(r0), seq![InstSpec::Call(seq![r0], n, seq![])], 1)
    } else if n == "recurse"@ {
        match current {
            None => CallOutcome::OutsideDefinition,
            Some(f) => generic_call(f, n, param_count_of(params, f), st, next),
        }
    } else {
        generic_call(n, n, param_count_of(params, n), st, next)
    }
}

/// The blocks after emitting `es` into the block `cur`.
pub open spec fn blocks_emitted(old: Seq<BasicBlock>, new: Seq<BasicBlock>, cur: int, es: Seq<InstSpec>) -> bool {
    &&& new.len() == old.len()
    &&& forall|i: int| 0 <= i < old.len() && i != cur ==> new[i] == old[i]
    &&& new[cur].id == old[cur].id
    &&& new[cur].predecessors@ == old[cur].predecessors@
    &&& emitted_as(old[cur].instructions@, new[cur].instructions@, es)
}

/// The converter from stack code to SSA.
pub struct SSAConverter {
    pub next_register: usize,
    pub next_block: usize,
    pub current_block: BlockId,
    pub blocks: Vec<BasicBlock>,
    /// Parameter count of each word converted or announced.
    pub function_params: Vec<(String, usize)>,
    /// The word being converted (for `recurse`).
    pub current_function_name: Option<String>,
}

/// The recorded parameter counts, by word name.
pub open spec fn params_view(v: Seq<(String, usize)>) -> Map<Seq<char>, usize> {
    assoc_map(v.map_values(|e: (String, usize)| (e.0@, e.1)))
}

impl SSAConverter {
    /// Block `i` has the identifier `i`, there is one block per allocated
    /// identifier, the current block exists, and parameter counts are keyed
    /// by distinct names.
    pub open spec fn wf(&self) -> bool {
        &&& self.blocks@.len() == self.next_block
        &&& forall|i: int| 0 <= i < self.blocks@.len() ==> (#[trigger] self.blocks@[i]).id == BlockId(i as usize)
        &&& distinct_keys(self.function_params@.map_values(|e: (String, usize)| (e.0@, e.1)))
    }

    /// Well formed, with a current block to emit into.
    pub open spec fn ready(&self) -> bool {
        &&& self.wf()
        &&& self.current_block.0 < self.blocks@.len()
    }

    pub open spec fn params(&self) -> Map<Seq<char>, usize> {
        params_view(self.function_params@)
    }

    pub open spec fn current_name(&self) -> Option<Seq<char>> {
        match self.current_function_name {
            Some(n) => Some(n@),
            None => None,
        }
    }

    /// A converter with no blocks, no registers and no recorded words.
    pub fn new() -> (r: Self)
        ensures
            r.next_register == 0,
            r.next_block == 0,
            r.current_block == BlockId(0),
            r.blocks@.len() == 0,
            r.function_params@.len() == 0,
            r.current_function_name is None,
    {
        SSAConverter {
            next_register: 0,
            next_block: 0,
            current_block: BlockId(0),
            blocks: Vec::new(),
            function_params: Vec::new(),
            current_function_name: None,
        }
    }

    /// A fresh register.
    fn fresh_register(&mut self) -> (r: Register)
        requires
            old(self).next_register < usize::MAX,
        ensures
            r == Register(old(self).next_register),
            *final(self) == (SSAConverter { next_register: (old(self).next_register + 1) as usize, ..*old(self) }),
    {
        let r = Register(self.next_register);
        self.next_register = self.next_register + 1;
        r
    }

    /// Appends an instruction to the current block.
    fn emit(&mut self, instruction: SSAInstruction)
        requires
            old(self).ready(),
        ensures
            final(self).ready(),
            final(self).blocks@.len() == old(self).blocks@.len(),
            forall|i: int| 0 <= i < old(self).blocks@.len() && i != old(self).current_block.0
                ==> final(self).blocks@[i] == old(self).blocks@[i],
            final(self).blocks@[old(self).current_block.0 as int].id == old(self).blocks@[old(self).current_block.0 as int].id,
            final(self).blocks@[old(self).current_block.0 as int].predecessors@
                == old(self).blocks@[old(self).current_block.0 as int].predecessors@,
            final(self).blocks@[old(self).current_block.0 as int].instructions@
                == old(self).blocks@[old(self).current_block.0 as int].instructions@.push(instruction),
            final(self).next_register == old(self).next_register,
            final(self).next_block == old(self).next_block,
            final(self).current_block == old(self).current_block,
            final(self).function_params == old(self).function_params,
            final(self).current_function_name == old(self).current_function_name,
    {
        let c = self.current_block.0;
        self.blocks[c].instructions.push(instruction);
    }

    /// Makes `id` the current block.
    fn set_current_block(&mut self, id: BlockId)
        ensures
            *final(self) == (SSAConverter { current_block: id, ..*old(self) }),
    {
        self.current_block = id;
    }

    /// A new empty block, appended.
    fn create_block(&mut self) -> (r: BlockId)
        requires
            old(self).wf(),
            old(self).next_block < usize::MAX,
        ensures
            final(self).wf(),
            old(self).ready() ==> final(self).ready(),
            r == BlockId(old(self).next_block),
            final(self).blocks@.len() == old(self).blocks@.len() + 1,
            final(self).blocks@.take(old(self).blocks@.len() as int) == old(self).blocks@,
            final(self).blocks@.last().instructions@.len() == 0,
            final(self).next_block == old(self).next_block + 1,
            final(self).next_register == old(self).next_register,
            final(self).current_block == old(self).current_block,
            final(self).function_params == old(self).function_params,
            final(self).current_function_name == old(self).current_function_name,
    {
        let id = BlockId(self.next_block);
        self.next_block = self.next_block + 1;
        self.blocks.push(BasicBlock::new(id));
        assert(self.blocks@.take(self.blocks@.len() - 1) =~= old(self).blocks@);
        id
    }

    /// The parameter count recorded for `name`, or 0.
    fn param_count(&self, name: &String) -> (r: usize)
        requires
            self.wf(),
        ensures
            r == param_count_of(self.params(), name@),
    {
        let ghost e = self.function_params@.map_values(|e: (String, usize)| (e.0@, e.1));
        proof { lemma_assoc_map_dom(e, name@); }
        let mut i: usize = 0;
        while i < self.function_params.len()
            invariant
                i <= self.function_params.len(),
                self.wf(),
                e == self.function_params@.map_values(|e: (String, usize)| (e.0@, e.1)),
                forall|j: int| 0 <= j < i ==> self.function_params@[j].0@ != name@,
            decreases self.function_params.len() - i,
        {
            if self.function_params[i].0 == *name {
                proof { lemma_assoc_map_at(e, i as int); }
                return self.function_params[i].1;
            }
            i = i + 1;
        }
        proof {
            assert forall|j: int| 0 <= j < e.len() implies e[j].0 != name@ by {
                assert(e[j].0 == self.function_params@[j].0@);
            }
        }
        0
    }

    /// Records the parameter count of `name`.
    fn set_param_count(&mut self, name: String, count: usize)
        requires
            old(self).wf(),
        ensures
            final(self).wf(),
            final(self).params() == old(self).params().insert(name@, count),
            *final(self) == (SSAConverter { function_params: final(self).function_params, ..*old(self) }),
    {
        let ghost e0 = self.function_params@.map_values(|e: (String, usize)| (e.0@, e.1));
        let mut i: usize = 0;
        while i < self.function_params.len()
            invariant
                i <= self.function_params.len(),
                self.function_params@ == old(self).function_params@,
                *self == *old(self),
                self.wf(),
                e0 == self.function_params@.map_values(|e: (String, usize)| (e.0@, e.1)),
                forall|j: int| 0 <= j < i ==> self.function_params@[j].0@ != name@,
            decreases self.function_params.len() - i,
        {
            if self.function_params[i].0 == name {
                let ghost en = (name@, count);
                self.function_params.set(i, (name, count));
                proof {
                    lemma_assoc_map_update(e0, i as int, en);
                    assert(self.function_params@.map_values(|e: (String, usize)| (e.0@, e.1)) =~= e0.update(i as int, en));
                }
                return;
            }
            i = i + 1;
        }
        let ghost en = (name@, count);
        self.function_params.push((name, count));
        proof {
            let e1 = self.function_params@.map_values(|e: (String, usize)| (e.0@, e.1));
            assert(e1 =~= e0.push(en));
            assert(e1.drop_last() =~= e0);
            assert forall|j: int| 0 <= j < e0.len() implies e0[j].0 != en.0 by {
                assert(e0[j].0 == old(self).function_params@[j].0@);
            }
            lemma_distinct_push(e0, en);
        }
    }
}

/// `f` and `fs` are the converter and stack after converting a call whose
/// outcome is `out`, from `o` and `os`; `r` is what the conversion returned.
pub open spec fn call_result(o: SSAConverter, f: SSAConverter, os: Seq<Register>, fs: Seq<Register>,
    r: Result<(), ForthError>, out: CallOutcome) -> bool
{
    &&& o.wf() ==> f.wf()
    &&& o.ready() ==> f.ready()
    &&& f.next_block == o.next_block
    &&& f.current_block == o.current_block
    &&& f.function_params == o.function_params
    &&& f.current_function_name == o.current_function_name
    &&& f.next_register >= o.next_register
    &&& match out {
        CallOutcome::Done(ns, es, u) => r is Ok && fs == ns && f.next_register == o.next_register + u
            && blocks_emitted(o.blocks@, f.blocks@, o.current_block.0 as int, es),
        CallOutcome::Underflow(w, e, fd, u) => r matches Err(ForthError::StackUnderflow { word, expected, found })
            && word@ == w && expected == e && found == fd && fs == os && f.blocks == o.blocks
            && f.next_register == o.next_register + u,
        CallOutcome::OutsideDefinition => r matches Err(ForthError::SSAConversionError { message })
            && message@ == "RECURSE used outside of word definition"@ && fs == os && f == o,
    }
}

/// The call emits instructions, so it needs a current block.
pub open spec fn call_emits(out: CallOutcome) -> bool {
    out matches CallOutcome::Done(_, es, _) && es.len() > 0
}

pub proof fn lemma_emitted_none(b: Seq<BasicBlock>, cur: int)
    ensures
        blocks_emitted(b, b, cur, seq![]),
{
    assert(b[cur].instructions@.take(b[cur].instructions@.len() as int) =~= b[cur].instructions@);
}

pub proof fn lemma_emitted_one(b: Seq<BasicBlock>, b2: Seq<BasicBlock>, cur: int, inst: SSAInstruction, spec: InstSpec)
    requires
        0 <= cur < b.len(),
        b2.len() == b.len(),
        forall|i: int| 0 <= i < b.len() && i != cur ==> b2[i] == b[i],
        b2[cur].id == b[cur].id,
        b2[cur].predecessors@ == b[cur].predecessors@,
        b2[cur].instructions@ == b[cur].instructions@.push(inst),
        inst_is(inst, spec),
    ensures
        blocks_emitted(b, b2, cur, seq![spec]),
{
    let old_i = b[cur].instructions@;
    assert(b2[cur].instructions@.take(old_i.len() as int) =~= old_i);
    assert(b2[cur].instructions@[old_i.len() + 0int] == inst);
}

/// The binary operator a word names.
fn binary_op_named(cs: &Vec<char>) -> (r: Option<BinaryOperator>)
    ensures
        r == binary_op_of(cs@),
{
    if eq_lit(cs, "+") { Some(BinaryOperator::Add) }
    else if eq_lit(cs, "-") { Some(BinaryOperator::Sub) }
    else if eq_lit(cs, "*") { Some(BinaryOperator::Mul) }
    else if eq_lit(cs, "/") { Some(BinaryOperator::Div) }
    else if eq_lit(cs, "mod") { Some(BinaryOperator::Mod) }
    else if eq_lit(cs, "<") { Some(BinaryOperator::Lt) }
    else if eq_lit(cs, ">") { Some(BinaryOperator::Gt) }
    else if eq_lit(cs, "<=") { Some(BinaryOperator::Le) }
    else if eq_lit(cs, ">=") { Some(BinaryOperator::Ge) }
    else if eq_lit(cs, "=") { Some(BinaryOperator::Eq) }
    else if eq_lit(cs, "<>") { Some(BinaryOperator::Ne) }
    else if eq_lit(cs, "and") { Some(BinaryOperator::And) }
    else if eq_lit(cs, "or") { Some(BinaryOperator::Or) }
    else { None }
}

/// The unary operator a word names.
fn unary_op_named(cs: &Vec<char>) -> (r: Option<UnaryOperator>)
    ensures
        r == unary_op_of(cs@),
{
    if eq_lit(cs, "not") { Some(UnaryOperator::Not) }
    else if eq_lit(cs, "negate") { Some(UnaryOperator::Negate) }
    else if eq_lit(cs, "abs") { Some(UnaryOperator::Abs) }
    else { None }
}

/// A stack underflow error.
fn underflow(word: &str, expected: usize, found: usize) -> (r: ForthError)
    ensures
        r matches ForthError::StackUnderflow { word: w, expected: e, found: f } && w@ == word@ && e == expected && f == found,
{
    ForthError::StackUnderflow { word: word.to_owned(), expected, found }
}

/// A list of one register.
fn one(r: Register) -> (v: Vec<Register>)
    ensures
        v@ == seq![r],
{
    let mut v: Vec<Register> = Vec::new();
    v.push(r);
    v
}

impl SSAConverter {
    /// A binary operation on the two top items.
    fn convert_binary_op(&mut self, op: BinaryOperator, stack: &mut Vec<Register>) -> (r: Result<(), ForthError>)
        requires
            old(self).wf(),
            old(self).ready() || old(stack)@.len() < 2,
            old(self).next_register < usize::MAX,
        ensures
            call_result(*old(self), *final(self), old(stack)@, final(stack)@, r, {
                let st = old(stack)@;
                let len = st.len() as int;
                let r0 = reg(old(self).next_register as int);
                if len < 2 {
                    CallOutcome::Underflow(binop_text(op), 2, len, 0)
                } else {
                    CallOutcome::Done(st.take(len - 2).push(r0),
                        seq![InstSpec::Plain(SSAInstruction::BinaryOp { dest: r0, op, left: st[len - 2], right: st[len - 1] })], 1)
                }
            }),
    {
        if stack.len() < 2 {
            return Err(underflow(op.display_text(), 2, stack.len()));
        }
        let ghost st = stack@;
        let right = stack.pop().unwrap();
        let left = stack.pop().unwrap();
        let dest = self.fresh_register();
        let ghost b0 = self.blocks@;
        let inst = SSAInstruction::BinaryOp { dest, op, left, right };
        self.emit(inst);
        stack.push(dest);
        proof {
            assert(stack@ =~= st.take(st.len() - 2).push(dest));
            lemma_emitted_one(b0, self.blocks@, self.current_block.0 as int, inst, InstSpec::Plain(inst));
        }
        Ok(())
    }

    /// A unary operation on the top item.
    fn convert_unary_op(&mut self, op: UnaryOperator, stack: &mut Vec<Register>) -> (r: Result<(), ForthError>)
        requires
            old(self).wf(),
            old(self).ready() || old(stack)@.len() < 1,
            old(self).next_register < usize::MAX,
        ensures
            call_result(*old(self), *final(self), old(stack)@, final(stack)@, r, {
                let st = old(stack)@;
                let len = st.len() as int;
                let r0 = reg(old(self).next_register as int);
                if len < 1 {
                    CallOutcome::Underflow(unop_text(op), 1, 0, 0)
                } else {
                    CallOutcome::Done(st.take(len - 1).push(r0),
                        seq![InstSpec::Plain(SSAInstruction::UnaryOp { dest: r0, op, operand: st[len - 1] })], 1)
                }
            }),
    {
        if stack.len() < 1 {
            return Err(underflow(op.display_text(), 1, 0));
        }
        let ghost st = stack@;
        let operand = stack.pop().unwrap();
        let dest = self.fresh_register();
        let ghost b0 = self.blocks@;
        let inst = SSAInstruction::UnaryOp { dest, op, operand };
        self.emit(inst);
        stack.push(dest);
        proof {
            assert(stack@ =~= st.take(st.len() - 1).push(dest));
            lemma_emitted_one(b0, self.blocks@, self.current_block.0 as int, inst, InstSpec::Plain(inst));
        }
        Ok(())
    }

    /// Emits one instruction that `spec` states.
    fn emit_as(&mut self, inst: SSAInstruction, Ghost(spec): Ghost<InstSpec>)
        requires
            old(self).ready(),
            inst_is(inst, spec),
        ensures
            *final(self) == (SSAConverter { blocks: final(self).blocks, ..*old(self) }),
            final(self).ready(),
            blocks_emitted(old(self).blocks@, final(self).blocks@, old(self).current_block.0 as int, seq![spec]),
    {
        let ghost b0 = self.blocks@;
        self.emit(inst);
        proof { lemma_emitted_one(b0, self.blocks@, self.current_block.0 as int, inst, spec); }
    }

    /// A call of a word that takes `pc` arguments, to `callee`.
    fn convert_generic_call(&mut self, callee: String, word: &str, pc: usize, stack: &mut Vec<Register>) -> (r: Result<(), ForthError>)
        requires
            old(self).wf(),
            old(self).ready() || old(stack)@.len() < pc,
            old(self).next_register < usize::MAX,
        ensures
            call_result(*old(self), *final(self), old(stack)@, final(stack)@, r,
                generic_call(callee@, word@, pc as int, old(stack)@, old(self).next_register as int)),
    {
        if stack.len() < pc {
            return Err(underflow(word, pc, stack.len()));
        }
        let ghost st = stack@;
        let base = stack.len() - pc;
        let mut args: Vec<Register> = Vec::new();
        let mut k: usize = base;
        while k < stack.len()
            invariant
                base <= k <= stack.len(),
                stack@ == st,
                base == st.len() - pc,
                args@ == st.subrange(base as int, k as int),
            decreases stack.len() - k,
        {
            args.push(stack[k]);
            k = k + 1;
            assert(args@ =~= st.subrange(base as int, k as int));
        }
        stack.truncate(base);
        let dest = self.fresh_register();
        let ghost a = args@;
        let inst = SSAInstruction::Call { dest: one(dest), name: callee, args };
        self.emit_as(inst, Ghost(InstSpec::Call(seq![dest], callee@, a)));
        stack.push(dest);
        assert(stack@ =~= st.take(st.len() - pc).push(dest));
        Ok(())
    }

    /// Converts a call of the word `name`: builtin operations become
    /// instructions or stack rearrangements; other words become calls that
    /// take their recorded number of arguments. A converter without a current
    /// block can still rearrange the stack or report an underflow.
    #[verifier::rlimit(60)]
    pub fn convert_word_call(&mut self, name: &String, stack: &mut Vec<Register>) -> (r: Result<(), ForthError>)
        requires
            old(self).wf(),
            old(self).ready() || !call_emits(call_spec(name@, old(stack)@, old(self).next_register as int,
                old(self).params(), old(self).current_name())),
            old(self).next_register + 2 <= usize::MAX,
        ensures
            call_result(*old(self), *final(self), old(stack)@, final(stack)@, r,
                call_spec(name@, old(stack)@, old(self).next_register as int, old(self).params(), old(self).current_name())),
    {
        let cs = chars_of(name.as_str());
        let ghost st = stack@;
        let ghost n = name@;
        let ghost b0 = self.blocks@;
        let ghost cur = self.current_block.0 as int;
        proof { lemma_emitted_none(b0, cur); }
        if let Some(op) = binary_op_named(&cs) {
            return self.convert_binary_op(op, stack);
        }
        if let Some(op) = unary_op_named(&cs) {
            return self.convert_unary_op(op, stack);
        }
        let len = stack.len();
        if eq_lit(&cs, "dup") {
            if len < 1 { return Err(underflow("dup", 1, 0)); }
            let top = stack[len - 1];
            stack.push(top);
            return Ok(());
        }
        if eq_lit(&cs, "drop") {
            if len < 1 { return Err(underflow("drop", 1, 0)); }
            stack.pop();
            assert(stack@ =~= st.take(len - 1));
            return Ok(());
        }
        if eq_lit(&cs, "swap") {
            if len < 2 { return Err(underflow("swap", 2, len)); }
            let a = stack[len - 2];
            let b = stack[len - 1];
            stack.set(len - 2, b);
            stack.set(len - 1, a);
            assert(stack@ =~= st.take(len - 2).push(b).push(a));
            return Ok(());
        }
        if eq_lit(&cs, "over") {
            if len < 2 { return Err(underflow("over", 2, len)); }
            let a = stack[len - 2];
            stack.push(a);
            return Ok(());
        }
        if eq_lit(&cs, "rot") {
            if len < 3 { return Err(underflow("rot", 3, len)); }
            let a = stack[len - 3];
            let b = stack[len - 2];
            let c = stack[len - 1];
            stack.set(len - 3, b);
            stack.set(len - 2, c);
            stack.set(len - 1, a);
            assert(stack@ =~= st.take(len - 3).push(b).push(c).push(a));
            return Ok(());
        }
        if eq_lit(&cs, "@") {
            if len < 1 { return Err(underflow("@", 1, 0)); }
            let addr = stack.pop().unwrap();
            let dest = self.fresh_register();
            let inst = SSAInstruction::Load { dest, address: addr, ty: StackType::Int };
            self.emit_as(inst, Ghost(InstSpec::Plain(inst)));
            stack.push(dest);
            assert(stack@ =~= st.take(len - 1).push(dest));
            return Ok(());
        }
        if eq_lit(&cs, "!") {
            if len < 2 { return Err(underflow("!", 2, len)); }
            let addr = stack.pop().unwrap();
            let value = stack.pop().unwrap();
            let inst = SSAInstruction::Store { address: addr, value, ty: StackType::Int };
            self.emit_as(inst, Ghost(InstSpec::Plain(inst)));
            assert(stack@ =~= st.take(len - 2));
            return Ok(());
        }
        if eq_lit(&cs, ">r") {
            let dest = self.fresh_register();
            if len < 1 {
                return Err(underflow(">r", 1, 0));
            }
            let val = stack.pop().unwrap();
            let inst = SSAInstruction::Call { dest: one(dest), name: name.clone(), args: one(val) };
            self.emit_as(inst, Ghost(InstSpec::Call(seq![dest], n, seq![val])));
            assert(stack@ =~= st.take(len - 1));
            return Ok(());
        }
        if eq_lit(&cs, "r>") || eq_lit(&cs, "r@") || eq_lit(&cs, "i") || eq_lit(&cs, "j") {
            let dest = self.fresh_register();
            stack.push(dest);
            let inst = SSAInstruction::Call { dest: one(dest), name: name.clone(), args: Vec::new() };
            self.emit_as(inst, Ghost(InstSpec::Call(seq![dest], n, seq![])));
            return Ok(());
        }
        if eq_lit(&cs, ".") || eq_lit(&cs, "emit") || eq_lit(&cs, "cr") {
            if len < 1 { return Err(underflow(name.as_str(), 1, 0)); }
            let val = stack.pop().unwrap();
            let inst = SSAInstruction::Call { dest: Vec::new(), name: name.clone(), args: one(val) };
            self.emit_as(inst, Ghost(InstSpec::Call(seq![], n, seq![val])));
            assert(stack@ =~= st.take(len - 1));
            return Ok(());
        }
        if eq_lit(&cs, "r/o") || eq_lit(&cs, "w/o") || eq_lit(&cs, "r/w") {
            let dest_addr = self.fresh_register();
            let dest_len = self.fresh_register();
            let mode = if eq_lit(&cs, "r/o") { "r" } else if eq_lit(&cs, "w/o") { "w" } else { "r+" };
            let inst = SSAInstruction::LoadString { dest_addr, dest_len, value: mode.to_owned() };
            self.emit_as(inst, Ghost(InstSpec::LoadString(dest_addr, dest_len, mode@)));
            stack.push(dest_addr);
            stack.push(dest_len);
            return Ok(());
        }
        if eq_lit(&cs, "create-file") || eq_lit(&cs, "open-file") {
            if len < 4 { return Err(underflow(name.as_str(), 4, len)); }
            let _mode_len = stack.pop().unwrap();
            let mode = stack.pop().unwrap();
            let path_len = stack.pop().unwrap();
            let path_addr = stack.pop().unwrap();
            let dest_fileid = self.fresh_register();
            let dest_ior = self.fresh_register();
            let inst = if eq_lit(&cs, "create-file") {
                SSAInstruction::FileCreate { dest_fileid, dest_ior, path_addr, path_len, mode }
            } else {
                SSAInstruction::FileOpen { dest_fileid, dest_ior, path_addr, path_len, mode }
            };
            self.emit_as(inst, Ghost(InstSpec::Plain(inst)));
            stack.push(dest_fileid);
            stack.push(dest_ior);
            assert(stack@ =~= st.take(len - 4).push(dest_fileid).push(dest_ior));
            return Ok(());
        }
        if eq_lit(&cs, "read-file") {
            if len < 3 { return Err(underflow("read-file", 3, len)); }
            let fileid = stack.pop().unwrap();
            let count = stack.pop().unwrap();
            let buffer = stack.pop().unwrap();
            let dest_bytes = self.fresh_register();
            let dest_ior = self.fresh_register();
            let inst = SSAInstruction::FileRead { dest_bytes, dest_ior, buffer, count, fileid };
            self.emit_as(inst, Ghost(InstSpec::Plain(inst)));
            stack.push(dest_bytes);
            stack.push(dest_ior);
            assert(stack@ =~= st.take(len - 3).push(dest_bytes).push(dest_ior));
            return Ok(());
        }
        if eq_lit(&cs, "write-file") {
            if len < 3 { return Err(underflow("write-file", 3, len)); }
            let fileid = stack.pop().unwrap();
            let count = stack.pop().unwrap();
            let buffer = stack.pop().unwrap();
            let dest_ior = self.fresh_register();
            let inst = SSAInstruction::FileWrite { dest_ior, buffer, count, fileid };
            self.emit_as(inst, Ghost(InstSpec::Plain(inst)));
            stack.push(dest_ior);
            assert(stack@ =~= st.take(len - 3).push(dest_ior));
            return Ok(());
        }
        if eq_lit(&cs, "close-file") {
            if len < 1 { return Err(underflow("close-file", 1, 0)); }
            let fileid = stack.pop().unwrap();
            let dest_ior = self.fresh_register();
            let inst = SSAInstruction::FileClose { dest_ior, fileid };
            self.emit_as(inst, Ghost(InstSpec::Plain(inst)));
            stack.push(dest_ior);
            assert(stack@ =~= st.take(len - 1).push(dest_ior));
            return Ok(());
        }
        if eq_lit(&cs, "delete-file") {
            if len < 2 { return Err(underflow("delete-file", 2, len)); }
            let path_len = stack.pop().unwrap();
            let path_addr = stack.pop().unwrap();
            let dest_ior = self.fresh_register();
            let inst = SSAInstruction::FileDelete { dest_ior, path_addr, path_len };
            self.emit_as(inst, Ghost(InstSpec::Plain(inst)));
            stack.push(dest_ior);
            assert(stack@ =~= st.take(len - 2).push(dest_ior));
            return Ok(());
        }
        if eq_lit(&cs, "system") {
            if len < 2 { return Err(underflow("system", 2, len)); }
            let command_len = stack.pop().unwrap();
            let command_addr = stack.pop().unwrap();
            let dest = self.fresh_register();
            let inst = SSAInstruction::SystemCall { dest, command_addr, command_len };
            self.emit_as(inst, Ghost(InstSpec::Plain(inst)));
            stack.push(dest);
            assert(stack@ =~= st.take(len - 2).push(dest));
            return Ok(());
        }
        if eq_lit(&cs, "execute") {
            let dest = self.fresh_register();
            if len > 0 {
                let val = stack.pop().unwrap();
                let inst = SSAInstruction::Call { dest: one(dest), name: name.clone(), args: one(val) };
                self.emit_as(inst, Ghost(InstSpec::Call(seq![dest], n, seq![val])));
                stack.push(dest);
                assert(stack@ =~= st.take(len - 1).push(dest));
            } else {
                let inst = SSAInstruction::Call { dest: one(dest), name: name.clone(), args: Vec::new() };
                self.emit_as(inst, Ghost(InstSpec::Call(seq![dest], n, seq![])));
                stack.push(dest);
            }
            return Ok(());
        }
        if eq_lit(&cs, "char") {
            let dest = self.fresh_register();
            stack.push(dest);
            let inst = SSAInstruction::Call { dest: one(dest), name: name.clone(), args: Vec::new() };
            self.emit_as(inst, Ghost(InstSpec::Call(seq![dest], n, seq![])));
            return Ok(());
        }
        if eq_lit(&cs, "recurse") {
            match &self.current_function_name {
                None => {
                    return Err(ForthError::SSAConversionError {
                        message: "RECURSE used outside of word definition".to_owned(),
                    });
                }
                Some(f) => {
                    let f = f.clone();
                    let pc = self.param_count(&f);
                    return self.convert_generic_call(f, "recurse", pc, stack);
                }
            }
        }
        let pc = self.param_count(name);
        self.convert_generic_call(name.clone(), name.as_str(), pc, stack)
    }
}

/// Items consumed and produced by a word, as parameter inference counts
/// them: the builtin operations, and nothing for any other word.
pub open spec fn word_stack_effect(n: Seq<char>) -> (int, int) {
    if n == "+"@ || n == "-"@ || n == "*"@ || n == "/"@ || n == "mod"@ { (2, 1) }
    else if n == "<"@ || n == ">"@ || n == "<="@ || n == ">="@ || n == "="@ || n == "<>"@ { (2, 1) }
    else if n == "and"@ || n == "or"@ { (2, 1) }
    else if n == "negate"@ || n == "abs"@ || n == "not"@ { (1, 1) }
    else if n == "1+"@ || n == "1-"@ || n == "2*"@ || n == "2/"@ { (1, 1) }
    else if n == "dup"@ { (1, 2) }
    else if n == "drop"@ { (1, 0) }
    else if n == "swap"@ { (2, 2) }
    else if n == "over"@ { (2, 3) }
    else if n == "rot"@ { (3, 3) }
    else if n == "@"@ { (1, 1) }
    else if n == "!"@ { (2, 0) }
    else { (0, 0) }
}

/// The lowest depth reached and the final depth, relative to the start,
/// after the words `ws`: literals, variables and constants push one item,
/// a word call pops and pushes its effect, a control structure pops its
/// condition (two items for `DO`).
pub open spec fn depth_scan(ws: Seq<Word>) -> (int, int)
    decreases ws.len(),
{
    if ws.len() == 0 {
        (0, 0)
    } else {
        let (lo, d) = depth_scan(ws.drop_last());
        match ws.last() {
            Word::IntLiteral(_) | Word::FloatLiteral(_) | Word::StringLiteral(_)
            | Word::Variable { .. } | Word::Constant { .. } => (lo, d + 1),
            Word::WordRef { name, .. } => {
                let (c, p) = word_stack_effect(name@);
                let d1 = d - c;
                (if d1 < lo { d1 } else { lo }, d1 + p)
            },
            Word::DoLoop { .. } => { let d1 = d - 2; (if d1 < lo { d1 } else { lo }, d1) },
            Word::If { .. } | Word::BeginUntil { .. } | Word::BeginWhileRepeat { .. } => {
                let d1 = d - 1;
                (if d1 < lo { d1 } else { lo }, d1)
            },
            Word::Comment(_) => (lo, d),
        }
    }
}

pub proof fn lemma_depth_scan_bounds(ws: Seq<Word>)
    ensures
        -3 * ws.len() <= depth_scan(ws).0 <= 0,
        -3 * ws.len() <= depth_scan(ws).1 <= 3 * ws.len(),
        depth_scan(ws).0 <= depth_scan(ws).1,
    decreases ws.len(),
{
    if ws.len() > 0 {
        lemma_depth_scan_bounds(ws.drop_last());
    }
}

/// Items consumed and produced by a word, for parameter inference.
fn get_word_stack_effect(name: &String) -> (r: (i32, i32))
    ensures
        r.0 == word_stack_effect(name@).0,
        r.1 == word_stack_effect(name@).1,
{
    let cs = chars_of(name.as_str());
    if eq_lit(&cs, "+") || eq_lit(&cs, "-") || eq_lit(&cs, "*") || eq_lit(&cs, "/") || eq_lit(&cs, "mod") { (2, 1) }
    else if eq_lit(&cs, "<") || eq_lit(&cs, ">") || eq_lit(&cs, "<=") || eq_lit(&cs, ">=") || eq_lit(&cs, "=") || eq_lit(&cs, "<>") { (2, 1) }
    else if eq_lit(&cs, "and") || eq_lit(&cs, "or") { (2, 1) }
    else if eq_lit(&cs, "negate") || eq_lit(&cs, "abs") || eq_lit(&cs, "not") { (1, 1) }
    else if eq_lit(&cs, "1+") || eq_lit(&cs, "1-") || eq_lit(&cs, "2*") || eq_lit(&cs, "2/") { (1, 1) }
    else if eq_lit(&cs, "dup") { (1, 2) }
    else if eq_lit(&cs, "drop") { (1, 0) }
    else if eq_lit(&cs, "swap") { (2, 2) }
    else if eq_lit(&cs, "over") { (2, 3) }
    else if eq_lit(&cs, "rot") { (3, 3) }
    else if eq_lit(&cs, "@") { (1, 1) }
    else if eq_lit(&cs, "!") { (2, 0) }
    else { (0, 0) }
}

/// The number of parameters a body needs: how far below its starting depth
/// its stack goes.
pub fn infer_parameter_count(body: &Vec<Word>) -> (r: usize)
    requires
        3 * body@.len() <= i32::MAX,
    ensures
        r == -depth_scan(body@).0,
{
    let mut min_depth: i32 = 0;
    let mut current_depth: i32 = 0;
    let mut i: usize = 0;
    while i < body.len()
        invariant
            i <= body.len(),
            3 * body@.len() <= i32::MAX,
            (min_depth as int, current_depth as int) == depth_scan(body@.take(i as int)),
        decreases body.len() - i,
    {
        proof {
            assert(body@.take(i + 1).drop_last() =~= body@.take(i as int));
            lemma_depth_scan_bounds(body@.take(i as int));
        }
        match &body[i] {
            Word::IntLiteral(_) | Word::FloatLiteral(_) | Word::StringLiteral(_)
            | Word::Variable { .. } | Word::Constant { .. } => {
                current_depth = current_depth + 1;
            }
            Word::WordRef { name, .. } => {
                let (consumes, produces) = get_word_stack_effect(name);
                current_depth = current_depth - consumes;
                if current_depth < min_depth {
                    min_depth = current_depth;
                }
                current_depth = current_depth + produces;
            }
            Word::DoLoop { .. } => {
                current_depth = current_depth - 2;
                if current_depth < min_depth {
                    min_depth = current_depth;
                }
            }
            Word::If { .. } | Word::BeginUntil { .. } | Word::BeginWhileRepeat { .. } => {
                current_depth = current_depth - 1;
                if current_depth < min_depth {
                    min_depth = current_depth;
                }
            }
            Word::Comment(_) => {}
        }
        i = i + 1;
    }
    proof {
        assert(body@.take(body.len() as int) =~= body@);
        lemma_depth_scan_bounds(body@);
    }
    (0 - min_depth) as usize
}

/// Number of words of `w`, nested words included.
pub open spec fn word_size(w: Word) -> nat
    decreases w,
{
    match w {
        Word::If { then_branch, else_branch } => 1 + words_size(then_branch@) + match else_branch {
            Some(e) => words_size(e@),
            None => 0,
        },
        Word::BeginUntil { body } => 1 + words_size(body@),
        Word::BeginWhileRepeat { condition, body } => 1 + words_size(condition@) + words_size(body@),
        Word::DoLoop { body, .. } => 1 + words_size(body@),
        _ => 1,
    }
}

/// Number of words of `ws`, nested words included.
pub open spec fn words_size(ws: Seq<Word>) -> nat
    decreases ws,
{
    if ws.len() == 0 { 0 } else { words_size(ws.drop_last()) + word_size(ws.last()) }
}

pub proof fn lemma_words_size_prefix(ws: Seq<Word>, i: int)
    requires
        0 <= i < ws.len(),
    ensures
        word_size(ws[i]) <= words_size(ws),
        words_size(ws.take(i)) + word_size(ws[i]) <= words_size(ws),
    decreases ws.len() - i,
{
    assert(ws.take(i + 1).drop_last() =~= ws.take(i));
    if i + 1 < ws.len() {
        lemma_words_size_prefix(ws, i + 1);
        assert(ws.take(i + 2).drop_last() =~= ws.take(i + 1));
    } else {
        assert(ws.take(i + 1) =~= ws);
    }
}

/// A stack of `len` registers, to ask `call_spec` about depths alone.
pub open spec fn canon_stack(len: int) -> Seq<Register> {
    Seq::new(len as nat, |i: int| reg(0))
}

/// Why converting code fails, as the depth model sees it: an underflow (the
/// word, the items expected, the items found), arms of an `IF` that leave
/// different depths, or `RECURSE` outside a definition.
pub enum DepthError {
    Underflow(Seq<char>, int, int),
    Mismatch(int, int),
    Outside,
}

/// The stack depth after a call of the word `n` from depth `len`, or why it fails.
pub open spec fn call_len(n: Seq<char>, len: int, params: Map<Seq<char>, usize>, cur: Option<Seq<char>>) -> Result<int, DepthError> {
    match call_spec(n, canon_stack(len), 0, params, cur) {
        CallOutcome::Done(ns, _, _) => Ok(ns.len() as int),
        CallOutcome::Underflow(w, e, f, _) => Err(DepthError::Underflow(w, e, f)),
        CallOutcome::OutsideDefinition => Err(DepthError::Outside),
    }
}

/// Whether a call succeeds, the depth it leaves and the error it gives depend
/// on the depth alone.
pub proof fn lemma_call_len(n: Seq<char>, st: Seq<Register>, next: int, params: Map<Seq<char>, usize>, cur: Option<Seq<char>>)
    ensures
        match call_spec(n, st, next, params, cur) {
            CallOutcome::Done(ns, _, _) => call_len(n, st.len() as int, params, cur) == Ok::<int, DepthError>(ns.len() as int),
            CallOutcome::Underflow(w, e, f, _) => call_len(n, st.len() as int, params, cur) == Err::<int, DepthError>(DepthError::Underflow(w, e, f)),
            CallOutcome::OutsideDefinition => call_len(n, st.len() as int, params, cur) == Err::<int, DepthError>(DepthError::Outside),
        },
{
    assert(canon_stack(st.len() as int).len() == st.len());
}

/// The stack depth that converting the words `ws` leaves, from depth `len`,
/// or why the conversion fails.
pub open spec fn words_depth(ws: Seq<Word>, len: int, params: Map<Seq<char>, usize>, cur: Option<Seq<char>>) -> Result<int, DepthError>
    decreases words_size(ws), 1int,
{
    if ws.len() == 0 {
        Ok(len)
    } else {
        proof { lemma_word_size_pos(ws.last()); }
        match words_depth(ws.drop_last(), len, params, cur) {
            Ok(d) => word_depth(ws.last(), d, params, cur),
            Err(e) => Err(e),
        }
    }
}

/// The stack depth that converting the word `w` leaves, from depth `len`.
pub open spec fn word_depth(w: Word, len: int, params: Map<Seq<char>, usize>, cur: Option<Seq<char>>) -> Result<int, DepthError>
    decreases word_size(w), 0int,
{
    match w {
        Word::IntLiteral(_) | Word::FloatLiteral(_) | Word::Variable { .. } | Word::Constant { .. } => Ok(len + 1),
        Word::StringLiteral(_) => Ok(len + 2),
        Word::Comment(_) => Ok(len),
        Word::WordRef { name, .. } => call_len(name@, len, params, cur),
        Word::If { then_branch, else_branch } => if_depth(then_branch@, match else_branch {
            Some(e) => Some(e@),
            None => None,
        }, len, params, cur),
        Word::BeginUntil { body } => until_depth(body@, len, params, cur),
        Word::BeginWhileRepeat { condition, body } => while_depth(condition@, body@, len, params, cur),
        Word::DoLoop { body, .. } => do_depth(body@, len, params, cur),
    }
}

/// `IF ... [ELSE ...] THEN` pops the condition; both arms run from what is
/// left and must leave the same depth.
pub open spec fn if_depth(then_w: Seq<Word>, else_w: Option<Seq<Word>>, len: int, params: Map<Seq<char>, usize>,
    cur: Option<Seq<char>>) -> Result<int, DepthError>
    decreases words_size(then_w) + match else_w { Some(e) => words_size(e), None => 0 }, 2int,
{
    if len < 1 {
        Err(DepthError::Underflow("IF"@, 1, 0))
    } else {
        match words_depth(then_w, len - 1, params, cur) {
            Err(e) => Err(e),
            Ok(t) => {
                let e = match else_w {
                    Some(ew) => words_depth(ew, len - 1, params, cur),
                    None => Ok(len - 1),
                };
                match e {
                    Err(x) => Err(x),
                    Ok(ed) => if t == ed { Ok(t) } else { Err(DepthError::Mismatch(t, ed)) },
                }
            },
        }
    }
}

/// `BEGIN ... UNTIL`: the body runs, then the condition is popped.
pub open spec fn until_depth(body: Seq<Word>, len: int, params: Map<Seq<char>, usize>, cur: Option<Seq<char>>) -> Result<int, DepthError>
    decreases words_size(body), 2int,
{
    match words_depth(body, len, params, cur) {
        Ok(b) => if b >= 1 { Ok(b - 1) } else { Err(DepthError::Underflow("UNTIL"@, 1, 0)) },
        Err(e) => Err(e),
    }
}

/// `BEGIN ... WHILE ... REPEAT`: the condition code runs and its flag is
/// popped; the body runs from there; the loop leaves the depth after the flag.
pub open spec fn while_depth(cond: Seq<Word>, body: Seq<Word>, len: int, params: Map<Seq<char>, usize>,
    cur: Option<Seq<char>>) -> Result<int, DepthError>
    decreases words_size(cond) + words_size(body), 2int,
{
    match words_depth(cond, len, params, cur) {
        Ok(c) => if c >= 1 {
            match words_depth(body, c - 1, params, cur) {
                Ok(_) => Ok(c - 1),
                Err(e) => Err(e),
            }
        } else {
            Err(DepthError::Underflow("WHILE"@, 1, 0))
        },
        Err(e) => Err(e),
    }
}

/// `DO ... LOOP` pops the limit and the start, then the body runs.
pub open spec fn do_depth(body: Seq<Word>, len: int, params: Map<Seq<char>, usize>, cur: Option<Seq<char>>) -> Result<int, DepthError>
    decreases words_size(body), 2int,
{
    if len < 2 { Err(DepthError::Underflow("DO"@, 2, len)) } else { words_depth(body, len - 2, params, cur) }
}

/// A failing prefix makes the whole sequence fail, with its error.
pub proof fn lemma_words_depth_prefix_none(ws: Seq<Word>, i: int, len: int, params: Map<Seq<char>, usize>, cur: Option<Seq<char>>)
    requires
        0 <= i <= ws.len(),
        words_depth(ws.take(i), len, params, cur) is Err,
    ensures
        words_depth(ws, len, params, cur) == words_depth(ws.take(i), len, params, cur),
    decreases ws.len() - i,
{
    if i < ws.len() {
        assert(ws.take(i + 1).drop_last() =~= ws.take(i));
        lemma_words_depth_prefix_none(ws, i + 1, len, params, cur);
    } else {
        assert(ws.take(i) =~= ws);
    }
}

/// Registers that converting the word `w` can allocate, when no stack
/// during the conversion holds more than `m` registers: at most two per word,
/// and for an `IF` one phi per stack slot.
pub open spec fn need_w(w: Word, m: nat) -> nat
    decreases word_size(w), 0int,
{
    match w {
        Word::If { then_branch, else_branch } => needs(then_branch@, m) + match else_branch {
            Some(e) => needs(e@, m),
            None => 0,
        } + m,
        Word::BeginUntil { body } => needs(body@, m),
        Word::BeginWhileRepeat { condition, body } => needs(condition@, m) + needs(body@, m),
        Word::DoLoop { body, .. } => needs(body@, m),
        Word::Comment(_) => 0,
        _ => 2,
    }
}

/// Registers that converting the words `ws` can allocate (see `need_w`).
pub open spec fn needs(ws: Seq<Word>, m: nat) -> nat
    decreases words_size(ws), 1int,
{
    if ws.len() == 0 {
        0
    } else {
        proof { lemma_word_size_pos(ws.last()); }
        needs(ws.drop_last(), m) + need_w(ws.last(), m)
    }
}

pub proof fn lemma_word_size_pos(w: Word)
    ensures
        word_size(w) >= 1,
{
}

/// The words of an optional `ELSE` arm.
pub open spec fn else_words(e: Option<Seq<Word>>) -> Seq<Word> {
    match e {
        Some(w) => w,
        None => Seq::empty(),
    }
}

/// The converter `o` has room for `regs` more registers and `blocks` more blocks.
pub open spec fn budget_ok(o: SSAConverter, regs: nat, blocks: nat) -> bool {
    &&& o.next_register + regs + 3 <= usize::MAX
    &&& o.next_block + blocks + 3 <= usize::MAX
}

/// A conversion from `o` to `f` with result `r` allocates at most `regs`
/// registers and `blocks` blocks when it succeeds, and runs out of numbers
/// (`InternalError`) only when `o` has no room for that many.
pub open spec fn within_budget(o: SSAConverter, f: SSAConverter, r: Result<(), ForthError>, regs: nat, blocks: nat) -> bool {
    &&& r is Ok ==> f.next_register <= o.next_register + regs && f.next_block <= o.next_block + blocks
    &&& (r matches Err(e) && e is InternalError) ==> !budget_ok(o, regs, blocks)
}

pub proof fn lemma_needs_mono(ws: Seq<Word>, m1: nat, m2: nat)
    requires
        0 <= m1 <= m2,
    ensures
        0 <= needs(ws, m1) <= needs(ws, m2),
    decreases words_size(ws), 1int,
{
    if ws.len() > 0 {
        lemma_word_size_pos(ws.last());
        lemma_needs_mono(ws.drop_last(), m1, m2);
        lemma_need_w_mono(ws.last(), m1, m2);
    }
}

pub proof fn lemma_need_w_mono(w: Word, m1: nat, m2: nat)
    requires
        0 <= m1 <= m2,
    ensures
        0 <= need_w(w, m1) <= need_w(w, m2),
    decreases word_size(w), 0int,
{
    match w {
        Word::If { then_branch, else_branch } => {
            lemma_needs_mono(then_branch@, m1, m2);
            match else_branch {
                Some(e) => lemma_needs_mono(e@, m1, m2),
                None => {},
            }
        },
        Word::BeginUntil { body } => lemma_needs_mono(body@, m1, m2),
        Word::BeginWhileRepeat { condition, body } => {
            lemma_needs_mono(condition@, m1, m2);
            lemma_needs_mono(body@, m1, m2);
        },
        Word::DoLoop { body, .. } => lemma_needs_mono(body@, m1, m2),
        _ => {},
    }
}

pub proof fn lemma_needs_prefix(ws: Seq<Word>, i: int, m: nat)
    requires
        0 <= i < ws.len(),
        0 <= m,
    ensures
        needs(ws.take(i + 1), m) == needs(ws.take(i), m) + need_w(ws[i], m),
        needs(ws.take(i + 1), m) <= needs(ws, m),
    decreases ws.len() - i,
{
    assert(ws.take(i + 1).drop_last() =~= ws.take(i));
    if i + 1 < ws.len() {
        lemma_needs_prefix(ws, i + 1, m);
        lemma_need_w_mono(ws[i + 1], 0, m);
    } else {
        assert(ws.take(i + 1) =~= ws);
    }
}

/// A call allocates at most two registers.
pub proof fn lemma_call_alloc(n: Seq<char>, st: Seq<Register>, next: int, params: Map<Seq<char>, usize>, cur: Option<Seq<char>>)
    ensures
        call_spec(n, st, next, params, cur) matches CallOutcome::Done(_, _, u) ==> 0 <= u <= 2,
{
}

/// A call leaves at most two more registers on the stack than it found.
pub proof fn lemma_call_len_bound(n: Seq<char>, len: int, params: Map<Seq<char>, usize>, cur: Option<Seq<char>>)
    requires
        0 <= len,
    ensures
        call_len(n, len, params, cur) matches Ok(d) ==> 0 <= d <= len + 2,
{
    assert(canon_stack(len).len() == len);
}

pub proof fn lemma_words_depth_bound(ws: Seq<Word>, len: int, params: Map<Seq<char>, usize>, cur: Option<Seq<char>>)
    requires
        0 <= len,
    ensures
        words_depth(ws, len, params, cur) matches Ok(d) ==> 0 <= d <= len + 2 * words_size(ws),
    decreases words_size(ws), 1int,
{
    if ws.len() > 0 {
        lemma_word_size_pos(ws.last());
        lemma_words_depth_bound(ws.drop_last(), len, params, cur);
        match words_depth(ws.drop_last(), len, params, cur) {
            Ok(d) => lemma_word_depth_bound(ws.last(), d, params, cur),
            Err(_) => {},
        }
    }
}

pub proof fn lemma_word_depth_bound(w: Word, len: int, params: Map<Seq<char>, usize>, cur: Option<Seq<char>>)
    requires
        0 <= len,
    ensures
        word_depth(w, len, params, cur) matches Ok(d) ==> 0 <= d <= len + 2 * word_size(w),
    decreases word_size(w), 0int,
{
    match w {
        Word::WordRef { name, .. } => lemma_call_len_bound(name@, len, params, cur),
        Word::If { then_branch, else_branch } => {
            if len >= 1 {
                lemma_words_depth_bound(then_branch@, len - 1, params, cur);
            }
        },
        Word::BeginUntil { body } => lemma_words_depth_bound(body@, len, params, cur),
        Word::BeginWhileRepeat { condition, body } => {
            lemma_words_depth_bound(condition@, len, params, cur);
        },
        Word::DoLoop { body, .. } => {
            if len >= 2 {
                lemma_words_depth_bound(body@, len - 2, params, cur);
            }
        },
        _ => {},
    }
}

/// `e` is the error that the depth model gives.
pub open spec fn error_matches(e: ForthError, de: DepthError) -> bool {
    match de {
        DepthError::Underflow(w, x, y) => e matches ForthError::StackUnderflow { word, expected, found }
            && word@ == w && expected == x && found == y,
        DepthError::Mismatch(t, u) => e matches ForthError::StackMismatch { word, then_depth, else_depth, .. }
            && word@ == "IF-THEN-ELSE"@ && then_depth == t && else_depth == u,
        DepthError::Outside => e matches ForthError::SSAConversionError { message }
            && message@ == "RECURSE used outside of word definition"@,
    }
}

/// What converting code that should leave the depth (or give the error)
/// `expected` gives: on success that depth; on failure that error, or running
/// out of register or block numbers (see `within_budget` for when).
pub open spec fn depth_result(expected: Result<int, DepthError>, final_len: int, r: Result<(), ForthError>) -> bool {
    &&& r is Ok ==> expected == Ok::<int, DepthError>(final_len)
    &&& r matches Err(e) ==> conversion_error(e) && (
        (expected matches Err(de) && error_matches(e, de)) || e is InternalError)
}

/// The errors that converting code can give.
pub open spec fn conversion_error(e: ForthError) -> bool {
    e is StackUnderflow || e is StackMismatch || e is SSAConversionError || e is InternalError
}

/// What converting code keeps of the converter.
pub open spec fn conversion_keeps(o: SSAConverter, f: SSAConverter) -> bool {
    &&& f.ready()
    &&& f.function_params == o.function_params
    &&& f.current_function_name == o.current_function_name
    &&& f.next_register >= o.next_register
    &&& f.next_block >= o.next_block
}

/// The code being generated, as a specification sees it: the instructions of
/// each block, the current block, the next register and block numbers, and
/// the stack of registers.
pub struct GenState {
    pub code: Seq<Seq<InstSpec>>,
    pub cur: int,
    pub nreg: int,
    pub nblk: int,
    pub st: Seq<Register>,
}

/// The blocks `b` hold the instructions `code` describes.
pub open spec fn code_holds(b: Seq<BasicBlock>, code: Seq<Seq<InstSpec>>) -> bool {
    &&& b.len() == code.len()
    &&& forall|i: int| 0 <= i < code.len() ==> emitted_as(Seq::empty(), #[trigger] b[i].instructions@, code[i])
}

/// The converter `c`, with the stack `st`, holds the code `g` describes.
pub open spec fn holds(c: SSAConverter, st: Seq<Register>, g: GenState) -> bool {
    &&& code_holds(c.blocks@, g.code)
    &&& c.current_block.0 == g.cur
    &&& c.next_register == g.nreg
    &&& c.next_block == g.nblk
    &&& st == g.st
}

/// `g` with the instructions `es` appended to the current block.
pub open spec fn g_emit(g: GenState, es: Seq<InstSpec>) -> GenState {
    GenState { code: g.code.update(g.cur, g.code[g.cur] + es), ..g }
}

/// `g` with a new empty block.
pub open spec fn g_block(g: GenState) -> GenState {
    GenState { code: g.code.push(Seq::empty()), nblk: g.nblk + 1, ..g }
}

/// `g` with the stack `st`.
pub open spec fn g_stack(g: GenState, st: Seq<Register>) -> GenState {
    GenState { st, ..g }
}

/// `g` with `b` as the current block.
pub open spec fn g_at(g: GenState, b: int) -> GenState {
    GenState { cur: b, ..g }
}

/// The merge of the first `n` slots of the arms' stacks `tf` and `ef`
/// (ending in the blocks `at` and `ae`): a slot that holds the same register
/// in both keeps it; any other gets a new register defined by a phi of the two.
pub open spec fn g_merge(tf: Seq<Register>, ef: Seq<Register>, at: int, ae: int, n: int, g: GenState) -> GenState
    decreases n,
{
    if n <= 0 {
        g_stack(g, Seq::empty())
    } else {
        let h = g_merge(tf, ef, at, ae, n - 1, g);
        if tf[n - 1] == ef[n - 1] {
            g_stack(h, h.st.push(tf[n - 1]))
        } else {
            let r = reg(h.nreg);
            let h2 = g_emit(h, seq![InstSpec::Phi(r, seq![(BlockId(at as usize), tf[n - 1]), (BlockId(ae as usize), ef[n - 1])])]);
            GenState { nreg: h.nreg + 1, st: h.st.push(r), ..h2 }
        }
    }
}

/// The code that converting the words `ws` generates from `g`.
pub open spec fn gen_words(ws: Seq<Word>, g: GenState, params: Map<Seq<char>, usize>, cur: Option<Seq<char>>) -> GenState
    decreases words_size(ws), 1int,
{
    if ws.len() == 0 {
        g
    } else {
        proof { lemma_word_size_pos(ws.last()); }
        gen_word(ws.last(), gen_words(ws.drop_last(), g, params, cur), params, cur)
    }
}

/// The arms of `IF then [ELSE else] THEN` from `g`: a branch on the popped
/// condition to a new then block and (with an else arm) a new else block, or
/// else the merge block (the second new block); each arm converted from the
/// remaining stack in its block and ending in a jump to the merge block.
/// Gives the code after the arms, the stacks they leave and the blocks they
/// end in (without an else arm: the remaining stack and the branching block).
pub open spec fn if_arms(then_w: Seq<Word>, else_w: Option<Seq<Word>>, g: GenState, params: Map<Seq<char>, usize>,
    cur: Option<Seq<char>>) -> (GenState, Seq<Register>, Seq<Register>, int, int)
    decreases words_size(then_w) + words_size(else_words(else_w)), 2int,
{
    let cond = g.st.last();
    let rest = g.st.drop_last();
    let tb = g.nblk;
    let mb = g.nblk + 1;
    let eb = if else_w is Some { g.nblk + 2 } else { mb };
    let g1 = if else_w is Some { g_block(g_block(g_block(g))) } else { g_block(g_block(g)) };
    let g2 = g_emit(g1, seq![InstSpec::Plain(SSAInstruction::Branch { condition: cond,
        true_block: BlockId(tb as usize), false_block: BlockId(eb as usize) })]);
    let t = gen_words(then_w, g_stack(g_at(g2, tb), rest), params, cur);
    let t2 = g_emit(t, seq![InstSpec::Plain(SSAInstruction::Jump { target: BlockId(mb as usize) })]);
    match else_w {
        Some(ew) => {
            let e = gen_words(ew, g_stack(g_at(t2, eb), rest), params, cur);
            (g_emit(e, seq![InstSpec::Plain(SSAInstruction::Jump { target: BlockId(mb as usize) })]), t.st, e.st, t.cur, e.cur)
        },
        None => (t2, t.st, rest, t.cur, g.cur),
    }
}

/// The code that converting `IF then [ELSE else] THEN` generates from `g`:
/// the arms (see `if_arms`), then in the merge block the phis of the stacks
/// the arms leave.
pub open spec fn gen_if(then_w: Seq<Word>, else_w: Option<Seq<Word>>, g: GenState, params: Map<Seq<char>, usize>,
    cur: Option<Seq<char>>) -> GenState
    decreases words_size(then_w) + words_size(else_words(else_w)), 3int,
{
    let a = if_arms(then_w, else_w, g, params, cur);
    g_merge(a.1, a.2, a.3, a.4, a.1.len() as int, g_at(a.0, g.nblk + 1))
}

/// `BEGIN body UNTIL`: a jump to a new loop block holding the body, which
/// ends in a branch on the popped flag to a new exit block or back.
pub open spec fn gen_until(body: Seq<Word>, g: GenState, params: Map<Seq<char>, usize>, cur: Option<Seq<char>>) -> GenState
    decreases words_size(body), 2int,
{
    let lb = g.nblk;
    let xb = g.nblk + 1;
    let g1 = g_emit(g_block(g_block(g)), seq![InstSpec::Plain(SSAInstruction::Jump { target: BlockId(lb as usize) })]);
    let b = gen_words(body, g_at(g1, lb), params, cur);
    let b2 = g_emit(b, seq![InstSpec::Plain(SSAInstruction::Branch { condition: b.st.last(),
        true_block: BlockId(xb as usize), false_block: BlockId(lb as usize) })]);
    g_stack(g_at(b2, xb), b.st.drop_last())
}

/// `BEGIN cond WHILE body REPEAT`: a jump to a new condition block, which
/// ends in a branch on the popped flag to a new body block or a new exit
/// block; the body ends in a jump back to the condition.
pub open spec fn gen_while(cond: Seq<Word>, body: Seq<Word>, g: GenState, params: Map<Seq<char>, usize>,
    cur: Option<Seq<char>>) -> GenState
    decreases words_size(cond) + words_size(body), 2int,
{
    let cb = g.nblk;
    let bb = g.nblk + 1;
    let xb = g.nblk + 2;
    let g1 = g_emit(g_block(g_block(g_block(g))), seq![InstSpec::Plain(SSAInstruction::Jump { target: BlockId(cb as usize) })]);
    let c = gen_words(cond, g_at(g1, cb), params, cur);
    let c2 = g_emit(c, seq![InstSpec::Plain(SSAInstruction::Branch { condition: c.st.last(),
        true_block: BlockId(bb as usize), false_block: BlockId(xb as usize) })]);
    let b = gen_words(body, g_stack(g_at(c2, bb), c.st.drop_last()), params, cur);
    let b2 = g_emit(b, seq![InstSpec::Plain(SSAInstruction::Jump { target: BlockId(cb as usize) })]);
    g_stack(g_at(b2, xb), c.st.drop_last())
}

/// `DO body LOOP`: the limit and start are popped; a jump to a new loop
/// block holding the body, which ends in a jump to a new exit block.
pub open spec fn gen_do(body: Seq<Word>, g: GenState, params: Map<Seq<char>, usize>, cur: Option<Seq<char>>) -> GenState
    decreases words_size(body), 2int,
{
    let lb = g.nblk;
    let xb = g.nblk + 1;
    let g1 = g_emit(g_block(g_block(g_stack(g, g.st.drop_last().drop_last()))),
        seq![InstSpec::Plain(SSAInstruction::Jump { target: BlockId(lb as usize) })]);
    let b = gen_words(body, g_at(g1, lb), params, cur);
    let b2 = g_emit(b, seq![InstSpec::Plain(SSAInstruction::Jump { target: BlockId(xb as usize) })]);
    g_at(b2, xb)
}

/// The code that converting the word `w` generates from `g`.
pub open spec fn gen_word(w: Word, g: GenState, params: Map<Seq<char>, usize>, cur: Option<Seq<char>>) -> GenState
    decreases word_size(w), 0int,
{
    let r0 = reg(g.nreg);
    match w {
        Word::IntLiteral(v) => GenState { nreg: g.nreg + 1, st: g.st.push(r0),
            ..g_emit(g, seq![InstSpec::Plain(SSAInstruction::LoadInt { dest: r0, value: v })]) },
        Word::FloatLiteral(v) => GenState { nreg: g.nreg + 1, st: g.st.push(r0),
            ..g_emit(g, seq![InstSpec::LoadFloat(r0, v@)]) },
        Word::StringLiteral(v) => GenState { nreg: g.nreg + 2, st: g.st.push(r0).push(reg(g.nreg + 1)),
            ..g_emit(g, seq![InstSpec::LoadString(r0, reg(g.nreg + 1), v@)]) },
        Word::WordRef { name, .. } => match call_spec(name@, g.st, g.nreg, params, cur) {
            CallOutcome::Done(ns, es, u) => GenState { nreg: g.nreg + u, st: ns, ..g_emit(g, es) },
            _ => g,
        },
        Word::If { then_branch, else_branch } => gen_if(then_branch@, match else_branch {
            Some(e) => Some(e@),
            None => None,
        }, g, params, cur),
        Word::BeginUntil { body } => gen_until(body@, g, params, cur),
        Word::BeginWhileRepeat { condition, body } => gen_while(condition@, body@, g, params, cur),
        Word::DoLoop { body, .. } => gen_do(body@, g, params, cur),
        Word::Variable { .. } => GenState { nreg: g.nreg + 1, st: g.st.push(r0), ..g },
        Word::Constant { value, .. } => GenState { nreg: g.nreg + 1, st: g.st.push(r0),
            ..g_emit(g, seq![InstSpec::Plain(SSAInstruction::LoadInt { dest: r0, value })]) },
        Word::Comment(_) => g,
    }
}

pub proof fn lemma_code_emit(b: Seq<BasicBlock>, b2: Seq<BasicBlock>, cur: int, code: Seq<Seq<InstSpec>>, es: Seq<InstSpec>)
    requires
        code_holds(b, code),
        0 <= cur < b.len(),
        blocks_emitted(b, b2, cur, es),
    ensures
        code_holds(b2, code.update(cur, code[cur] + es)),
{
    let c2 = code.update(cur, code[cur] + es);
    assert forall|i: int| 0 <= i < c2.len() implies emitted_as(Seq::empty(), #[trigger] b2[i].instructions@, c2[i]) by {
        if i == cur {
            let o = b[cur].instructions@;
            let n = b2[cur].instructions@;
            assert(emitted_as(Seq::empty(), o, code[cur]));
            assert(emitted_as(o, n, es));
            assert forall|k: int| 0 <= k < c2[i].len() implies inst_is(#[trigger] n[0 + k], c2[i][k]) by {
                if k < o.len() {
                    assert(n.take(o.len() as int)[k] == o[k]);
                    assert(inst_is(o[0 + k], code[cur][k]));
                } else {
                    assert(inst_is(n[o.len() + (k - o.len())], es[k - o.len()]));
                }
            }
            assert(n.take(0) =~= Seq::<SSAInstruction>::empty());
        } else {
            assert(b2[i] == b[i]);
        }
    }
}

pub proof fn lemma_code_block(b: Seq<BasicBlock>, b2: Seq<BasicBlock>, code: Seq<Seq<InstSpec>>)
    requires
        code_holds(b, code),
        b2.len() == b.len() + 1,
        b2.take(b.len() as int) == b,
        b2.last().instructions@.len() == 0,
    ensures
        code_holds(b2, code.push(Seq::empty())),
{
    let c2 = code.push(Seq::empty());
    assert forall|i: int| 0 <= i < c2.len() implies emitted_as(Seq::empty(), #[trigger] b2[i].instructions@, c2[i]) by {
        if i < b.len() {
            assert(b2[i] == b2.take(b.len() as int)[i]);
            assert(emitted_as(Seq::empty(), b[i].instructions@, code[i]));
        } else {
            assert(b2[i].instructions@ =~= Seq::<SSAInstruction>::empty());
            assert(b2[i].instructions@.take(0) =~= Seq::<SSAInstruction>::empty());
        }
    }
}

/// The error for running out of registers or blocks.
fn exhausted() -> (r: ForthError)
    ensures
        r is InternalError,
{
    ForthError::InternalError { message: "register or block numbers exhausted".to_owned() }
}

impl SSAConverter {
    /// Converts a sequence of words, emitting the code `gen_words` describes.
    pub fn convert_sequence(&mut self, words: &Vec<Word>, stack: &mut Vec<Register>) -> (r: Result<(), ForthError>)
        requires
            old(self).ready(),
        ensures
            conversion_keeps(*old(self), *final(self)),
            depth_result(words_depth(words@, old(stack)@.len() as int, old(self).params(), old(self).current_name()), final(stack)@.len() as int, r),
            within_budget(*old(self), *final(self), r, needs(words@, old(stack)@.len() + 2 * words_size(words@)), 3 * words_size(words@)),
            r is Ok ==> forall|g: GenState| #[trigger] holds(*old(self), old(stack)@, g)
                ==> holds(*final(self), final(stack)@, gen_words(words@, g, old(self).params(), old(self).current_name())),
        decreases words_size(words@), 1int,
    {
        let ghost params = old(self).params();
        let ghost cur = old(self).current_name();
        let ghost len0 = old(stack)@.len() as int;
        let ghost m: nat = old(stack)@.len() + 2 * words_size(words@);
        let ghost o = *old(self);
        let mut i: usize = 0;
        assert(words@.take(0) =~= Seq::<Word>::empty());
        while i < words.len()
            invariant
                i <= words.len(),
                conversion_keeps(*old(self), *self),
                o == *old(self),
                m == len0 + 2 * words_size(words@),
                self.next_register <= o.next_register + needs(words@.take(i as int), m),
                self.next_block <= o.next_block + 3 * words_size(words@.take(i as int)),
                forall|g: GenState| #[trigger] holds(o, old(stack)@, g)
                    ==> holds(*self, stack@, gen_words(words@.take(i as int), g, params, cur)),
                params == self.params(),
                cur == self.current_name(),
                params == old(self).params(),
                cur == old(self).current_name(),
                len0 == old(stack)@.len() as int,
                words_depth(words@.take(i as int), len0, params, cur) == Ok::<int, DepthError>(stack@.len() as int),
            decreases words.len() - i,
        {
            proof {
                lemma_words_size_prefix(words@, i as int);
                assert(words@.take(i + 1).drop_last() =~= words@.take(i as int));
                assert(words@.take(i + 1).last() == words@[i as int]);
                lemma_words_depth_bound(words@.take(i as int), len0, params, cur);
                lemma_words_size_prefix(words@.take(i + 1), i as int);
                assert(words@.take(i + 1).take(i as int) =~= words@.take(i as int));
                lemma_needs_prefix(words@, i as int, m);
                lemma_need_w_mono(words@[i as int], stack@.len() + 2 * word_size(words@[i as int]), m);
                lemma_needs_mono(words@, 0, m);
                lemma_needs_mono(words@.take(i as int), 0, m);
            }
            let ghost d = stack@.len() as int;
            let ghost oi = *self;
            let ghost old_st = stack@;
            match self.convert_word(&words[i], stack) {
                Ok(()) => {}
                Err(e) => {
                    proof {
                        assert(conversion_error(e));
                        lemma_words_size_prefix(words@, i as int);
                        if word_depth(words@[i as int], d, params, cur) is Err {
                            assert(words_depth(words@.take(i + 1), len0, params, cur) == word_depth(words@[i as int], d, params, cur));
                            lemma_words_depth_prefix_none(words@, i + 1, len0, params, cur);
                        }
                    }
                    return Err(e);
                },
            }
            proof {
                assert(words_size(words@.take(i + 1)) == words_size(words@.take(i as int)) + word_size(words@[i as int]));
                assert forall|g: GenState| #[trigger] holds(o, old(stack)@, g)
                    implies holds(*self, stack@, gen_words(words@.take(i + 1), g, params, cur)) by {
                    let h = gen_words(words@.take(i as int), g, params, cur);
                    assert(holds(oi, old_st, h));
                }
            }
            i = i + 1;
        }
        assert(words@.take(words.len() as int) =~= words@);
        Ok(())
    }

    /// Converts one word, emitting the code `gen_word` describes.
    pub fn convert_word(&mut self, word: &Word, stack: &mut Vec<Register>) -> (r: Result<(), ForthError>)
        requires
            old(self).ready(),
        ensures
            conversion_keeps(*old(self), *final(self)),
            depth_result(word_depth(*word, old(stack)@.len() as int, old(self).params(), old(self).current_name()), final(stack)@.len() as int, r),
            within_budget(*old(self), *final(self), r, need_w(*word, old(stack)@.len() + 2 * word_size(*word)), 3 * word_size(*word)),
            r is Ok ==> forall|g: GenState| #[trigger] holds(*old(self), old(stack)@, g)
                ==> holds(*final(self), final(stack)@, gen_word(*word, g, old(self).params(), old(self).current_name())),
        decreases word_size(*word), 0int,
    {
        proof {
            lemma_need_w_mono(*word, 0, old(stack)@.len() + 2 * word_size(*word));
            lemma_word_size_pos(*word);
        }
        if self.next_register > usize::MAX - 2 || self.next_block > usize::MAX - 3 {
            return Err(exhausted());
        }
        let ghost c0 = *self;
        let ghost s0 = stack@;
        let ghost params = self.params();
        let ghost curn = self.current_name();
        match word {
            Word::IntLiteral(value) => {
                let dest = self.fresh_register();
                let ghost c1 = *self;
                let inst = SSAInstruction::LoadInt { dest, value: *value };
                self.emit_as(inst, Ghost(InstSpec::Plain(inst)));
                stack.push(dest);
                proof {
                    assert forall|g: GenState| #[trigger] holds(c0, s0, g) implies holds(*self, stack@, gen_word(*word, g, params, curn)) by {
                        lemma_code_emit(c1.blocks@, self.blocks@, g.cur, g.code, seq![InstSpec::Plain(inst)]);
                    }
                }
            }
            Word::FloatLiteral(value) => {
                let dest = self.fresh_register();
                let ghost c1 = *self;
                self.emit_as(SSAInstruction::LoadFloat { dest, value: value.clone() }, Ghost(InstSpec::LoadFloat(dest, value@)));
                stack.push(dest);
                proof {
                    assert forall|g: GenState| #[trigger] holds(c0, s0, g) implies holds(*self, stack@, gen_word(*word, g, params, curn)) by {
                        lemma_code_emit(c1.blocks@, self.blocks@, g.cur, g.code, seq![InstSpec::LoadFloat(dest, value@)]);
                    }
                }
            }
            Word::StringLiteral(value) => {
                let dest_addr = self.fresh_register();
                let dest_len = self.fresh_register();
                let ghost c1 = *self;
                self.emit_as(SSAInstruction::LoadString { dest_addr, dest_len, value: value.clone() },
                    Ghost(InstSpec::LoadString(dest_addr, dest_len, value@)));
                stack.push(dest_addr);
                stack.push(dest_len);
                proof {
                    assert forall|g: GenState| #[trigger] holds(c0, s0, g) implies holds(*self, stack@, gen_word(*word, g, params, curn)) by {
                        lemma_code_emit(c1.blocks@, self.blocks@, g.cur, g.code, seq![InstSpec::LoadString(dest_addr, dest_len, value@)]);
                    }
                }
            }
            Word::WordRef { name, .. } => {
                proof { lemma_call_alloc(name@, stack@, self.next_register as int, self.params(), self.current_name()); }
                let r = self.convert_word_call(name, stack);
                proof {
                    lemma_call_len(name@, old(stack)@, old(self).next_register as int, old(self).params(), old(self).current_name());
                    if r is Ok {
                        let out = call_spec(name@, s0, c0.next_register as int, params, curn);
                        assert forall|g: GenState| #[trigger] holds(c0, s0, g) implies holds(*self, stack@, gen_word(*word, g, params, curn)) by {
                            match out {
                                CallOutcome::Done(ns, es, u) => {
                                    lemma_code_emit(c0.blocks@, self.blocks@, g.cur, g.code, es);
                                },
                                _ => {},
                            }
                        }
                    }
                }
                return r;
            }
            Word::If { then_branch, else_branch } => {
                return self.convert_if(then_branch, else_branch, stack);
            }
            Word::BeginUntil { body } => {
                return self.convert_begin_until(body, stack);
            }
            Word::BeginWhileRepeat { condition, body } => {
                return self.convert_begin_while_repeat(condition, body, stack);
            }
            Word::DoLoop { body, .. } => {
                return self.convert_do_loop(body, stack);
            }
            Word::Variable { .. } => {
                let dest = self.fresh_register();
                stack.push(dest);
            }
            Word::Constant { value, .. } => {
                let dest = self.fresh_register();
                let ghost c1 = *self;
                let inst = SSAInstruction::LoadInt { dest, value: *value };
                self.emit_as(inst, Ghost(InstSpec::Plain(inst)));
                stack.push(dest);
                proof {
                    assert forall|g: GenState| #[trigger] holds(c0, s0, g) implies holds(*self, stack@, gen_word(*word, g, params, curn)) by {
                        lemma_code_emit(c1.blocks@, self.blocks@, g.cur, g.code, seq![InstSpec::Plain(inst)]);
                    }
                }
            }
            Word::Comment(_) => {}
        }
        Ok(())
    }

    /// `IF ... [ELSE ...] THEN`: a branch on the popped condition, both arms
    /// converted from the same stack, and phi nodes where they differ (the
    /// code `gen_if` describes).
    pub fn convert_if(&mut self, then_branch: &Vec<Word>, else_branch: &Option<Vec<Word>>, stack: &mut Vec<Register>) -> (r: Result<(), ForthError>)
        requires
            old(self).ready(),
            old(self).next_block <= usize::MAX - 3,
        ensures
            conversion_keeps(*old(self), *final(self)),
            depth_result(if_depth(then_branch@, match else_branch { Some(e) => Some(e@), None => None }, old(stack)@.len() as int, old(self).params(), old(self).current_name()), final(stack)@.len() as int, r),
            ({
                let sz = 1 + words_size(then_branch@) + words_size(else_words(match else_branch { Some(e) => Some(e@), None => None }));
                let m = old(stack)@.len() + 2 * sz;
                within_budget(*old(self), *final(self), r,
                    needs(then_branch@, m) + needs(else_words(match else_branch { Some(e) => Some(e@), None => None }), m) + m, 3 * sz)
            }),
            r is Ok ==> forall|g: GenState| #[trigger] holds(*old(self), old(stack)@, g)
                ==> holds(*final(self), final(stack)@, gen_if(then_branch@, match else_branch { Some(e) => Some(e@), None => None },
                    g, old(self).params(), old(self).current_name())),
        decreases words_size(then_branch@) + match else_branch { Some(e) => words_size(e@), None => 0 }, 2int,
    {
        let ghost params = old(self).params();
        let ghost cur = old(self).current_name();
        let ghost len0 = old(stack)@.len() as int;
        let ghost els = match else_branch { Some(e) => Some(e@), None => None::<Seq<Word>> };
        let ghost ew = else_words(els);
        let ghost o = *old(self);
        let ghost sz: nat = 1 + words_size(then_branch@) + words_size(ew);
        let ghost m: nat = old(stack)@.len() + 2 * sz;
        let condition = match stack.pop() {
            Some(c) => c,
            None => return Err(underflow("IF", 1, 0)),
        };
        proof {
            lemma_needs_mono(then_branch@, (len0 - 1 + 2 * words_size(then_branch@)) as nat, m);
            lemma_needs_mono(ew, (len0 - 1 + 2 * words_size(ew)) as nat, m);
            lemma_words_depth_bound(then_branch@, len0 - 1, params, cur);
            if els is None {
                assert(ew =~= Seq::<Word>::empty());
            }
        }
        let ghost s0 = old(stack)@;
        let ghost rest = stack@;
        let then_block = self.create_block();
        let ghost c1 = *self;
        let merge_block = self.create_block();
        let ghost c2 = *self;
        let else_block = match else_branch {
            Some(_) => self.create_block(),
            None => merge_block,
        };
        let ghost c3 = *self;
        let branch_block = self.current_block;
        let branch = SSAInstruction::Branch { condition, true_block: then_block, false_block: else_block };
        self.emit_as(branch, Ghost(InstSpec::Plain(branch)));
        let ghost c4 = *self;
        let original_stack = copy_registers(stack);

        self.set_current_block(then_block);
        let ghost c5 = *self;
        let mut then_stack = copy_registers(&original_stack);
        assert(then_stack@.len() == len0 - 1);
        match self.convert_sequence(then_branch, &mut then_stack) {
            Ok(()) => {}
            Err(e) => return Err(e),
        }
        let ghost c6 = *self;
        assert(words_depth(then_branch@, len0 - 1, params, cur) == Ok::<int, DepthError>(then_stack@.len() as int));
        let actual_then_block = self.current_block;
        let jump = SSAInstruction::Jump { target: merge_block };
        self.emit_as(jump, Ghost(InstSpec::Plain(jump)));
        let ghost c7 = *self;
        let ghost mut c8 = c7;
        let ghost mut c9 = c7;

        let (else_final, actual_else_block) = match else_branch {
            Some(else_words) => {
                self.set_current_block(else_block);
                proof { c8 = *self; }
                let mut else_stack = copy_registers(&original_stack);
                assert(else_stack@.len() == len0 - 1);
                match self.convert_sequence(else_words, &mut else_stack) {
                    Ok(()) => {}
                    Err(e) => return Err(e),
                }
                proof { c9 = *self; }
                assert(words_depth(else_words@, len0 - 1, params, cur) == Ok::<int, DepthError>(else_stack@.len() as int));
                let actual_block = self.current_block;
                let jump2 = SSAInstruction::Jump { target: merge_block };
                self.emit_as(jump2, Ghost(InstSpec::Plain(jump2)));
                (else_stack, actual_block)
            }
            None => (original_stack, branch_block),
        };
        let ghost c10 = *self;

        if then_stack.len() != else_final.len() {
            let mut message = String::new();
            push_str(&mut message, "THEN branch leaves ");
            let a = crate::text::usize_text(then_stack.len());
            push_str(&mut message, a.as_str());
            push_str(&mut message, " items, ELSE branch leaves ");
            let b = crate::text::usize_text(else_final.len());
            push_str(&mut message, b.as_str());
            push_str(&mut message, " items");
            return Err(ForthError::StackMismatch {
                word: "IF-THEN-ELSE".to_owned(),
                then_depth: then_stack.len(),
                else_depth: else_final.len(),
                message,
            });
        }

        self.set_current_block(merge_block);
        let mut merged: Vec<Register> = Vec::new();
        proof {
            assert forall|g: GenState| #[trigger] holds(o, s0, g) implies ({
                let a = if_arms(then_branch@, els, g, params, cur);
                &&& a.1 == then_stack@ && a.2 == else_final@ && a.3 == actual_then_block.0 && a.4 == actual_else_block.0
                &&& holds(*self, merged@, g_merge(a.1, a.2, a.3, a.4, 0, g_at(a.0, o.next_block + 1)))
            }) by {
                let g1a = g_block(g);
                lemma_code_block(o.blocks@, c1.blocks@, g.code);
                let g1b = g_block(g1a);
                lemma_code_block(c1.blocks@, c2.blocks@, g1a.code);
                let g1 = if els is Some { g_block(g1b) } else { g1b };
                if els is Some {
                    lemma_code_block(c2.blocks@, c3.blocks@, g1b.code);
                }
                lemma_code_emit(c3.blocks@, c4.blocks@, g1.cur, g1.code, seq![InstSpec::Plain(branch)]);
                let g2 = g_emit(g1, seq![InstSpec::Plain(branch)]);
                assert(s0.drop_last() =~= rest);
                let gt = g_stack(g_at(g2, o.next_block as int), rest);
                assert(holds(c5, rest, gt));
                let t = gen_words(then_branch@, gt, params, cur);
                assert(holds(c6, then_stack@, t));
                lemma_code_emit(c6.blocks@, c7.blocks@, t.cur, t.code, seq![InstSpec::Plain(jump)]);
                let t2 = g_emit(t, seq![InstSpec::Plain(jump)]);
                if els is Some {
                    let ge = g_stack(g_at(t2, o.next_block + 2), rest);
                    assert(holds(c8, rest, ge));
                    let e = gen_words(els->0, ge, params, cur);
                    assert(holds(c9, else_final@, e));
                    lemma_code_emit(c9.blocks@, c10.blocks@, e.cur, e.code, seq![InstSpec::Plain(SSAInstruction::Jump { target: merge_block })]);
                }
            }
        }
        let mut k: usize = 0;
        while k < then_stack.len()
            invariant
                k <= then_stack.len(),
                merged@.len() == k,
                then_stack.len() == else_final.len(),
                conversion_keeps(*old(self), *self),
                merge_block.0 < self.blocks@.len(),
                self.current_block == merge_block,
                self.next_register <= o.next_register + needs(then_branch@, m) + needs(ew, m) + k,
                self.next_block <= o.next_block + 3 * sz,
                then_stack.len() <= m,
                o == *old(self),
                s0 == old(stack)@,
                els == match else_branch { Some(e) => Some(e@), None => None::<Seq<Word>> },
                params == o.params(),
                cur == o.current_name(),
                merge_block == BlockId((o.next_block + 1) as usize),
                forall|g: GenState| #[trigger] holds(o, s0, g) ==> ({
                    let a = if_arms(then_branch@, els, g, params, cur);
                    &&& a.1 == then_stack@ && a.2 == else_final@ && a.3 == actual_then_block.0 && a.4 == actual_else_block.0
                    &&& holds(*self, merged@, g_merge(a.1, a.2, a.3, a.4, k as int, g_at(a.0, o.next_block + 1)))
                }),
                ew == else_words(match else_branch { Some(e) => Some(e@), None => None }),
                sz == 1 + words_size(then_branch@) + words_size(ew),
                m == old(stack)@.len() + 2 * sz,
            decreases then_stack.len() - k,
        {
            let t = then_stack[k];
            let e = else_final[k];
            let ghost cb = *self;
            let ghost mb0 = merged@;
            if t == e {
                merged.push(t);
                proof {
                    assert forall|g: GenState| #[trigger] holds(o, s0, g) implies ({
                        let a = if_arms(then_branch@, els, g, params, cur);
                        &&& a.1 == then_stack@ && a.2 == else_final@ && a.3 == actual_then_block.0 && a.4 == actual_else_block.0
                        &&& holds(*self, merged@, g_merge(a.1, a.2, a.3, a.4, k + 1, g_at(a.0, o.next_block + 1)))
                    }) by {
                        let a = if_arms(then_branch@, els, g, params, cur);
                        assert(holds(cb, mb0, g_merge(a.1, a.2, a.3, a.4, k as int, g_at(a.0, o.next_block + 1))));
                    }
                }
            } else {
                if self.next_register == usize::MAX {
                    assert(k < then_stack.len());
                    assert(!budget_ok(o, needs(then_branch@, m) + needs(ew, m) + m, 3 * sz));
                    return Err(exhausted());
                }
                let phi = self.fresh_register();
                let ghost cf = *self;
                let mut incoming: Vec<(BlockId, Register)> = Vec::new();
                incoming.push((actual_then_block, t));
                incoming.push((actual_else_block, e));
                let ghost xs = incoming@;
                self.emit_as(SSAInstruction::Phi { dest: phi, incoming }, Ghost(InstSpec::Phi(phi, xs)));
                merged.push(phi);
                proof {
                    assert(xs =~= seq![(BlockId(actual_then_block.0 as usize), t), (BlockId(actual_else_block.0 as usize), e)]);
                    assert forall|g: GenState| #[trigger] holds(o, s0, g) implies ({
                        let a = if_arms(then_branch@, els, g, params, cur);
                        &&& a.1 == then_stack@ && a.2 == else_final@ && a.3 == actual_then_block.0 && a.4 == actual_else_block.0
                        &&& holds(*self, merged@, g_merge(a.1, a.2, a.3, a.4, k + 1, g_at(a.0, o.next_block + 1)))
                    }) by {
                        let a = if_arms(then_branch@, els, g, params, cur);
                        let h = g_merge(a.1, a.2, a.3, a.4, k as int, g_at(a.0, o.next_block + 1));
                        assert(holds(cb, mb0, h));
                        lemma_code_emit(cf.blocks@, self.blocks@, h.cur, h.code, seq![InstSpec::Phi(phi, xs)]);
                    }
                }
            }
            k = k + 1;
        }
        *stack = merged;
        Ok(())
    }

    /// `BEGIN ... UNTIL`: a loop block whose end branches on the popped condition
    /// (the code `gen_until` describes).
    pub fn convert_begin_until(&mut self, body: &Vec<Word>, stack: &mut Vec<Register>) -> (r: Result<(), ForthError>)
        requires
            old(self).ready(),
            old(self).next_block <= usize::MAX - 3,
        ensures
            conversion_keeps(*old(self), *final(self)),
            depth_result(until_depth(body@, old(stack)@.len() as int, old(self).params(), old(self).current_name()), final(stack)@.len() as int, r),
            within_budget(*old(self), *final(self), r, needs(body@, old(stack)@.len() + 2 * (1 + words_size(body@))), 3 * (1 + words_size(body@))),
            r is Ok ==> forall|g: GenState| #[trigger] holds(*old(self), old(stack)@, g)
                ==> holds(*final(self), final(stack)@, gen_until(body@, g, old(self).params(), old(self).current_name())),
        decreases words_size(body@), 2int,
    {
        proof {
            lemma_needs_mono(body@, (stack@.len() + 2 * words_size(body@)) as nat, (stack@.len() + 2 * (1 + words_size(body@))) as nat);
        }
        let ghost c0 = *self;
        let ghost s0 = stack@;
        let loop_block = self.create_block();
        let ghost c1 = *self;
        let exit_block = self.create_block();
        let ghost c2 = *self;
        let jump = SSAInstruction::Jump { target: loop_block };
        self.emit_as(jump, Ghost(InstSpec::Plain(jump)));
        let ghost c3 = *self;
        self.set_current_block(loop_block);
        let ghost c4 = *self;
        let mut loop_stack = copy_registers(stack);
        let ghost params = old(self).params();
        let ghost cur = old(self).current_name();
        match self.convert_sequence(body, &mut loop_stack) {
            Ok(()) => {}
            Err(e) => return Err(e),
        }
        let ghost c5 = *self;
        let ghost s5 = loop_stack@;
        let condition = match loop_stack.pop() {
            Some(c) => c,
            None => return Err(underflow("UNTIL", 1, 0)),
        };
        let branch = SSAInstruction::Branch { condition, true_block: exit_block, false_block: loop_block };
        self.emit_as(branch, Ghost(InstSpec::Plain(branch)));
        let ghost c6 = *self;
        self.set_current_block(exit_block);
        *stack = loop_stack;
        proof {
            assert forall|g: GenState| #[trigger] holds(c0, s0, g) implies holds(*self, stack@, gen_until(body@, g, params, cur)) by {
                let g1 = g_block(g);
                lemma_code_block(c0.blocks@, c1.blocks@, g.code);
                let g2 = g_block(g1);
                lemma_code_block(c1.blocks@, c2.blocks@, g1.code);
                lemma_code_emit(c2.blocks@, c3.blocks@, g2.cur, g2.code, seq![InstSpec::Plain(jump)]);
                let g4 = g_at(g_emit(g2, seq![InstSpec::Plain(jump)]), g.nblk);
                assert(holds(c4, s0, g4));
                let b = gen_words(body@, g4, params, cur);
                assert(holds(c5, s5, b));
                lemma_code_emit(c5.blocks@, c6.blocks@, b.cur, b.code, seq![InstSpec::Plain(branch)]);
            }
        }
        Ok(())
    }

    /// `BEGIN ... WHILE ... REPEAT`: a condition block, a body block and an exit
    /// block (the code `gen_while` describes).
    pub fn convert_begin_while_repeat(&mut self, condition: &Vec<Word>, body: &Vec<Word>, stack: &mut Vec<Register>) -> (r: Result<(), ForthError>)
        requires
            old(self).ready(),
            old(self).next_block <= usize::MAX - 3,
        ensures
            conversion_keeps(*old(self), *final(self)),
            depth_result(while_depth(condition@, body@, old(stack)@.len() as int, old(self).params(), old(self).current_name()), final(stack)@.len() as int, r),
            ({
                let m = old(stack)@.len() + 2 * (1 + words_size(condition@) + words_size(body@));
                within_budget(*old(self), *final(self), r, needs(condition@, m) + needs(body@, m), 3 * (1 + words_size(condition@) + words_size(body@)))
            }),
            r is Ok ==> forall|g: GenState| #[trigger] holds(*old(self), old(stack)@, g)
                ==> holds(*final(self), final(stack)@, gen_while(condition@, body@, g, old(self).params(), old(self).current_name())),
        decreases words_size(condition@) + words_size(body@), 2int,
    {
        let ghost m: nat = old(stack)@.len() + 2 * (1 + words_size(condition@) + words_size(body@));
        proof {
            lemma_needs_mono(condition@, (stack@.len() + 2 * words_size(condition@)) as nat, m);
        }
        let ghost c0 = *self;
        let ghost s0 = stack@;
        let cond_block = self.create_block();
        let ghost c1 = *self;
        let body_block = self.create_block();
        let ghost c2 = *self;
        let exit_block = self.create_block();
        let ghost c3 = *self;
        let jump = SSAInstruction::Jump { target: cond_block };
        self.emit_as(jump, Ghost(InstSpec::Plain(jump)));
        let ghost c4 = *self;
        self.set_current_block(cond_block);
        let ghost c5 = *self;
        let mut cond_stack = copy_registers(stack);
        let ghost params = old(self).params();
        let ghost cur = old(self).current_name();
        match self.convert_sequence(condition, &mut cond_stack) {
            Ok(()) => {}
            Err(e) => return Err(e),
        }
        let ghost c6 = *self;
        let ghost s6 = cond_stack@;
        let cond_val = match cond_stack.pop() {
            Some(c) => c,
            None => return Err(underflow("WHILE", 1, 0)),
        };
        let branch = SSAInstruction::Branch { condition: cond_val, true_block: body_block, false_block: exit_block };
        self.emit_as(branch, Ghost(InstSpec::Plain(branch)));
        let ghost c7 = *self;
        self.set_current_block(body_block);
        let ghost c8 = *self;
        let mut body_stack = copy_registers(&cond_stack);
        let ghost clen = cond_stack@.len() as int;
        proof {
            lemma_words_depth_bound(condition@, old(stack)@.len() as int, params, cur);
            lemma_needs_mono(body@, (cond_stack@.len() + 2 * words_size(body@)) as nat, m);
        }
        match self.convert_sequence(body, &mut body_stack) {
            Ok(()) => {}
            Err(e) => return Err(e),
        }
        let ghost c9 = *self;
        let ghost s9 = body_stack@;
        let back = SSAInstruction::Jump { target: cond_block };
        self.emit_as(back, Ghost(InstSpec::Plain(back)));
        let ghost c10 = *self;
        self.set_current_block(exit_block);
        *stack = cond_stack;
        proof {
            assert forall|g: GenState| #[trigger] holds(c0, s0, g) implies holds(*self, stack@, gen_while(condition@, body@, g, params, cur)) by {
                let g1 = g_block(g);
                lemma_code_block(c0.blocks@, c1.blocks@, g.code);
                let g2 = g_block(g1);
                lemma_code_block(c1.blocks@, c2.blocks@, g1.code);
                let g3 = g_block(g2);
                lemma_code_block(c2.blocks@, c3.blocks@, g2.code);
                lemma_code_emit(c3.blocks@, c4.blocks@, g3.cur, g3.code, seq![InstSpec::Plain(jump)]);
                let g5 = g_at(g_emit(g3, seq![InstSpec::Plain(jump)]), g.nblk);
                assert(holds(c5, s0, g5));
                let cg = gen_words(condition@, g5, params, cur);
                assert(holds(c6, s6, cg));
                lemma_code_emit(c6.blocks@, c7.blocks@, cg.cur, cg.code, seq![InstSpec::Plain(branch)]);
                let g8 = g_stack(g_at(g_emit(cg, seq![InstSpec::Plain(branch)]), g.nblk + 1), s6.drop_last());
                assert(holds(c8, s6.drop_last(), g8));
                let bg = gen_words(body@, g8, params, cur);
                assert(holds(c9, s9, bg));
                lemma_code_emit(c9.blocks@, c10.blocks@, bg.cur, bg.code, seq![InstSpec::Plain(back)]);
            }
        }
        Ok(())
    }

    /// `DO ... LOOP`: the limit and start are popped; the body is a loop block
    /// (the code `gen_do` describes).
    pub fn convert_do_loop(&mut self, body: &Vec<Word>, stack: &mut Vec<Register>) -> (r: Result<(), ForthError>)
        requires
            old(self).ready(),
            old(self).next_block <= usize::MAX - 3,
        ensures
            conversion_keeps(*old(self), *final(self)),
            depth_result(do_depth(body@, old(stack)@.len() as int, old(self).params(), old(self).current_name()), final(stack)@.len() as int, r),
            within_budget(*old(self), *final(self), r, needs(body@, old(stack)@.len() + 2 * (1 + words_size(body@))), 3 * (1 + words_size(body@))),
            r is Ok ==> forall|g: GenState| #[trigger] holds(*old(self), old(stack)@, g)
                ==> holds(*final(self), final(stack)@, gen_do(body@, g, old(self).params(), old(self).current_name())),
        decreases words_size(body@), 2int,
    {
        if stack.len() < 2 {
            return Err(underflow("DO", 2, stack.len()));
        }
        stack.pop();
        stack.pop();
        proof {
            lemma_needs_mono(body@, (stack@.len() + 2 * words_size(body@)) as nat, (old(stack)@.len() + 2 * (1 + words_size(body@))) as nat);
        }
        let ghost c0 = *self;
        let ghost s0 = stack@;
        let ghost params = old(self).params();
        let ghost cur = old(self).current_name();
        let loop_block = self.create_block();
        let ghost c1 = *self;
        let exit_block = self.create_block();
        let ghost c2 = *self;
        let jump = SSAInstruction::Jump { target: loop_block };
        self.emit_as(jump, Ghost(InstSpec::Plain(jump)));
        let ghost c3 = *self;
        self.set_current_block(loop_block);
        let ghost c4 = *self;
        let mut loop_stack = copy_registers(stack);
        match self.convert_sequence(body, &mut loop_stack) {
            Ok(()) => {}
            Err(e) => return Err(e),
        }
        let ghost c5 = *self;
        let jump2 = SSAInstruction::Jump { target: exit_block };
        self.emit_as(jump2, Ghost(InstSpec::Plain(jump2)));
        let ghost c6 = *self;
        self.set_current_block(exit_block);
        *stack = loop_stack;
        proof {
            assert forall|g: GenState| #[trigger] holds(*old(self), old(stack)@, g) implies holds(*self, stack@, gen_do(body@, g, params, cur)) by {
                let ga = g_stack(g, g.st.drop_last().drop_last());
                assert(s0 =~= old(stack)@.drop_last().drop_last());
                assert(holds(c0, s0, ga));
                let g1 = g_block(ga);
                lemma_code_block(c0.blocks@, c1.blocks@, ga.code);
                let g2 = g_block(g1);
                lemma_code_block(c1.blocks@, c2.blocks@, g1.code);
                lemma_code_emit(c2.blocks@, c3.blocks@, g2.cur, g2.code, seq![InstSpec::Plain(jump)]);
                let g4 = g_at(g_emit(g2, seq![InstSpec::Plain(jump)]), g.nblk);
                assert(holds(c4, s0, g4));
                let bg = gen_words(body@, g4, params, cur);
                assert(holds(c5, loop_stack@, bg));
                lemma_code_emit(c5.blocks@, c6.blocks@, bg.cur, bg.code, seq![InstSpec::Plain(jump2)]);
            }
        }
        Ok(())
    }
}

/// A copy of a list of registers.
pub fn copy_registers(v: &Vec<Register>) -> (r: Vec<Register>)
    ensures
        r@ == v@,
{
    let mut r: Vec<Register> = Vec::new();
    let mut i: usize = 0;
    while i < v.len()
        invariant
            i <= v.len(),
            r@ == v@.take(i as int),
        decreases v.len() - i,
    {
        r.push(v[i]);
        i = i + 1;
        assert(r@ =~= v@.take(i as int));
    }
    assert(v@.take(v.len() as int) =~= v@);
    r
}

/// A function with `pc` parameters and the body `body` fits in the register
/// and block numbers: converting it cannot run out of them.
pub open spec fn function_fits(pc: nat, body: Seq<Word>) -> bool {
    &&& pc + needs(body, pc + 2 * words_size(body)) + 3 <= usize::MAX
    &&& 3 * words_size(body) + 4 <= usize::MAX
}

/// The code of a function with `pc` parameters and the body `body`, in one
/// entry block to start with: the body converted from the parameters
/// `%0 .. %(pc-1)`, then a return of what is left on the stack, or of a
/// zero loaded for it when nothing is.
pub open spec fn function_code(pc: nat, body: Seq<Word>, params: Map<Seq<char>, usize>, name: Seq<char>) -> Seq<Seq<InstSpec>> {
    let g0 = GenState { code: seq![Seq::<InstSpec>::empty()], cur: 0, nreg: pc as int, nblk: 1, st: first_registers(pc as int) };
    let b = gen_words(body, g0, params, Some(name));
    if b.st.len() == 0 {
        let z = reg(b.nreg);
        g_emit(b, seq![InstSpec::Plain(SSAInstruction::LoadInt { dest: z, value: 0 }), InstSpec::Return(seq![z])]).code
    } else {
        g_emit(b, seq![InstSpec::Return(b.st)]).code
    }
}

/// The number of parameters of a definition: the inputs of its declared
/// stack effect, or else as many as its body reaches below its start.
pub open spec fn declared_or_inferred(effect: Option<StackEffect>, body: Seq<Word>) -> int {
    match effect {
        Some(e) => e.inputs@.len() as int,
        None => -depth_scan(body).0,
    }
}

/// The definition's body is short enough for parameter inference.
pub open spec fn inferable(d: Definition) -> bool {
    d.stack_effect is None ==> 3 * d.body@.len() <= i32::MAX
}

impl SSAConverter {
    /// Converts a function body with `param_count` parameters: the body runs
    /// on the parameters, then returns what is left on the stack, or a zero
    /// when nothing is (the code `function_code` describes).
    pub fn convert_function(&mut self, name: &String, body: &Vec<Word>, param_count: usize) -> (r: Result<SSAFunction, ForthError>)
        requires
            old(self).wf(),
        ensures
            final(self).wf(),
            final(self).params() == old(self).params().insert(name@, param_count),
            final(self).current_name() == Some(name@),
            r matches Ok(f) ==> {
                &&& f.name@ == name@
                &&& f.parameters@ == first_registers(param_count as int)
                &&& f.entry_block == BlockId(0)
                &&& f.blocks@.len() > 0
                &&& f.blocks@[0].id == BlockId(0)
                &&& code_holds(f.blocks@, function_code(param_count as nat, body@, old(self).params().insert(name@, param_count), name@))
            },
            r is Ok ==> words_depth(body@, param_count as int, old(self).params().insert(name@, param_count), Some(name@)) is Ok,
            r matches Err(e) ==> conversion_error(e) && (
                (words_depth(body@, param_count as int, old(self).params().insert(name@, param_count), Some(name@)) matches Err(de)
                    && error_matches(e, de))
                || (e is InternalError && !function_fits(param_count as nat, body@))),
    {
        self.next_block = 0;
        self.blocks.clear();
        self.current_block = BlockId(0);
        self.current_function_name = Some(name.clone());
        let mut function = SSAFunction::new(name.clone(), param_count);
        self.set_param_count(name.clone(), param_count);
        self.next_register = param_count;
        let ghost ca = *self;
        let entry = self.create_block();
        let ghost cbk = *self;
        self.set_current_block(entry);
        let ghost params1 = self.params();
        let mut stack = copy_registers(&function.parameters);
        assert(stack@.len() == param_count);
        let ghost g0 = GenState { code: seq![Seq::<InstSpec>::empty()], cur: 0, nreg: param_count as int, nblk: 1,
            st: first_registers(param_count as int) };
        proof {
            assert(code_holds(ca.blocks@, Seq::empty()));
            lemma_code_block(ca.blocks@, cbk.blocks@, Seq::empty());
            assert(Seq::<Seq<InstSpec>>::empty().push(Seq::empty()) =~= seq![Seq::<InstSpec>::empty()]);
            assert(holds(*self, stack@, g0));
        }
        let ghost cs = *self;
        match self.convert_sequence(body, &mut stack) {
            Ok(()) => {}
            Err(e) => return Err(e),
        }
        let ghost b = gen_words(body@, g0, params1, Some(name@));
        assert(holds(*self, stack@, b));
        let ghost cz = *self;
        let ghost mut es: Seq<InstSpec> = Seq::empty();
        let values = if stack.len() == 0 {
            if self.next_register == usize::MAX {
                return Err(exhausted());
            }
            let zero = self.fresh_register();
            let ghost c1 = *self;
            let load = SSAInstruction::LoadInt { dest: zero, value: 0 };
            self.emit_as(load, Ghost(InstSpec::Plain(load)));
            proof {
                lemma_code_emit(c1.blocks@, self.blocks@, b.cur, b.code, seq![InstSpec::Plain(load)]);
                es = seq![InstSpec::Plain(load)];
            }
            one(zero)
        } else {
            stack
        };
        let ghost cr = *self;
        let ghost vs = values@;
        self.emit_as(SSAInstruction::Return { values }, Ghost(InstSpec::Return(vs)));
        proof {
            let bc = b.code.update(b.cur, b.code[b.cur] + es);
            lemma_code_emit(cr.blocks@, self.blocks@, b.cur, bc, seq![InstSpec::Return(vs)]);
            let x = b.code[b.cur];
            if b.st.len() == 0 {
                assert(vs =~= seq![reg(b.nreg)]);
                assert((x + es) + seq![InstSpec::Return(vs)] =~= x + seq![es[0], InstSpec::Return(vs)]);
            } else {
                assert(vs == b.st);
                assert((x + es) + seq![InstSpec::Return(vs)] =~= x + seq![InstSpec::Return(vs)]);
            }
            assert(bc.update(b.cur, bc[b.cur] + seq![InstSpec::Return(vs)])
                =~= function_code(param_count as nat, body@, params1, name@));
        }
        let mut blocks: Vec<BasicBlock> = Vec::new();
        std::mem::swap(&mut blocks, &mut self.blocks);
        function.blocks = blocks;
        self.next_block = 0;
        self.current_block = BlockId(0);
        Ok(function)
    }

    /// Converts a definition to an SSA function.
    pub fn convert_definition(&mut self, def: &Definition) -> (r: Result<SSAFunction, ForthError>)
        requires
            old(self).wf(),
            inferable(*def),
        ensures
            final(self).wf(),
            final(self).params() == old(self).params().insert(def.name@,
                declared_or_inferred(def.stack_effect, def.body@) as usize),
            r matches Ok(f) ==> {
                &&& f.name@ == def.name@
                &&& f.parameters@ == first_registers(declared_or_inferred(def.stack_effect, def.body@))
                &&& f.entry_block == BlockId(0)
                &&& f.blocks@.len() > 0
                &&& code_holds(f.blocks@, function_code(def_pc(*def) as nat, def.body@,
                    old(self).params().insert(def.name@, def_pc(*def) as usize), def.name@))
            },
            r is Ok ==> words_depth(def.body@, def_pc(*def), old(self).params().insert(def.name@, def_pc(*def) as usize),
                Some(def.name@)) is Ok,
            r matches Err(e) ==> conversion_error(e) && (
                (words_depth(def.body@, def_pc(*def), old(self).params().insert(def.name@, def_pc(*def) as usize),
                    Some(def.name@)) matches Err(de) && error_matches(e, de))
                || (e is InternalError && !function_fits(def_pc(*def) as nat, def.body@))),
    {
        let param_count = match &def.stack_effect {
            Some(effect) => effect.inputs.len(),
            None => infer_parameter_count(&def.body),
        };
        self.convert_function(&def.name, &def.body, param_count)
    }
}

/// The number of parameters of a definition.
pub open spec fn def_pc(d: Definition) -> int {
    declared_or_inferred(d.stack_effect, d.body@)
}

/// The parameter counts after recording the first `n` definitions.
pub open spec fn params_all(defs: Seq<Definition>, n: int) -> Map<Seq<char>, usize>
    decreases n,
{
    if n <= 0 { Map::empty() } else { params_all(defs, n - 1).insert(defs[n - 1].name@, def_pc(defs[n - 1]) as usize) }
}

/// The parameter counts when the first `j` definitions have been converted
/// (each conversion records its definition's count again).
pub open spec fn params_at(defs: Seq<Definition>, j: int) -> Map<Seq<char>, usize>
    decreases j,
{
    if j <= 0 { params_all(defs, defs.len() as int) } else { params_at(defs, j - 1).insert(defs[j - 1].name@, def_pc(defs[j - 1]) as usize) }
}

/// The depth outcome of converting definition `j`'s body.
pub open spec fn def_outcome(defs: Seq<Definition>, j: int) -> Result<int, DepthError> {
    words_depth(defs[j].body@, def_pc(defs[j]), params_at(defs, j + 1), Some(defs[j].name@))
}

/// The depth outcome of converting the top-level code as `main`.
pub open spec fn main_outcome(p: Program) -> Result<int, DepthError> {
    words_depth(p.top_level_code@, 0, params_at(p.definitions@, p.definitions@.len() as int).insert("main"@, 0usize), Some("main"@))
}

/// `e` is the error the depth model gives for the outcome `o`.
pub open spec fn outcome_error(o: Result<int, DepthError>, e: ForthError) -> bool {
    match o {
        Err(de) => error_matches(e, de),
        Ok(_) => false,
    }
}

/// Some definition, or the top-level code, does not fit in the register and
/// block numbers.
pub open spec fn program_too_large(p: Program) -> bool {
    ||| exists|j: int| 0 <= j < p.definitions@.len() && !function_fits(def_pc(#[trigger] p.definitions@[j]) as nat, p.definitions@[j].body@)
    ||| p.top_level_code@.len() > 0 && !function_fits(0, p.top_level_code@)
}

/// `e` is the error of converting some definition, or the top-level code.
pub open spec fn program_error(p: Program, e: ForthError) -> bool {
    ||| exists|j: int| 0 <= j < p.definitions@.len() && outcome_error(#[trigger] def_outcome(p.definitions@, j), e)
    ||| p.top_level_code@.len() > 0 && outcome_error(main_outcome(p), e)
}

/// Converts a program to SSA: one function per definition, in order, and a
/// function `main` for the top-level code when there is any. The parameter
/// counts of all definitions are known before the first is converted.
pub fn convert_to_ssa(program: &Program) -> (r: Result<Vec<SSAFunction>, ForthError>)
    requires
        forall|i: int| 0 <= i < program.definitions@.len() ==> inferable(#[trigger] program.definitions@[i]),
    ensures
        r matches Ok(fs) ==> {
            &&& fs@.len() == program.definitions@.len() + if program.top_level_code@.len() > 0 { 1int } else { 0int }
            &&& forall|i: int| 0 <= i < program.definitions@.len() ==> {
                &&& (#[trigger] fs@[i]).name@ == program.definitions@[i].name@
                &&& fs@[i].parameters@ == first_registers(declared_or_inferred(
                    program.definitions@[i].stack_effect, program.definitions@[i].body@))
                &&& code_holds(fs@[i].blocks@, function_code(def_pc(program.definitions@[i]) as nat,
                    program.definitions@[i].body@, params_at(program.definitions@, i + 1), program.definitions@[i].name@))
            }
            &&& program.top_level_code@.len() > 0 ==> fs@.last().name@ == "main"@ && fs@.last().parameters@.len() == 0
                && code_holds(fs@.last().blocks@, function_code(0, program.top_level_code@,
                    params_at(program.definitions@, program.definitions@.len() as int).insert("main"@, 0usize), "main"@))
            &&& forall|j: int| 0 <= j < program.definitions@.len() ==> #[trigger] def_outcome(program.definitions@, j) is Ok
            &&& program.top_level_code@.len() > 0 ==> main_outcome(*program) is Ok
        },
        r matches Err(e) ==> conversion_error(e) && (program_error(*program, e) || (e is InternalError && program_too_large(*program))),
        (forall|j: int| 0 <= j < program.definitions@.len() ==> #[trigger] def_outcome(program.definitions@, j) is Ok)
            && (program.top_level_code@.len() > 0 ==> main_outcome(*program) is Ok)
            && !program_too_large(*program) ==> r is Ok,
{
    let mut converter = SSAConverter::new();
    assert(converter.function_params@.map_values(|e: (String, usize)| (e.0@, e.1)).len() == 0);
    let mut i: usize = 0;
    while i < program.definitions.len()
        invariant
            i <= program.definitions.len(),
            converter.wf(),
            forall|k: int| 0 <= k < program.definitions@.len() ==> inferable(#[trigger] program.definitions@[k]),
            converter.params() == params_all(program.definitions@, i as int),
        decreases program.definitions.len() - i,
    {
        let def = &program.definitions[i];
        let pc = match &def.stack_effect {
            Some(effect) => effect.inputs.len(),
            None => infer_parameter_count(&def.body),
        };
        converter.set_param_count(def.name.clone(), pc);
        i = i + 1;
    }
    let mut functions: Vec<SSAFunction> = Vec::new();
    let mut j: usize = 0;
    while j < program.definitions.len()
        invariant
            j <= program.definitions.len(),
            converter.wf(),
            functions@.len() == j,
            forall|k: int| 0 <= k < program.definitions@.len() ==> inferable(#[trigger] program.definitions@[k]),
            converter.params() == params_at(program.definitions@, j as int),
            forall|k: int| 0 <= k < j ==> #[trigger] def_outcome(program.definitions@, k) is Ok,
            forall|k: int| 0 <= k < j ==> {
                &&& (#[trigger] functions@[k]).name@ == program.definitions@[k].name@
                &&& functions@[k].parameters@ == first_registers(declared_or_inferred(
                    program.definitions@[k].stack_effect, program.definitions@[k].body@))
                &&& code_holds(functions@[k].blocks@, function_code(def_pc(program.definitions@[k]) as nat,
                    program.definitions@[k].body@, params_at(program.definitions@, k + 1), program.definitions@[k].name@))
            },
        decreases program.definitions.len() - j,
    {
        match converter.convert_definition(&program.definitions[j]) {
            Ok(f) => functions.push(f),
            Err(e) => {
                proof {
                    if !(e is InternalError) {
                        assert(outcome_error(def_outcome(program.definitions@, j as int), e));
                    } else if function_fits(def_pc(program.definitions@[j as int]) as nat, program.definitions@[j as int].body@) {
                        assert(outcome_error(def_outcome(program.definitions@, j as int), e));
                    }
                }
                return Err(e);
            },
        }
        j = j + 1;
    }
    if program.top_level_code.len() > 0 {
        let name = "main".to_owned();
        proof { reveal_strlit("main"); }
        match converter.convert_function(&name, &program.top_level_code, 0) {
            Ok(f) => {
                functions.push(f);
                assert(first_registers(0).len() == 0);
            }
            Err(e) => {
                proof {
                    if !(e is InternalError) || function_fits(0, program.top_level_code@) {
                        assert(outcome_error(main_outcome(*program), e));
                    }
                }
                return Err(e);
            },
        }
    }
    Ok(functions)
}

/// `%n`.
pub open spec fn reg_text(r: Register) -> Seq<char> {
    "%"@ + decimal_text(r.0 as int)
}

/// `bbn`.
pub open spec fn block_text(b: BlockId) -> Seq<char> {
    "bb"@ + decimal_text(b.0 as int)
}

/// Registers joined with `, `.
pub open spec fn regs_text(rs: Seq<Register>) -> Seq<char>
    decreases rs.len(),
{
    if rs.len() == 0 {
        Seq::empty()
    } else if rs.len() == 1 {
        reg_text(rs[0])
    } else {
        regs_text(rs.drop_last()) + ", "@ + reg_text(rs.last())
    }
}

/// Phi operands `[bb, %r]` joined with `, `.
pub open spec fn incoming_text(xs: Seq<(BlockId, Register)>) -> Seq<char>
    decreases xs.len(),
{
    if xs.len() == 0 {
        Seq::empty()
    } else {
        let item = "["@ + block_text(xs.last().0) + ", "@ + reg_text(xs.last().1) + "]"@;
        if xs.len() == 1 { item } else { incoming_text(xs.drop_last()) + ", "@ + item }
    }
}

/// The text of an instruction.
pub open spec fn inst_text(i: SSAInstruction) -> Seq<char> {
    match i {
        SSAInstruction::LoadInt { dest, value } => reg_text(dest) + " = load "@ + decimal_text(value as int),
        SSAInstruction::LoadFloat { dest, value } => reg_text(dest) + " = load "@ + value@,
        SSAInstruction::LoadString { dest_addr, dest_len, value } =>
            reg_text(dest_addr) + ", "@ + reg_text(dest_len) + " = load_string \""@ + value@ + "\""@,
        SSAInstruction::BinaryOp { dest, op, left, right } =>
            reg_text(dest) + " = "@ + binop_text(op) + " "@ + reg_text(left) + ", "@ + reg_text(right),
        SSAInstruction::UnaryOp { dest, op, operand } => reg_text(dest) + " = "@ + unop_text(op) + " "@ + reg_text(operand),
        SSAInstruction::Call { dest, name, args } =>
            regs_text(dest@) + " = call "@ + name@ + "("@ + regs_text(args@) + ")"@,
        SSAInstruction::Branch { condition, true_block, false_block } =>
            "br "@ + reg_text(condition) + ", "@ + block_text(true_block) + ", "@ + block_text(false_block),
        SSAInstruction::Jump { target } => "jmp "@ + block_text(target),
        SSAInstruction::Return { values } => "ret "@ + regs_text(values@),
        SSAInstruction::Phi { dest, incoming } => reg_text(dest) + " = phi "@ + incoming_text(incoming@),
        SSAInstruction::Load { dest, address, .. } => reg_text(dest) + " = load "@ + reg_text(address),
        SSAInstruction::Store { address, value, .. } => "store "@ + reg_text(value) + ", "@ + reg_text(address),
        SSAInstruction::FFICall { dest, function, args } =>
            regs_text(dest@) + " = ffi_call "@ + function@ + "("@ + regs_text(args@) + ")"@,
        SSAInstruction::FileOpen { dest_fileid, dest_ior, path_addr, path_len, mode } =>
            reg_text(dest_fileid) + ", "@ + reg_text(dest_ior) + " = file_open "@ + reg_text(path_addr) + ", "@
                + reg_text(path_len) + ", "@ + reg_text(mode),
        SSAInstruction::FileRead { dest_bytes, dest_ior, buffer, count, fileid } =>
            reg_text(dest_bytes) + ", "@ + reg_text(dest_ior) + " = file_read "@ + reg_text(buffer) + ", "@
                + reg_text(count) + ", "@ + reg_text(fileid),
        SSAInstruction::FileWrite { dest_ior, buffer, count, fileid } =>
            reg_text(dest_ior) + " = file_write "@ + reg_text(buffer) + ", "@ + reg_text(count) + ", "@ + reg_text(fileid),
        SSAInstruction::FileClose { dest_ior, fileid } => reg_text(dest_ior) + " = file_close "@ + reg_text(fileid),
        SSAInstruction::FileDelete { dest_ior, path_addr, path_len } =>
            reg_text(dest_ior) + " = file_delete "@ + reg_text(path_addr) + ", "@ + reg_text(path_len),
        SSAInstruction::FileCreate { dest_fileid, dest_ior, path_addr, path_len, mode } =>
            reg_text(dest_fileid) + ", "@ + reg_text(dest_ior) + " = file_create "@ + reg_text(path_addr) + ", "@
                + reg_text(path_len) + ", "@ + reg_text(mode),
        SSAInstruction::SystemCall { dest, command_addr, command_len } =>
            reg_text(dest) + " = system "@ + reg_text(command_addr) + ", "@ + reg_text(command_len),
    }
}

/// Appends the text of a register.
pub fn push_reg(out: &mut String, r: Register)
    ensures
        final(out)@ == old(out)@ + reg_text(r),
{
    push_str(out, "%");
    let d = usize_text(r.0);
    push_str(out, d.as_str());
}

/// Appends the text of a block identifier.
pub fn push_block(out: &mut String, b: BlockId)
    ensures
        final(out)@ == old(out)@ + block_text(b),
{
    push_str(out, "bb");
    let d = usize_text(b.0);
    push_str(out, d.as_str());
}

fn push_regs(out: &mut String, rs: &Vec<Register>)
    ensures
        final(out)@ == old(out)@ + regs_text(rs@),
{
    let ghost start = out@;
    let mut i: usize = 0;
    while i < rs.len()
        invariant
            i <= rs.len(),
            out@ == start + regs_text(rs@.take(i as int)),
        decreases rs.len() - i,
    {
        assert(rs@.take(i + 1).drop_last() =~= rs@.take(i as int));
        if i > 0 {
            push_str(out, ", ");
        }
        push_reg(out, rs[i]);
        proof {
            if i == 0 { assert(rs@.take(1) =~= seq![rs@[0]]); }
            assert(out@ =~= start + regs_text(rs@.take(i + 1)));
        }
        i = i + 1;
    }
    assert(rs@.take(rs.len() as int) =~= rs@);
}

fn push_incoming(out: &mut String, xs: &Vec<(BlockId, Register)>)
    ensures
        final(out)@ == old(out)@ + incoming_text(xs@),
{
    let ghost start = out@;
    let mut i: usize = 0;
    while i < xs.len()
        invariant
            i <= xs.len(),
            out@ == start + incoming_text(xs@.take(i as int)),
        decreases xs.len() - i,
    {
        assert(xs@.take(i + 1).drop_last() =~= xs@.take(i as int));
        let ghost before = out@;
        if i > 0 {
            push_str(out, ", ");
        }
        push_str(out, "[");
        push_block(out, xs[i].0);
        push_str(out, ", ");
        push_reg(out, xs[i].1);
        push_str(out, "]");
        proof {
            if i == 0 { assert(xs@.take(1) =~= seq![xs@[0]]); }
            assert(out@ =~= start + incoming_text(xs@.take(i + 1)));
        }
        i = i + 1;
    }
    assert(xs@.take(xs.len() as int) =~= xs@);
}

/// The text of an instruction.
pub fn format_instruction(inst: &SSAInstruction) -> (r: String)
    ensures
        r@ == inst_text(*inst),
{
    let mut out = String::new();
    match inst {
        SSAInstruction::LoadInt { dest, value } => {
            push_reg(&mut out, *dest);
            push_str(&mut out, " = load ");
            let d = crate::text::i64_text(*value);
            push_str(&mut out, d.as_str());
        }
        SSAInstruction::LoadFloat { dest, value } => {
            push_reg(&mut out, *dest);
            push_str(&mut out, " = load ");
            push_str(&mut out, value.as_str());
        }
        SSAInstruction::LoadString { dest_addr, dest_len, value } => {
            push_reg(&mut out, *dest_addr);
            push_str(&mut out, ", ");
            push_reg(&mut out, *dest_len);
            push_str(&mut out, " = load_string \"");
            push_str(&mut out, value.as_str());
            push_str(&mut out, "\"");
        }
        SSAInstruction::BinaryOp { dest, op, left, right } => {
            push_reg(&mut out, *dest);
            push_str(&mut out, " = ");
            push_str(&mut out, op.display_text());
            push_str(&mut out, " ");
            push_reg(&mut out, *left);
            push_str(&mut out, ", ");
            push_reg(&mut out, *right);
        }
        SSAInstruction::UnaryOp { dest, op, operand } => {
            push_reg(&mut out, *dest);
            push_str(&mut out, " = ");
            push_str(&mut out, op.display_text());
            push_str(&mut out, " ");
            push_reg(&mut out, *operand);
        }
        SSAInstruction::Call { dest, name, args } => {
            push_regs(&mut out, dest);
            push_str(&mut out, " = call ");
            push_str(&mut out, name.as_str());
            push_str(&mut out, "(");
            push_regs(&mut out, args);
            push_str(&mut out, ")");
        }
        SSAInstruction::Branch { condition, true_block, false_block } => {
            push_str(&mut out, "br ");
            push_reg(&mut out, *condition);
            push_str(&mut out, ", ");
            push_block(&mut out, *true_block);
            push_str(&mut out, ", ");
            push_block(&mut out, *false_block);
        }
        SSAInstruction::Jump { target } => {
            push_str(&mut out, "jmp ");
            push_block(&mut out, *target);
        }
        SSAInstruction::Return { values } => {
            push_str(&mut out, "ret ");
            push_regs(&mut out, values);
        }
        SSAInstruction::Phi { dest, incoming } => {
            push_reg(&mut out, *dest);
            push_str(&mut out, " = phi ");
            push_incoming(&mut out, incoming);
        }
        SSAInstruction::Load { dest, address, .. } => {
            push_reg(&mut out, *dest);
            push_str(&mut out, " = load ");
            push_reg(&mut out, *address);
        }
        SSAInstruction::Store { address, value, .. } => {
            push_str(&mut out, "store ");
            push_reg(&mut out, *value);
            push_str(&mut out, ", ");
            push_reg(&mut out, *address);
        }
        SSAInstruction::FFICall { dest, function, args } => {
            push_regs(&mut out, dest);
            push_str(&mut out, " = ffi_call ");
            push_str(&mut out, function.as_str());
            push_str(&mut out, "(");
            push_regs(&mut out, args);
            push_str(&mut out, ")");
        }
        SSAInstruction::FileOpen { dest_fileid, dest_ior, path_addr, path_len, mode } => {
            push_reg(&mut out, *dest_fileid);
            push_str(&mut out, ", ");
            push_reg(&mut out, *dest_ior);
            push_str(&mut out, " = file_open ");
            push_reg(&mut out, *path_addr);
            push_str(&mut out, ", ");
            push_reg(&mut out, *path_len);
            push_str(&mut out, ", ");
            push_reg(&mut out, *mode);
        }
        SSAInstruction::FileRead { dest_bytes, dest_ior, buffer, count, fileid } => {
            push_reg(&mut out, *dest_bytes);
            push_str(&mut out, ", ");
            push_reg(&mut out, *dest_ior);
            push_str(&mut out, " = file_read ");
            push_reg(&mut out, *buffer);
            push_str(&mut out, ", ");
            push_reg(&mut out, *count);
            push_str(&mut out, ", ");
            push_reg(&mut out, *fileid);
        }
        SSAInstruction::FileWrite { dest_ior, buffer, count, fileid } => {
            push_reg(&mut out, *dest_ior);
            push_str(&mut out, " = file_write ");
            push_reg(&mut out, *buffer);
            push_str(&mut out, ", ");
            push_reg(&mut out, *count);
            push_str(&mut out, ", ");
            push_reg(&mut out, *fileid);
        }
        SSAInstruction::FileClose { dest_ior, fileid } => {
            push_reg(&mut out, *dest_ior);
            push_str(&mut out, " = file_close ");
            push_reg(&mut out, *fileid);
        }
        SSAInstruction::FileDelete { dest_ior, path_addr, path_len } => {
            push_reg(&mut out, *dest_ior);
            push_str(&mut out, " = file_delete ");
            push_reg(&mut out, *path_addr);
            push_str(&mut out, ", ");
            push_reg(&mut out, *path_len);
        }
        SSAInstruction::FileCreate { dest_fileid, dest_ior, path_addr, path_len, mode } => {
            push_reg(&mut out, *dest_fileid);
            push_str(&mut out, ", ");
            push_reg(&mut out, *dest_ior);
            push_str(&mut out, " = file_create ");
            push_reg(&mut out, *path_addr);
            push_str(&mut out, ", ");
            push_reg(&mut out, *path_len);
            push_str(&mut out, ", ");
            push_reg(&mut out, *mode);
        }
        SSAInstruction::SystemCall { dest, command_addr, command_len } => {
            push_reg(&mut out, *dest);
            push_str(&mut out, " = system ");
            push_reg(&mut out, *command_addr);
            push_str(&mut out, ", ");
            push_reg(&mut out, *command_len);
        }
    }
    out
}

/// The lines of a block's instructions, each indented by two spaces.
pub open spec fn insts_text(is: Seq<SSAInstruction>) -> Seq<char>
    decreases is.len(),
{
    if is.len() == 0 { Seq::empty() } else { insts_text(is.drop_last()) + "  "@ + inst_text(is.last()) + "\n"@ }
}

/// The text of blocks: each label line, then its instructions.
pub open spec fn blocks_text(bs: Seq<BasicBlock>) -> Seq<char>
    decreases bs.len(),
{
    if bs.len() == 0 {
        Seq::empty()
    } else {
        blocks_text(bs.drop_last()) + block_text(bs.last().id) + ":\n"@ + insts_text(bs.last().instructions@)
    }
}

/// The text a function displays.
pub open spec fn function_text(f: SSAFunction) -> Seq<char> {
    "define "@ + f.name@ + " (\n"@ + regs_text(f.parameters@) + ") {\n"@ + blocks_text(f.blocks@) + "}\n"@
}

impl SSAFunction {
    /// The text this function displays.
    pub fn display_text(&self) -> (r: String)
        ensures
            r@ == function_text(*self),
    {
        let mut out = String::new();
        push_str(&mut out, "define ");
        push_str(&mut out, self.name.as_str());
        push_str(&mut out, " (\n");
        push_regs(&mut out, &self.parameters);
        push_str(&mut out, ") {\n");
        let ghost start = out@;
        let mut b: usize = 0;
        while b < self.blocks.len()
            invariant
                b <= self.blocks.len(),
                out@ == start + blocks_text(self.blocks@.take(b as int)),
            decreases self.blocks.len() - b,
        {
            assert(self.blocks@.take(b + 1).drop_last() =~= self.blocks@.take(b as int));
            let block = &self.blocks[b];
            push_block(&mut out, block.id);
            push_str(&mut out, ":\n");
            let ghost mid = out@;
            let mut k: usize = 0;
            while k < block.instructions.len()
                invariant
                    k <= block.instructions.len(),
                    out@ == mid + insts_text(block.instructions@.take(k as int)),
                decreases block.instructions.len() - k,
            {
                assert(block.instructions@.take(k + 1).drop_last() =~= block.instructions@.take(k as int));
                push_str(&mut out, "  ");
                let t = format_instruction(&block.instructions[k]);
                push_str(&mut out, t.as_str());
                push_str(&mut out, "\n");
                k = k + 1;
                assert(out@ =~= mid + insts_text(block.instructions@.take(k as int)));
            }
            assert(block.instructions@.take(block.instructions.len() as int) =~= block.instructions@);
            b = b + 1;
            assert(out@ =~= start + blocks_text(self.blocks@.take(b as int)));
        }
        assert(self.blocks@.take(self.blocks.len() as int) =~= self.blocks@);
        push_str(&mut out, "}\n");
        out
    }
}

impl Default for SSAConverter {
    fn default() -> (r: Self)
        ensures
            r.next_register == 0,
            r.next_block == 0,
            r.current_block == BlockId(0),
            r.blocks@.len() == 0,
            r.function_params@.len() == 0,
            r.current_function_name is None,
    {
        SSAConverter::new()
    }
}


/// The value of a binary operator on the second cell `a` and the top cell
/// `b`: arithmetic wraps around, comparisons give -1 for true and 0 for
/// false, `And` and `Or` work bit by bit; a division or remainder by zero
/// has none.
pub open spec fn binary_op_value(op: BinaryOperator, a: i64, b: i64) -> Option<i64> {
    match op {
        BinaryOperator::Add => Some(a.wrapping_add(b)),
        BinaryOperator::Sub => Some(a.wrapping_sub(b)),
        BinaryOperator::Mul => Some(a.wrapping_mul(b)),
        BinaryOperator::Div => if b == 0 { None } else { Some(spec_wrapping_div(a, b)) },
        BinaryOperator::Mod => if b == 0 { None } else { Some(spec_wrapping_rem(a, b)) },
        BinaryOperator::Lt => Some(if a < b { -1i64 } else { 0i64 }),
        BinaryOperator::Gt => Some(if a > b { -1i64 } else { 0i64 }),
        BinaryOperator::Le => Some(if a <= b { -1i64 } else { 0i64 }),
        BinaryOperator::Ge => Some(if a >= b { -1i64 } else { 0i64 }),
        BinaryOperator::Eq => Some(if a == b { -1i64 } else { 0i64 }),
        BinaryOperator::Ne => Some(if a != b { -1i64 } else { 0i64 }),
        BinaryOperator::And => Some(a & b),
        BinaryOperator::Or => Some(a | b),
    }
}

/// The value of a unary operator on the top cell.
pub open spec fn unary_op_value(op: UnaryOperator, a: i64) -> i64 {
    match op {
        UnaryOperator::Negate => spec_wrapping_neg(a),
        UnaryOperator::Not => !a,
        UnaryOperator::Abs => spec_wrapping_abs(a),
    }
}

/// The operator words and the keywords they are told apart from, by their
/// lengths and first characters.
proof fn lemma_operator_word_chars()
    ensures
        "dup"@.len() == 3 && "dup"@[0] == 'd' && "dup"@[1] == 'u',
        "drop"@.len() == 4 && "drop"@[0] == 'd' && "drop"@[1] == 'r',
        "swap"@.len() == 4 && "swap"@[0] == 's' && "swap"@[1] == 'w',
        "over"@.len() == 4 && "over"@[0] == 'o' && "over"@[1] == 'v',
        "rot"@.len() == 3 && "rot"@[0] == 'r' && "rot"@[1] == 'o',
        "nip"@.len() == 3 && "nip"@[0] == 'n' && "nip"@[1] == 'i',
        "tuck"@.len() == 4 && "tuck"@[0] == 't' && "tuck"@[1] == 'u',
        "+"@.len() == 1 && "+"@[0] == '+',
        "-"@.len() == 1 && "-"@[0] == '-',
        "*"@.len() == 1 && "*"@[0] == '*',
        "/"@.len() == 1 && "/"@[0] == '/',
        "mod"@.len() == 3 && "mod"@[0] == 'm' && "mod"@[1] == 'o',
        "negate"@.len() == 6 && "negate"@[0] == 'n' && "negate"@[1] == 'e',
        "abs"@.len() == 3 && "abs"@[0] == 'a' && "abs"@[1] == 'b',
        "&"@.len() == 1 && "&"@[0] == '&',
        "and"@.len() == 3 && "and"@[0] == 'a' && "and"@[1] == 'n',
        "|"@.len() == 1 && "|"@[0] == '|',
        "or"@.len() == 2 && "or"@[0] == 'o' && "or"@[1] == 'r',
        "^"@.len() == 1 && "^"@[0] == '^',
        "xor"@.len() == 3 && "xor"@[0] == 'x' && "xor"@[1] == 'o',
        "~"@.len() == 1 && "~"@[0] == '~',
        "not"@.len() == 3 && "not"@[0] == 'n' && "not"@[1] == 'o',
        "invert"@.len() == 6 && "invert"@[0] == 'i' && "invert"@[1] == 'n',
        "<<"@.len() == 2 && "<<"@[0] == '<' && "<<"@[1] == '<',
        "lshift"@.len() == 6 && "lshift"@[0] == 'l' && "lshift"@[1] == 's',
        ">>"@.len() == 2 && ">>"@[0] == '>' && ">>"@[1] == '>',
        "rshift"@.len() == 6 && "rshift"@[0] == 'r' && "rshift"@[1] == 's',
        "="@.len() == 1 && "="@[0] == '=',
        "<>"@.len() == 2 && "<>"@[0] == '<' && "<>"@[1] == '>',
        "<"@.len() == 1 && "<"@[0] == '<',
        "<="@.len() == 2 && "<="@[0] == '<' && "<="@[1] == '=',
        ">"@.len() == 1 && ">"@[0] == '>',
        ">="@.len() == 2 && ">="@[0] == '>' && ">="@[1] == '=',
        "0="@.len() == 2 && "0="@[0] == '0' && "0="@[1] == '=',
        "0<"@.len() == 2 && "0<"@[0] == '0' && "0<"@[1] == '<',
        "0>"@.len() == 2 && "0>"@[0] == '0' && "0>"@[1] == '>',
        "return"@.len() == 6 && "return"@[0] == 'r' && "return"@[1] == 'e',
        "@"@.len() == 1 && "@"@[0] == '@',
        "fetch"@.len() == 5 && "fetch"@[0] == 'f' && "fetch"@[1] == 'e',
        "!"@.len() == 1 && "!"@[0] == '!',
        "store"@.len() == 5 && "store"@[0] == 's' && "store"@[1] == 't',
{
    reveal_strlit("dup");
    reveal_strlit("drop");
    reveal_strlit("swap");
    reveal_strlit("over");
    reveal_strlit("rot");
    reveal_strlit("nip");
    reveal_strlit("tuck");
    reveal_strlit("+");
    reveal_strlit("-");
    reveal_strlit("*");
    reveal_strlit("/");
    reveal_strlit("mod");
    reveal_strlit("negate");
    reveal_strlit("abs");
    reveal_strlit("&");
    reveal_strlit("and");
    reveal_strlit("|");
    reveal_strlit("or");
    reveal_strlit("^");
    reveal_strlit("xor");
    reveal_strlit("~");
    reveal_strlit("not");
    reveal_strlit("invert");
    reveal_strlit("<<");
    reveal_strlit("lshift");
    reveal_strlit(">>");
    reveal_strlit("rshift");
    reveal_strlit("=");
    reveal_strlit("<>");
    reveal_strlit("<");
    reveal_strlit("<=");
    reveal_strlit(">");
    reveal_strlit(">=");
    reveal_strlit("0=");
    reveal_strlit("0<");
    reveal_strlit("0>");
    reveal_strlit("return");
    reveal_strlit("@");
    reveal_strlit("fetch");
    reveal_strlit("!");
    reveal_strlit("store");
}

/// The SSA operator a word converts to computes what the word computes: the
/// instruction the word reads as replaces the two top cells of any stack by
/// the operator's value, and fails exactly where the operator has none.
pub proof fn law_binary_operators_follow_words(n: Seq<char>, st: Seq<i64>)
    requires
        binary_op_of(n) is Some,
        st.len() >= 2,
    ensures
        keyword_instruction(n) is Some,
        exec_instr(keyword_instruction(n)->0, st) == (match binary_op_value(binary_op_of(n)->0, st[st.len() - 2], st[st.len() - 1]) {
            Some(v) => Some(st.drop_last().drop_last().push(v)),
            None => None,
        }),
{
    lemma_operator_word_chars();
}

/// The SSA operator a word converts to computes what the word computes: the
/// instruction the word reads as replaces the top cell of any stack by the
/// operator's value.
pub proof fn law_unary_operators_follow_words(n: Seq<char>, st: Seq<i64>)
    requires
        unary_op_of(n) is Some,
        st.len() >= 1,
    ensures
        keyword_instruction(n) is Some,
        exec_instr(keyword_instruction(n)->0, st) == Some(st.drop_last().push(unary_op_value(unary_op_of(n)->0, st[st.len() - 1]))),
{
    lemma_operator_word_chars();
}


/// The cells held by the registers of a register stack.
pub open spec fn register_values(st: Seq<Register>, env: spec_fn(Register) -> i64) -> Seq<i64> {
    st.map_values(|r: Register| env(r))
}

/// The register values after the operations `es`, from `env`: a binary or
/// unary operation sets its destination to its value; `None` for a division
/// or remainder by zero and for any other instruction.
pub open spec fn eval_operations(es: Seq<InstSpec>, env: spec_fn(Register) -> i64) -> Option<spec_fn(Register) -> i64>
    decreases es.len(),
{
    if es.len() == 0 {
        Some(env)
    } else {
        match eval_operations(es.drop_last(), env) {
            Some(e1) => match es.last() {
                InstSpec::Plain(SSAInstruction::BinaryOp { dest, op, left, right }) =>
                    match binary_op_value(op, e1(left), e1(right)) {
                        Some(v) => Some(|r: Register| if r == dest { v } else { e1(r) }),
                        None => None,
                    },
                InstSpec::Plain(SSAInstruction::UnaryOp { dest, op, operand }) => {
                    let v = unary_op_value(op, e1(operand));
                    Some(|r: Register| if r == dest { v } else { e1(r) })
                },
                _ => None,
            },
            None => None,
        }
    }
}

/// Converting an operator or stack word computes what the instruction the
/// word reads as computes: where the registers of the stack hold the cells
/// of a stack on which the instruction runs, the operations emitted give the
/// registers of the new stack the cells that the instruction leaves.
pub proof fn law_word_conversion_follows_meaning(n: Seq<char>, st: Seq<Register>, next: int,
    params: Map<Seq<char>, usize>, cur: Option<Seq<char>>, env: spec_fn(Register) -> i64)
    requires
        binary_op_of(n) is Some || unary_op_of(n) is Some || n == "dup"@ || n == "drop"@ || n == "swap"@
            || n == "over"@ || n == "rot"@,
        0 <= next <= usize::MAX,
        forall|k: int| 0 <= k < st.len() ==> (#[trigger] st[k]).0 < next,
        keyword_instruction(n) is Some && exec_instr(keyword_instruction(n)->0, register_values(st, env)) is Some,
    ensures
        call_spec(n, st, next, params, cur) matches CallOutcome::Done(ns, es, _)
            && eval_operations(es, env) matches Some(env2)
            && exec_instr(keyword_instruction(n)->0, register_values(st, env)) == Some(register_values(ns, env2)),
{
    lemma_operator_word_chars();
    let len = st.len() as int;
    let vs = register_values(st, env);
    let i = keyword_instruction(n)->0;
    let r0 = reg(next);
    assert forall|k: int| 0 <= k < len implies st[k] != r0 by {
        assert(st[k].0 < next);
    }
    match call_spec(n, st, next, params, cur) {
        CallOutcome::Done(ns, es, _) => {
            if es.len() == 1 {
                assert(es.drop_last() =~= Seq::<InstSpec>::empty());
                assert(eval_operations(es.drop_last(), env) == Some(env));
                assert(es.last() == es[0]);
                if binary_op_of(n) is Some {
                    law_binary_operators_follow_words(n, vs);
                    let op = binary_op_of(n)->0;
                    let v = binary_op_value(op, vs[len - 2], vs[len - 1])->0;
                    assert(es[0] == InstSpec::Plain(SSAInstruction::BinaryOp { dest: r0, op, left: st[len - 2], right: st[len - 1] }));
                    let env2 = eval_operations(es, env)->0;
                    assert(env2(r0) == v);
                    assert forall|k: int| 0 <= k < len implies env2(#[trigger] st[k]) == env(st[k]) by {
                        assert(st[k] != r0);
                    }
                    assert(register_values(ns, env2) =~= vs.drop_last().drop_last().push(v));
                } else {
                    law_unary_operators_follow_words(n, vs);
                    let op = unary_op_of(n)->0;
                    let v = unary_op_value(op, vs[len - 1]);
                    assert(es[0] == InstSpec::Plain(SSAInstruction::UnaryOp { dest: r0, op, operand: st[len - 1] }));
                    let env2 = eval_operations(es, env)->0;
                    assert(env2(r0) == v);
                    assert forall|k: int| 0 <= k < len implies env2(#[trigger] st[k]) == env(st[k]) by {
                        assert(st[k] != r0);
                    }
                    assert(register_values(ns, env2) =~= vs.drop_last().push(v));
                }
            } else {
                assert(es =~= Seq::<InstSpec>::empty());
                let vn = register_values(ns, env);
                if n == "dup"@ {
                    assert(vn =~= vs.push(vs[len - 1]));
                } else if n == "drop"@ {
                    assert(vn =~= vs.drop_last());
                } else if n == "swap"@ {
                    assert(vn =~= vs.drop_last().drop_last().push(vs[len - 1]).push(vs[len - 2]));
                } else if n == "over"@ {
                    assert(vn =~= vs.push(vs[len - 2]));
                } else {
                    assert(vn =~= vs.take(len - 3).push(vs[len - 2]).push(vs[len - 1]).push(vs[len - 3]));
                }
            }
        },
        _ => {},
    }
}

} // verus!
