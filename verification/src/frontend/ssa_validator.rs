//! Validation of SSA form: single assignment, reachability, dominance and
//! well-placed phi nodes.
use vstd::prelude::*;
use crate::frontend::ssa::{Register, BlockId, SSAFunction, SSAInstruction, BasicBlock, reg_text, block_text,
    push_reg, push_block, copy_registers};
use crate::frontend::error::ForthError;
use crate::text::{push_str, usize_text, decimal_text};

verus! {

/// A validation error with the place where it was found.
#[derive(Debug, Clone, PartialEq)]
pub struct ValidationError {
    pub message: String,
    pub block: Option<BlockId>,
    pub register: Option<Register>,
    pub instruction_index: Option<usize>,
}

/// The text of a validation error.
pub open spec fn validation_error_text(e: ValidationError) -> Seq<char> {
    "SSA Validation Error: "@ + e.message@
        + match e.block { Some(b) => " in block "@ + block_text(b), None => seq![] }
        + match e.register { Some(r) => " for register "@ + reg_text(r), None => seq![] }
        + match e.instruction_index { Some(i) => " at instruction "@ + decimal_text(i as int), None => seq![] }
}

impl ValidationError {
    /// An error with a message and no place.
    pub fn new(message: String) -> (r: Self)
        ensures
            r.message == message,
            r.block is None,
            r.register is None,
            r.instruction_index is None,
    {
        ValidationError { message, block: None, register: None, instruction_index: None }
    }

    /// The error, placed in a block.
    pub fn with_block(self, block: BlockId) -> (r: Self)
        ensures
            r == (ValidationError { block: Some(block), ..self }),
    {
        let mut e = self;
        e.block = Some(block);
        e
    }

    /// The error, about a register.
    pub fn with_register(self, reg: Register) -> (r: Self)
        ensures
            r == (ValidationError { register: Some(reg), ..self }),
    {
        let mut e = self;
        e.register = Some(reg);
        e
    }

    /// The error, at an instruction.
    pub fn with_instruction(self, idx: usize) -> (r: Self)
        ensures
            r == (ValidationError { instruction_index: Some(idx), ..self }),
    {
        let mut e = self;
        e.instruction_index = Some(idx);
        e
    }

    /// The text this error displays.
    pub fn display_text(&self) -> (r: String)
        ensures
            r@ == validation_error_text(*self),
    {
        let mut out = String::new();
        push_str(&mut out, "SSA Validation Error: ");
        push_str(&mut out, self.message.as_str());
        let ghost a = out@;
        if let Some(b) = self.block {
            push_str(&mut out, " in block ");
            push_block(&mut out, b);
        }
        let ghost b = out@;
        if let Some(r) = self.register {
            push_str(&mut out, " for register ");
            push_reg(&mut out, r);
        }
        let ghost c = out@;
        if let Some(i) = self.instruction_index {
            push_str(&mut out, " at instruction ");
            let d = usize_text(i);
            push_str(&mut out, d.as_str());
        }
        proof {
            let t1 = match self.block { Some(bb) => " in block "@ + block_text(bb), None => Seq::<char>::empty() };
            let t2 = match self.register { Some(rr) => " for register "@ + reg_text(rr), None => Seq::<char>::empty() };
            let t3 = match self.instruction_index { Some(ii) => " at instruction "@ + decimal_text(ii as int), None => Seq::<char>::empty() };
            assert(b =~= a + t1);
            assert(c =~= b + t2);
            assert(out@ =~= c + t3);
        }
        out
    }
}

/// The registers an instruction assigns, in order.
pub open spec fn dests(i: SSAInstruction) -> Seq<Register> {
    match i {
        SSAInstruction::LoadInt { dest, .. } => seq![dest],
        SSAInstruction::LoadFloat { dest, .. } => seq![dest],
        SSAInstruction::LoadString { dest_addr, dest_len, .. } => seq![dest_addr, dest_len],
        SSAInstruction::BinaryOp { dest, .. } => seq![dest],
        SSAInstruction::UnaryOp { dest, .. } => seq![dest],
        SSAInstruction::Call { dest, .. } => dest@,
        SSAInstruction::Phi { dest, .. } => seq![dest],
        SSAInstruction::Load { dest, .. } => seq![dest],
        SSAInstruction::FFICall { dest, .. } => dest@,
        SSAInstruction::FileOpen { dest_fileid, dest_ior, .. } => seq![dest_fileid, dest_ior],
        SSAInstruction::FileRead { dest_bytes, dest_ior, .. } => seq![dest_bytes, dest_ior],
        SSAInstruction::FileWrite { dest_ior, .. } => seq![dest_ior],
        SSAInstruction::FileClose { dest_ior, .. } => seq![dest_ior],
        SSAInstruction::FileDelete { dest_ior, .. } => seq![dest_ior],
        SSAInstruction::FileCreate { dest_fileid, dest_ior, .. } => seq![dest_fileid, dest_ior],
        SSAInstruction::SystemCall { dest, .. } => seq![dest],
        SSAInstruction::Branch { .. } => seq![],
        SSAInstruction::Jump { .. } => seq![],
        SSAInstruction::Return { .. } => seq![],
        SSAInstruction::Store { .. } => seq![],
    }
}

/// The registers an instruction reads, in order.
pub open spec fn uses(i: SSAInstruction) -> Seq<Register> {
    match i {
        SSAInstruction::LoadInt { .. } => seq![],
        SSAInstruction::LoadFloat { .. } => seq![],
        SSAInstruction::LoadString { .. } => seq![],
        SSAInstruction::BinaryOp { left, right, .. } => seq![left, right],
        SSAInstruction::UnaryOp { operand, .. } => seq![operand],
        SSAInstruction::Call { args, .. } => args@,
        SSAInstruction::Branch { condition, .. } => seq![condition],
        SSAInstruction::Jump { .. } => seq![],
        SSAInstruction::Return { values } => values@,
        SSAInstruction::Phi { incoming, .. } => incoming@.map_values(|p: (BlockId, Register)| p.1),
        SSAInstruction::Load { address, .. } => seq![address],
        SSAInstruction::Store { address, value, .. } => seq![address, value],
        SSAInstruction::FFICall { args, .. } => args@,
        SSAInstruction::FileOpen { path_addr, path_len, mode, .. } => seq![path_addr, path_len, mode],
        SSAInstruction::FileRead { buffer, count, fileid, .. } => seq![buffer, count, fileid],
        SSAInstruction::FileWrite { buffer, count, fileid, .. } => seq![buffer, count, fileid],
        SSAInstruction::FileClose { fileid, .. } => seq![fileid],
        SSAInstruction::FileDelete { path_addr, path_len, .. } => seq![path_addr, path_len],
        SSAInstruction::FileCreate { path_addr, path_len, mode, .. } => seq![path_addr, path_len, mode],
        SSAInstruction::SystemCall { command_addr, command_len, .. } => seq![command_addr, command_len],
    }
}

/// The blocks that control can pass to from the end of a block: both targets
/// of a final branch, the target of a final jump, none otherwise.
pub open spec fn targets(b: BasicBlock) -> Seq<BlockId> {
    if b.instructions@.len() == 0 {
        seq![]
    } else {
        match b.instructions@.last() {
            SSAInstruction::Branch { true_block, false_block, .. } => seq![true_block, false_block],
            SSAInstruction::Jump { target } => seq![target],
            _ => seq![],
        }
    }
}

/// The block's identifier once for each of its targets that is `id`.
pub open spec fn pred_hits(b: BasicBlock, id: BlockId) -> Seq<BlockId> {
    let t = targets(b);
    (if t.len() >= 1 && t[0] == id { seq![b.id] } else { seq![] })
        + (if t.len() >= 2 && t[1] == id { seq![b.id] } else { seq![] })
}

/// The predecessors of the block `id`: each block that can pass control to it,
/// once per edge, in the order of the blocks.
pub open spec fn preds(bs: Seq<BasicBlock>, id: BlockId) -> Seq<BlockId>
    decreases bs.len(),
{
    if bs.len() == 0 {
        seq![]
    } else {
        preds(bs.drop_last(), id) + pred_hits(bs.last(), id)
    }
}

/// There is an edge from block `x` to block `y`.
pub open spec fn edge(bs: Seq<BasicBlock>, x: BlockId, y: BlockId) -> bool {
    exists|i: int| 0 <= i < bs.len() && (#[trigger] bs[i]).id == x && targets(bs[i]).contains(y)
}

/// `p` is a path of edges.
pub open spec fn is_path(bs: Seq<BasicBlock>, p: Seq<BlockId>) -> bool {
    p.len() >= 1 && forall|k: int| 0 <= k < p.len() - 1 ==> #[trigger] edge(bs, p[k], p[k + 1])
}

/// Control can reach block `x` from block `e`.
pub open spec fn connected(bs: Seq<BasicBlock>, e: BlockId, x: BlockId) -> bool {
    exists|p: Seq<BlockId>| #[trigger] is_path(bs, p) && p[0] == e && p.last() == x
}

/// The first register of `regs` that is in `seen` or earlier in `regs`, else
/// the registers seen after `regs`.
pub open spec fn scan_regs(seen: Seq<Register>, regs: Seq<Register>) -> Result<Seq<Register>, Register>
    decreases regs.len(),
{
    if regs.len() == 0 {
        Ok(seen)
    } else if seen.contains(regs[0]) {
        Err(regs[0])
    } else {
        scan_regs(seen.push(regs[0]), regs.skip(1))
    }
}

/// `scan_regs` over the registers that the instructions assign.
pub open spec fn scan_insts(seen: Seq<Register>, is: Seq<SSAInstruction>) -> Result<Seq<Register>, Register>
    decreases is.len(),
{
    if is.len() == 0 {
        Ok(seen)
    } else {
        match scan_regs(seen, dests(is[0])) {
            Err(r) => Err(r),
            Ok(s) => scan_insts(s, is.skip(1)),
        }
    }
}

/// `scan_regs` over the registers that the blocks assign.
pub open spec fn scan_blocks(seen: Seq<Register>, bs: Seq<BasicBlock>) -> Result<Seq<Register>, Register>
    decreases bs.len(),
{
    if bs.len() == 0 {
        Ok(seen)
    } else {
        match scan_insts(seen, bs[0].instructions@) {
            Err(r) => Err(r),
            Ok(s) => scan_blocks(s, bs.skip(1)),
        }
    }
}

/// The first register, in the order of the blocks and their instructions,
/// that is assigned a second time.
pub open spec fn reassigned(bs: Seq<BasicBlock>) -> Option<Register> {
    match scan_blocks(seq![], bs) {
        Err(r) => Some(r),
        Ok(_) => None,
    }
}

/// The message for a register assigned twice.
pub open spec fn reassigned_message(r: Register) -> Seq<char> {
    "Register "@ + reg_text(r) + " assigned multiple times (violation of SSA form)"@
}

/// The message for a block that control cannot reach.
pub open spec fn unreachable_message(b: BlockId, e: BlockId) -> Seq<char> {
    "Unreachable block "@ + block_text(b) + " detected (not connected to entry block "@ + block_text(e) + ")"@
}

/// The first block, in order, that control cannot reach from the entry block.
pub open spec fn first_unreachable(bs: Seq<BasicBlock>, e: BlockId, i: int) -> Option<BlockId>
    decreases bs.len() - i,
{
    if i >= bs.len() {
        None
    } else if !connected(bs, e, bs[i].id) {
        Some(bs[i].id)
    } else {
        first_unreachable(bs, e, i + 1)
    }
}

/// The registers an instruction assigns.
pub fn get_destination_registers(inst: &SSAInstruction) -> (r: Vec<Register>)
    ensures
        r@ == dests(*inst),
{
    match inst {
        SSAInstruction::LoadInt { dest, .. } => vec![*dest],
        SSAInstruction::LoadFloat { dest, .. } => vec![*dest],
        SSAInstruction::LoadString { dest_addr, dest_len, .. } => vec![*dest_addr, *dest_len],
        SSAInstruction::BinaryOp { dest, .. } => vec![*dest],
        SSAInstruction::UnaryOp { dest, .. } => vec![*dest],
        SSAInstruction::Call { dest, .. } => copy_registers(dest),
        SSAInstruction::Phi { dest, .. } => vec![*dest],
        SSAInstruction::Load { dest, .. } => vec![*dest],
        SSAInstruction::FFICall { dest, .. } => copy_registers(dest),
        SSAInstruction::FileOpen { dest_fileid, dest_ior, .. } => vec![*dest_fileid, *dest_ior],
        SSAInstruction::FileRead { dest_bytes, dest_ior, .. } => vec![*dest_bytes, *dest_ior],
        SSAInstruction::FileWrite { dest_ior, .. } => vec![*dest_ior],
        SSAInstruction::FileClose { dest_ior, .. } => vec![*dest_ior],
        SSAInstruction::FileDelete { dest_ior, .. } => vec![*dest_ior],
        SSAInstruction::FileCreate { dest_fileid, dest_ior, .. } => vec![*dest_fileid, *dest_ior],
        SSAInstruction::SystemCall { dest, .. } => vec![*dest],
        SSAInstruction::Branch { .. } => Vec::new(),
        SSAInstruction::Jump { .. } => Vec::new(),
        SSAInstruction::Return { .. } => Vec::new(),
        SSAInstruction::Store { .. } => Vec::new(),
    }
}

/// The registers a phi node takes its values from.
fn incoming_registers(incoming: &Vec<(BlockId, Register)>) -> (r: Vec<Register>)
    ensures
        r@ == incoming@.map_values(|p: (BlockId, Register)| p.1),
{
    let mut out: Vec<Register> = Vec::new();
    let mut i: usize = 0;
    while i < incoming.len()
        invariant
            i <= incoming.len(),
            out@ == incoming@.take(i as int).map_values(|p: (BlockId, Register)| p.1),
        decreases incoming.len() - i,
    {
        out.push(incoming[i].1);
        i = i + 1;
        assert(out@ =~= incoming@.take(i as int).map_values(|p: (BlockId, Register)| p.1));
    }
    assert(incoming@.take(i as int) =~= incoming@);
    out
}

/// The registers an instruction reads.
pub fn get_used_registers(inst: &SSAInstruction) -> (r: Vec<Register>)
    ensures
        r@ == uses(*inst),
{
    match inst {
        SSAInstruction::LoadInt { .. } => Vec::new(),
        SSAInstruction::LoadFloat { .. } => Vec::new(),
        SSAInstruction::LoadString { .. } => Vec::new(),
        SSAInstruction::BinaryOp { left, right, .. } => vec![*left, *right],
        SSAInstruction::UnaryOp { operand, .. } => vec![*operand],
        SSAInstruction::Call { args, .. } => copy_registers(args),
        SSAInstruction::Branch { condition, .. } => vec![*condition],
        SSAInstruction::Jump { .. } => Vec::new(),
        SSAInstruction::Return { values } => copy_registers(values),
        SSAInstruction::Phi { incoming, .. } => incoming_registers(incoming),
        SSAInstruction::Load { address, .. } => vec![*address],
        SSAInstruction::Store { address, value, .. } => vec![*address, *value],
        SSAInstruction::FFICall { args, .. } => copy_registers(args),
        SSAInstruction::FileOpen { path_addr, path_len, mode, .. } => vec![*path_addr, *path_len, *mode],
        SSAInstruction::FileRead { buffer, count, fileid, .. } => vec![*buffer, *count, *fileid],
        SSAInstruction::FileWrite { buffer, count, fileid, .. } => vec![*buffer, *count, *fileid],
        SSAInstruction::FileClose { fileid, .. } => vec![*fileid],
        SSAInstruction::FileDelete { path_addr, path_len, .. } => vec![*path_addr, *path_len],
        SSAInstruction::FileCreate { path_addr, path_len, mode, .. } => vec![*path_addr, *path_len, *mode],
        SSAInstruction::SystemCall { command_addr, command_len, .. } => vec![*command_addr, *command_len],
    }
}

/// The targets of a block's final instruction.
fn block_targets(b: &BasicBlock) -> (r: Vec<BlockId>)
    ensures
        r@ == targets(*b),
{
    let n = b.instructions.len();
    if n == 0 {
        return Vec::new();
    }
    match &b.instructions[n - 1] {
        SSAInstruction::Branch { true_block, false_block, .. } => vec![*true_block, *false_block],
        SSAInstruction::Jump { target } => vec![*target],
        _ => Vec::new(),
    }
}

/// Whether a register list holds a register.
fn holds_register(v: &Vec<Register>, r: Register) -> (b: bool)
    ensures
        b == v@.contains(r),
{
    let mut i: usize = 0;
    while i < v.len()
        invariant
            i <= v.len(),
            forall|k: int| 0 <= k < i ==> v@[k] != r,
        decreases v.len() - i,
    {
        if v[i] == r {
            return true;
        }
        i = i + 1;
    }
    false
}

/// Whether a block list holds a block identifier.
fn holds_block(v: &Vec<BlockId>, b: BlockId) -> (r: bool)
    ensures
        r == v@.contains(b),
{
    let mut i: usize = 0;
    while i < v.len()
        invariant
            i <= v.len(),
            forall|k: int| 0 <= k < i ==> v@[k] != b,
        decreases v.len() - i,
    {
        if v[i] == b {
            return true;
        }
        i = i + 1;
    }
    false
}

/// The predecessors of the block `id` in the function's blocks.
fn predecessors_of(bs: &Vec<BasicBlock>, id: BlockId) -> (r: Vec<BlockId>)
    ensures
        r@ == preds(bs@, id),
{
    let mut out: Vec<BlockId> = Vec::new();
    let mut i: usize = 0;
    while i < bs.len()
        invariant
            i <= bs.len(),
            out@ == preds(bs@.take(i as int), id),
        decreases bs.len() - i,
    {
        let t = block_targets(&bs[i]);
        let ghost before = out@;
        if t.len() >= 1 && t[0] == id {
            out.push(bs[i].id);
        }
        if t.len() >= 2 && t[1] == id {
            out.push(bs[i].id);
        }
        proof {
            assert(bs@.take(i + 1).drop_last() =~= bs@.take(i as int));
            assert(out@ =~= before + pred_hits(bs@[i as int], id));
        }
        i = i + 1;
    }
    assert(bs@.take(bs.len() as int) =~= bs@);
    out
}

/// Checks that no register is assigned twice.
fn check_single_assignment(f: &SSAFunction) -> (r: Result<(), ForthError>)
    ensures
        match reassigned(f.blocks@) {
            Some(reg) => r matches Err(ForthError::SSAConversionError { message }) && message@ == reassigned_message(reg),
            None => r is Ok,
        },
{
    let bs = &f.blocks;
    let mut seen: Vec<Register> = Vec::new();
    let mut i: usize = 0;
    proof { assert(bs@.skip(0) =~= bs@); }
    while i < bs.len()
        invariant
            i <= bs.len(),
            bs@ == f.blocks@,
            scan_blocks(seq![], bs@) == scan_blocks(seen@, bs@.skip(i as int)),
        decreases bs.len() - i,
    {
        let is = &bs[i].instructions;
        let mut j: usize = 0;
        proof { assert(is@.skip(0) =~= is@); }
        while j < is.len()
            invariant
                i < bs.len(),
                bs@ == f.blocks@,
                is == bs@[i as int].instructions,
                j <= is.len(),
                scan_blocks(seq![], bs@) == match scan_insts(seen@, is@.skip(j as int)) {
                    Err(r) => Err(r),
                    Ok(s) => scan_blocks(s, bs@.skip(i as int).skip(1)),
                },
            decreases is.len() - j,
        {
            let d = get_destination_registers(&is[j]);
            let mut k: usize = 0;
            proof { assert(d@.skip(0) =~= d@); }
            while k < d.len()
                invariant
                    j < is.len(),
                    bs@ == f.blocks@,
                    d@ == dests(is@[j as int]),
                    k <= d.len(),
                    scan_blocks(seq![], bs@) == match scan_regs(seen@, d@.skip(k as int)) {
                        Err(r) => Err(r),
                        Ok(s) => match scan_insts(s, is@.skip(j as int).skip(1)) {
                            Err(r) => Err(r),
                            Ok(s2) => scan_blocks(s2, bs@.skip(i as int).skip(1)),
                        },
                    },
                decreases d.len() - k,
            {
                let reg = d[k];
                if holds_register(&seen, reg) {
                    proof {
                        assert(d@.skip(k as int)[0] == reg);
                        assert(scan_regs(seen@, d@.skip(k as int)) == Err::<Seq<Register>, Register>(reg));
                        assert(scan_blocks(seq![], bs@) == Err::<Seq<Register>, Register>(reg));
                        assert(reassigned(f.blocks@) == Some(reg));
                    }
                    let mut m = String::new();
                    push_str(&mut m, "Register ");
                    push_reg(&mut m, reg);
                    push_str(&mut m, " assigned multiple times (violation of SSA form)");
                    assert(m@ =~= reassigned_message(reg));
                    return Err(ForthError::SSAConversionError { message: m });
                }
                seen.push(reg);
                proof { assert(d@.skip(k as int).skip(1) =~= d@.skip(k + 1)); }
                k = k + 1;
            }
            proof {
                assert(is@.skip(j as int).skip(1) =~= is@.skip(j + 1));
            }
            j = j + 1;
        }
        proof {
            assert(bs@.skip(i as int).skip(1) =~= bs@.skip(i + 1));
        }
        i = i + 1;
    }
    Ok(())
}

/// The number of `false` entries.
pub open spec fn count_false(s: Seq<bool>) -> nat
    decreases s.len(),
{
    if s.len() == 0 {
        0
    } else {
        count_false(s.drop_last()) + if s.last() { 0nat } else { 1nat }
    }
}

proof fn lemma_count_false_set(s: Seq<bool>, k: int)
    requires
        0 <= k < s.len(),
        !s[k],
    ensures
        count_false(s.update(k, true)) + 1 == count_false(s),
    decreases s.len(),
{
    if k < s.len() - 1 {
        assert(s.update(k, true).drop_last() =~= s.drop_last().update(k, true));
        lemma_count_false_set(s.drop_last(), k);
    } else {
        assert(s.update(k, true).drop_last() =~= s.drop_last());
    }
}

/// A path extended by an edge from its end is a path.
proof fn lemma_path_push(bs: Seq<BasicBlock>, p: Seq<BlockId>, i: int, y: BlockId)
    requires
        is_path(bs, p),
        0 <= i < bs.len(),
        bs[i].id == p.last(),
        targets(bs[i]).contains(y),
    ensures
        is_path(bs, p.push(y)),
{
    let q = p.push(y);
    assert(edge(bs, p.last(), y));
    assert forall|k: int| 0 <= k < q.len() - 1 implies #[trigger] edge(bs, q[k], q[k + 1]) by {
        if k < p.len() - 1 {
            assert(edge(bs, p[k], p[k + 1]));
        }
    }
}

/// Every block whose identifier is on a path from the entry block is reached,
/// where the reached blocks include those of the entry block and hold, for each
/// of them, every block that its targets name.
proof fn lemma_path_reached(bs: Seq<BasicBlock>, e: BlockId, reached: Seq<bool>, p: Seq<BlockId>)
    requires
        reached.len() == bs.len(),
        forall|k: int| 0 <= k < bs.len() && bs[k].id == e ==> reached[k],
        forall|k: int, k2: int| #![trigger reached[k], bs[k2]] 0 <= k < bs.len() && 0 <= k2 < bs.len() && reached[k]
            && targets(bs[k]).contains(bs[k2].id) ==> reached[k2],
        is_path(bs, p),
        p[0] == e,
    ensures
        forall|k: int| 0 <= k < bs.len() && bs[k].id == p.last() ==> reached[k],
    decreases p.len(),
{
    if p.len() > 1 {
        let q = p.drop_last();
        assert forall|k: int| 0 <= k < q.len() - 1 implies #[trigger] edge(bs, q[k], q[k + 1]) by {
            assert(edge(bs, p[k], p[k + 1]));
        }
        lemma_path_reached(bs, e, reached, q);
        let kk = p.len() - 2;
        assert(edge(bs, p[kk], p[kk + 1]));
        let i = choose|i: int| 0 <= i < bs.len() && (#[trigger] bs[i]).id == p[kk] && targets(bs[i]).contains(p[kk + 1]);
        assert(reached[i]);
    }
}

/// Checks that control can reach every block from the entry block.
fn check_block_connectivity(f: &SSAFunction) -> (r: Result<(), ForthError>)
    ensures
        match first_unreachable(f.blocks@, f.entry_block, 0) {
            Some(b) => r matches Err(ForthError::SSAConversionError { message })
                && message@ == unreachable_message(b, f.entry_block),
            None => r is Ok,
        },
{
    let bs = &f.blocks;
    let e = f.entry_block;
    let n = bs.len();
    let mut reached: Vec<bool> = Vec::new();
    let mut worklist: Vec<usize> = Vec::new();
    let mut k: usize = 0;
    while k < n
        invariant
            n == bs.len(),
            bs@ == f.blocks@,
            e == f.entry_block,
            k <= n,
            reached@.len() == k,
            forall|x: int| 0 <= x < k ==> reached@[x] == (bs@[x].id == e),
            forall|x: int| 0 <= x < worklist@.len() ==> worklist@[x] < k && reached@[worklist@[x] as int],
            forall|x: int| 0 <= x < k && reached@[x] ==> worklist@.contains(x as usize),
        decreases n - k,
    {
        let ghost w0 = worklist@;
        if bs[k].id == e {
            reached.push(true);
            worklist.push(k);
        } else {
            reached.push(false);
        }
        proof {
            assert forall|x: int| 0 <= x < k + 1 && reached@[x] implies worklist@.contains(x as usize) by {
                if x < k {
                    let w = choose|w: int| 0 <= w < w0.len() && w0[w] == x as usize;
                    assert(worklist@[w] == x as usize);
                } else {
                    assert(worklist@[worklist@.len() - 1] == x as usize);
                }
            }
        }
        k = k + 1;
    }
    proof {
        assert forall|x: int| 0 <= x < n && reached@[x] implies connected(bs@, e, bs@[x].id) by {
            let p = seq![e];
            assert(is_path(bs@, p));
        }
    }
    while worklist.len() > 0
        invariant
            n == bs.len(),
            bs@ == f.blocks@,
            e == f.entry_block,
            reached@.len() == n,
            forall|x: int| 0 <= x < n && bs@[x].id == e ==> reached@[x],
            forall|x: int| 0 <= x < worklist@.len() ==> worklist@[x] < n && reached@[worklist@[x] as int],
            forall|x: int| 0 <= x < n && reached@[x] ==> connected(bs@, e, bs@[x].id),
            forall|x: int, x2: int| #![trigger reached@[x], bs@[x2]] 0 <= x < n && 0 <= x2 < n && reached@[x]
                && !worklist@.contains(x as usize) && targets(bs@[x]).contains(bs@[x2].id) ==> reached@[x2],
        decreases 2 * count_false(reached@) + worklist@.len(),
    {
        let i = worklist[worklist.len() - 1];
        let ghost wl = worklist@;
        worklist.pop();
        proof {
            assert forall|x: int| 0 <= x < n && x != i && !worklist@.contains(x as usize) implies !#[trigger] wl.contains(x as usize) by {
                if wl.contains(x as usize) {
                    let w = choose|w: int| 0 <= w < wl.len() && wl[w] == x as usize;
                    if w < worklist@.len() {
                        assert(worklist@[w] == x as usize);
                    }
                }
            }
        }
        let ghost m0 = 2 * count_false(reached@) + worklist@.len() + 1;
        let t = block_targets(&bs[i]);
        let mut ti: usize = 0;
        while ti < t.len()
            invariant
                n == bs.len(),
                bs@ == f.blocks@,
                e == f.entry_block,
                i < n,
                reached@[i as int],
                t@ == targets(bs@[i as int]),
                ti <= t.len(),
                reached@.len() == n,
                2 * count_false(reached@) + worklist@.len() < m0,
                forall|x: int| 0 <= x < n && bs@[x].id == e ==> reached@[x],
                forall|x: int| 0 <= x < worklist@.len() ==> worklist@[x] < n && reached@[worklist@[x] as int],
                forall|x: int| 0 <= x < n && reached@[x] ==> connected(bs@, e, bs@[x].id),
                forall|x: int, x2: int| #![trigger reached@[x], bs@[x2]] 0 <= x < n && 0 <= x2 < n && reached@[x] && x != i
                    && !worklist@.contains(x as usize) && targets(bs@[x]).contains(bs@[x2].id) ==> reached@[x2],
                forall|y: int, x2: int| 0 <= y < ti && 0 <= x2 < n && bs@[x2].id == t@[y] ==> reached@[x2],
            decreases t.len() - ti,
        {
            let y = t[ti];
            let mut k2: usize = 0;
            while k2 < n
                invariant
                    n == bs.len(),
                    bs@ == f.blocks@,
                    e == f.entry_block,
                    i < n,
                    reached@[i as int],
                    t@ == targets(bs@[i as int]),
                    ti < t.len(),
                    y == t@[ti as int],
                    k2 <= n,
                    reached@.len() == n,
                    2 * count_false(reached@) + worklist@.len() < m0,
                    forall|x: int| 0 <= x < n && bs@[x].id == e ==> reached@[x],
                    forall|x: int| 0 <= x < worklist@.len() ==> worklist@[x] < n && reached@[worklist@[x] as int],
                    forall|x: int| 0 <= x < n && reached@[x] ==> connected(bs@, e, bs@[x].id),
                    forall|x: int, x2: int| #![trigger reached@[x], bs@[x2]] 0 <= x < n && 0 <= x2 < n && reached@[x] && x != i
                        && !worklist@.contains(x as usize) && targets(bs@[x]).contains(bs@[x2].id) ==> reached@[x2],
                    forall|yy: int, x2: int| 0 <= yy < ti && 0 <= x2 < n && bs@[x2].id == t@[yy] ==> reached@[x2],
                    forall|x2: int| 0 <= x2 < k2 && bs@[x2].id == y ==> reached@[x2],
                decreases n - k2,
            {
                if bs[k2].id == y && !reached[k2] {
                    proof {
                        lemma_count_false_set(reached@, k2 as int);
                        let p = choose|p: Seq<BlockId>| #[trigger] is_path(bs@, p) && p[0] == e && p.last() == bs@[i as int].id;
                        lemma_path_push(bs@, p, i as int, y);
                        assert(p.push(y)[0] == e && p.push(y).last() == y);
                    }
                    let ghost w0 = worklist@;
                    reached.set(k2, true);
                    worklist.push(k2);
                    proof {
                        assert forall|x: int, x2: int| #![trigger reached@[x], bs@[x2]] 0 <= x < n && 0 <= x2 < n && reached@[x] && x != i
                            && !worklist@.contains(x as usize) && targets(bs@[x]).contains(bs@[x2].id) implies reached@[x2] by {
                            if x != k2 {
                                assert(!w0.contains(x as usize)) by {
                                    if w0.contains(x as usize) {
                                        let w = choose|w: int| 0 <= w < w0.len() && w0[w] == x as usize;
                                        assert(worklist@[w] == x as usize);
                                    }
                                }
                            } else {
                                assert(worklist@[worklist@.len() - 1] == k2);
                            }
                        }
                    }
                }
                k2 = k2 + 1;
            }
            ti = ti + 1;
        }
        proof {
            assert forall|x: int, x2: int| #![trigger reached@[x], bs@[x2]] 0 <= x < n && 0 <= x2 < n && reached@[x]
                && !worklist@.contains(x as usize) && targets(bs@[x]).contains(bs@[x2].id) implies reached@[x2] by {
                if x == i {
                    let yy = choose|yy: int| 0 <= yy < t@.len() && t@[yy] == bs@[x2].id;
                }
            }
        }
    }
    proof {
        assert forall|x: int| 0 <= x < n && connected(bs@, e, bs@[x].id) implies reached@[x] by {
            let p = choose|p: Seq<BlockId>| #[trigger] is_path(bs@, p) && p[0] == e && p.last() == bs@[x].id;
            lemma_path_reached(bs@, e, reached@, p);
        }
    }
    let mut j: usize = 0;
    while j < n
        invariant
            n == bs.len(),
            bs@ == f.blocks@,
            e == f.entry_block,
            j <= n,
            reached@.len() == n,
            forall|x: int| 0 <= x < n ==> (reached@[x] <==> connected(bs@, e, bs@[x].id)),
            first_unreachable(bs@, e, 0) == first_unreachable(bs@, e, j as int),
        decreases n - j,
    {
        if !reached[j] {
            let mut m = String::new();
            push_str(&mut m, "Unreachable block ");
            push_block(&mut m, bs[j].id);
            push_str(&mut m, " detected (not connected to entry block ");
            push_block(&mut m, e);
            push_str(&mut m, ")");
            assert(m@ =~= unreachable_message(bs@[j as int].id, e));
            return Err(ForthError::SSAConversionError { message: m });
        }
        j = j + 1;
    }
    Ok(())
}

/// The block identifiers, each once, in the order they first appear.
pub open spec fn distinct_ids(bs: Seq<BasicBlock>) -> Seq<BlockId>
    decreases bs.len(),
{
    if bs.len() == 0 {
        seq![]
    } else {
        let r = distinct_ids(bs.drop_last());
        if r.contains(bs.last().id) { r } else { r.push(bs.last().id) }
    }
}

/// Where `id` stands in `ids` (its last place).
pub open spec fn pos_of(ids: Seq<BlockId>, id: BlockId) -> int
    decreases ids.len(),
{
    if ids.len() == 0 {
        0
    } else if ids.last() == id {
        ids.len() - 1
    } else {
        pos_of(ids.drop_last(), id)
    }
}

/// No identifier occurs twice.
pub open spec fn ids_distinct(ids: Seq<BlockId>) -> bool {
    forall|x: int, y: int| 0 <= x < ids.len() && 0 <= y < ids.len() && x != y ==> ids[x] != ids[y]
}

proof fn lemma_distinct_ids(bs: Seq<BasicBlock>)
    ensures
        ids_distinct(distinct_ids(bs)),
        forall|i: int| 0 <= i < bs.len() ==> distinct_ids(bs).contains(#[trigger] bs[i].id),
        forall|k: int| 0 <= k < distinct_ids(bs).len() ==> exists|i: int| 0 <= i < bs.len() && bs[i].id == #[trigger] distinct_ids(bs)[k],
    decreases bs.len(),
{
    if bs.len() > 0 {
        let q = bs.drop_last();
        lemma_distinct_ids(q);
        let r = distinct_ids(q);
        assert forall|i: int| 0 <= i < bs.len() implies distinct_ids(bs).contains(#[trigger] bs[i].id) by {
            if i < q.len() {
                assert(q[i] == bs[i]);
                let k = choose|k: int| 0 <= k < r.len() && r[k] == q[i].id;
                if !r.contains(bs.last().id) {
                    assert(distinct_ids(bs)[k] == r[k]);
                }
            } else if !r.contains(bs.last().id) {
                assert(distinct_ids(bs)[r.len() as int] == bs.last().id);
            }
        }
        assert forall|k: int| 0 <= k < distinct_ids(bs).len() implies exists|i: int| 0 <= i < bs.len() && bs[i].id == #[trigger] distinct_ids(bs)[k] by {
            if k < r.len() {
                let i = choose|i: int| 0 <= i < q.len() && q[i].id == #[trigger] r[k];
                assert(bs[i] == q[i]);
            } else {
                assert(bs[bs.len() - 1].id == distinct_ids(bs)[k]);
            }
        }
    }
}

proof fn lemma_pos_of(ids: Seq<BlockId>, id: BlockId, k: int)
    requires
        ids_distinct(ids),
        0 <= k < ids.len(),
        ids[k] == id,
    ensures
        pos_of(ids, id) == k,
    decreases ids.len(),
{
    if k < ids.len() - 1 {
        lemma_pos_of(ids.drop_last(), id, k);
    }
}

/// Each predecessor is the identifier of a block.
proof fn lemma_preds_are_blocks(bs: Seq<BasicBlock>, id: BlockId)
    ensures
        forall|q: int| 0 <= q < preds(bs, id).len() ==> exists|i: int| 0 <= i < bs.len() && bs[i].id == #[trigger] preds(bs, id)[q],
    decreases bs.len(),
{
    if bs.len() > 0 {
        let d = bs.drop_last();
        lemma_preds_are_blocks(d, id);
        assert forall|q: int| 0 <= q < preds(bs, id).len() implies exists|i: int| 0 <= i < bs.len() && bs[i].id == #[trigger] preds(bs, id)[q] by {
            if q < preds(d, id).len() {
                let i = choose|i: int| 0 <= i < d.len() && d[i].id == #[trigger] preds(d, id)[q];
                assert(bs[i] == d[i]);
            } else {
                assert(bs[bs.len() - 1].id == preds(bs, id)[q]);
            }
        }
    }
}

/// Every predecessor of every block stands in `ids`.
pub open spec fn preds_known(bs: Seq<BasicBlock>, ids: Seq<BlockId>) -> bool {
    forall|a: int, q: int| 0 <= a < ids.len() && 0 <= q < preds(bs, ids[a]).len()
        ==> #[trigger] ids.contains(preds(bs, ids[a])[q])
}

/// The right-hand side of the dominator equations, for the block `ids[a]` and
/// the block `ids[b]`: the entry block is dominated by itself only; a block
/// with no predecessors by every block; any other block by itself and by every
/// block that dominates all of its predecessors.
pub open spec fn dom_rhs(bs: Seq<BasicBlock>, ids: Seq<BlockId>, e: BlockId, d: Seq<Seq<bool>>, a: int, b: int) -> bool {
    let ps = preds(bs, ids[a]);
    if ids[a] == e {
        b == a
    } else if ps.len() == 0 {
        true
    } else {
        b == a || forall|q: int| 0 <= q < ps.len() ==> #[trigger] d[pos_of(ids, ps[q])][b]
    }
}

/// `d` is a square table over the distinct block identifiers.
pub open spec fn is_table(bs: Seq<BasicBlock>, d: Seq<Seq<bool>>) -> bool {
    let m = distinct_ids(bs).len();
    d.len() == m && forall|a: int| 0 <= a < m ==> (#[trigger] d[a]).len() == m
}

/// `d` (where `d[a][b]` says that block `ids[b]` dominates block `ids[a]`)
/// solves the dominator equations.
pub open spec fn is_dom_solution(bs: Seq<BasicBlock>, e: BlockId, d: Seq<Seq<bool>>) -> bool {
    let ids = distinct_ids(bs);
    &&& is_table(bs, d)
    &&& forall|a: int, b: int| 0 <= a < ids.len() && 0 <= b < ids.len() ==> #[trigger] d[a][b] == dom_rhs(bs, ids, e, d, a, b)
}

/// Every entry of `g` is one of `d`.
pub open spec fn table_le(g: Seq<Seq<bool>>, d: Seq<Seq<bool>>, m: int) -> bool {
    forall|a: int, b: int| 0 <= a < m && 0 <= b < m && #[trigger] g[a][b] ==> d[a][b]
}

/// `d` is the dominator table: the greatest solution of the dominator equations.
pub open spec fn is_dominators(bs: Seq<BasicBlock>, e: BlockId, d: Seq<Seq<bool>>) -> bool {
    &&& is_dom_solution(bs, e, d)
    &&& forall|g: Seq<Seq<bool>>| #[trigger] is_dom_solution(bs, e, g) ==> table_le(g, d, distinct_ids(bs).len() as int)
}

/// The number of `true` entries of a row.
pub open spec fn count_true(s: Seq<bool>) -> nat
    decreases s.len(),
{
    if s.len() == 0 {
        0
    } else {
        count_true(s.drop_last()) + if s.last() { 1nat } else { 0nat }
    }
}

/// The number of `true` entries of a table.
pub open spec fn table_count(d: Seq<Seq<bool>>) -> nat
    decreases d.len(),
{
    if d.len() == 0 {
        0
    } else {
        table_count(d.drop_last()) + count_true(d.last())
    }
}

proof fn lemma_count_true_sub(r: Seq<bool>, s: Seq<bool>)
    requires
        r.len() == s.len(),
        forall|b: int| 0 <= b < r.len() && #[trigger] r[b] ==> s[b],
    ensures
        count_true(r) <= count_true(s),
        r != s ==> count_true(r) < count_true(s),
    decreases r.len(),
{
    if r.len() > 0 {
        lemma_count_true_sub(r.drop_last(), s.drop_last());
        if r != s && r.drop_last() == s.drop_last() {
            assert(r.last() != s.last()) by {
                if r.last() == s.last() {
                    assert forall|k: int| 0 <= k < r.len() implies r[k] == s[k] by {
                        if k < r.len() - 1 {
                            assert(r.drop_last()[k] == s.drop_last()[k]);
                        }
                    }
                    assert(r =~= s);
                }
            }
        }
    } else {
        assert(r =~= s);
    }
}

proof fn lemma_table_count_update(d: Seq<Seq<bool>>, a: int, r: Seq<bool>)
    requires
        0 <= a < d.len(),
    ensures
        table_count(d.update(a, r)) + count_true(d[a]) == table_count(d) + count_true(r),
    decreases d.len(),
{
    if a < d.len() - 1 {
        assert(d.update(a, r).drop_last() =~= d.drop_last().update(a, r));
        lemma_table_count_update(d.drop_last(), a, r);
    } else {
        assert(d.update(a, r).drop_last() =~= d.drop_last());
    }
}

/// The right-hand side grows with the table.
proof fn lemma_rhs_mono(bs: Seq<BasicBlock>, ids: Seq<BlockId>, e: BlockId, d1: Seq<Seq<bool>>, d2: Seq<Seq<bool>>, a: int, b: int)
    requires
        ids == distinct_ids(bs),
        preds_known(bs, ids),
        0 <= a < ids.len(),
        0 <= b < ids.len(),
        table_le(d1, d2, ids.len() as int),
        dom_rhs(bs, ids, e, d1, a, b),
    ensures
        dom_rhs(bs, ids, e, d2, a, b),
{
    let ps = preds(bs, ids[a]);
    if ids[a] != e && ps.len() > 0 && b != a {
        lemma_distinct_ids(bs);
        assert forall|q: int| 0 <= q < ps.len() implies #[trigger] d2[pos_of(ids, ps[q])][b] by {
            assert(ids.contains(ps[q]));
            let k = choose|k: int| 0 <= k < ids.len() && ids[k] == ps[q];
            lemma_pos_of(ids, ps[q], k);
            assert(d1[pos_of(ids, ps[q])][b]);
        }
    }
}

/// The distinct block identifiers of the blocks.
fn collect_ids(bs: &Vec<BasicBlock>) -> (r: Vec<BlockId>)
    ensures
        r@ == distinct_ids(bs@),
{
    let mut out: Vec<BlockId> = Vec::new();
    let mut i: usize = 0;
    while i < bs.len()
        invariant
            i <= bs.len(),
            out@ == distinct_ids(bs@.take(i as int)),
        decreases bs.len() - i,
    {
        proof { assert(bs@.take(i + 1).drop_last() =~= bs@.take(i as int)); }
        if !holds_block(&out, bs[i].id) {
            out.push(bs[i].id);
        }
        i = i + 1;
    }
    assert(bs@.take(bs.len() as int) =~= bs@);
    out
}

/// The place of a block identifier in a list of distinct identifiers.
fn position(ids: &Vec<BlockId>, id: BlockId) -> (r: usize)
    requires
        ids_distinct(ids@),
        ids@.contains(id),
    ensures
        r == pos_of(ids@, id),
        r < ids@.len(),
        ids@[r as int] == id,
{
    let mut k: usize = 0;
    while k < ids.len()
        invariant
            k <= ids.len(),
            ids@.contains(id),
            ids_distinct(ids@),
            forall|x: int| 0 <= x < k ==> ids@[x] != id,
        decreases ids.len() - k,
    {
        if ids[k] == id {
            proof { lemma_pos_of(ids@, id, k as int); }
            return k;
        }
        k = k + 1;
    }
    proof {
        let x = choose|x: int| 0 <= x < ids@.len() && ids@[x] == id;
        assert(false);
    }
    0
}

/// The table of rows that a vector of rows holds.
pub open spec fn table_view(t: Seq<Vec<bool>>) -> Seq<Seq<bool>> {
    t.map_values(|v: Vec<bool>| v@)
}

/// The positions in `ids` of the predecessors of each distinct block.
fn predecessor_positions(bs: &Vec<BasicBlock>, ids: &Vec<BlockId>) -> (r: Vec<Vec<usize>>)
    requires
        ids@ == distinct_ids(bs@),
    ensures
        r@.len() == ids@.len(),
        forall|a: int| 0 <= a < ids@.len() ==> (#[trigger] r@[a])@.len() == preds(bs@, ids@[a]).len(),
        forall|a: int, q: int| 0 <= a < ids@.len() && 0 <= q < preds(bs@, ids@[a]).len() ==>
            (#[trigger] r@[a]@[q]) == pos_of(ids@, preds(bs@, ids@[a])[q]) && r@[a]@[q] < ids@.len(),
{
    proof { lemma_distinct_ids(bs@); }
    let mut out: Vec<Vec<usize>> = Vec::new();
    let mut a: usize = 0;
    while a < ids.len()
        invariant
            a <= ids.len(),
            ids@ == distinct_ids(bs@),
            ids_distinct(ids@),
            out@.len() == a,
            forall|x: int| 0 <= x < a ==> (#[trigger] out@[x])@.len() == preds(bs@, ids@[x]).len(),
            forall|x: int, q: int| 0 <= x < a && 0 <= q < preds(bs@, ids@[x]).len() ==>
                (#[trigger] out@[x]@[q]) == pos_of(ids@, preds(bs@, ids@[x])[q]) && out@[x]@[q] < ids@.len(),
        decreases ids.len() - a,
    {
        let ps = predecessors_of(bs, ids[a]);
        proof {
            lemma_distinct_ids(bs@);
            lemma_preds_are_blocks(bs@, ids@[a as int]);
        }
        let mut row: Vec<usize> = Vec::new();
        let mut q: usize = 0;
        while q < ps.len()
            invariant
                q <= ps.len(),
                a < ids.len(),
                ids@ == distinct_ids(bs@),
                ids_distinct(ids@),
                ps@ == preds(bs@, ids@[a as int]),
                forall|i: int| 0 <= i < bs@.len() ==> distinct_ids(bs@).contains(#[trigger] bs@[i].id),
                forall|x: int| 0 <= x < ps@.len() ==> exists|i: int| 0 <= i < bs@.len() && bs@[i].id == #[trigger] ps@[x],
                row@.len() == q,
                forall|x: int| 0 <= x < q ==> (#[trigger] row@[x]) == pos_of(ids@, ps@[x]) && row@[x] < ids@.len(),
            decreases ps.len() - q,
        {
            proof {
                let i = choose|i: int| 0 <= i < bs@.len() && bs@[i].id == #[trigger] ps@[q as int];
                assert(distinct_ids(bs@).contains(bs@[i].id));
            }
            let k = position(ids, ps[q]);
            row.push(k);
            q = q + 1;
        }
        out.push(row);
        a = a + 1;
    }
    out
}

/// A row whose entry `b` says that `b == a` or that every row named in `ps`
/// holds `b`.
fn meet_row(d: &Vec<Vec<bool>>, ps: &Vec<usize>, a: usize, m: usize) -> (r: Vec<bool>)
    requires
        d@.len() == m,
        forall|x: int| 0 <= x < m ==> (#[trigger] d@[x])@.len() == m,
        a < m,
        forall|q: int| 0 <= q < ps@.len() ==> #[trigger] ps@[q] < m,
    ensures
        r@.len() == m,
        forall|b: int| 0 <= b < m ==> (#[trigger] r@[b]) == (b == a || forall|q: int| 0 <= q < ps@.len() ==> #[trigger] d@[ps@[q] as int]@[b]),
{
    let mut r: Vec<bool> = Vec::new();
    let mut b: usize = 0;
    while b < m
        invariant
            b <= m,
            d@.len() == m,
            forall|x: int| 0 <= x < m ==> (#[trigger] d@[x])@.len() == m,
            a < m,
            forall|q: int| 0 <= q < ps@.len() ==> #[trigger] ps@[q] < m,
            r@.len() == b,
            forall|x: int| 0 <= x < b ==> (#[trigger] r@[x]) == (x == a || forall|q: int| 0 <= q < ps@.len() ==> #[trigger] d@[ps@[q] as int]@[x]),
        decreases m - b,
    {
        let mut all = true;
        let mut q: usize = 0;
        while q < ps.len()
            invariant
                q <= ps.len(),
                b < m,
                d@.len() == m,
                forall|x: int| 0 <= x < m ==> (#[trigger] d@[x])@.len() == m,
                forall|x: int| 0 <= x < ps@.len() ==> #[trigger] ps@[x] < m,
                all == forall|x: int| 0 <= x < q ==> #[trigger] d@[ps@[x] as int]@[b as int],
            decreases ps.len() - q,
        {
            if !d[ps[q]][b] {
                all = false;
            }
            q = q + 1;
        }
        r.push(b == a || all);
        b = b + 1;
    }
    r
}

/// Whether two rows are equal.
fn rows_equal(x: &Vec<bool>, y: &Vec<bool>) -> (r: bool)
    ensures
        r == (x@ == y@),
{
    if x.len() != y.len() {
        return false;
    }
    let mut i: usize = 0;
    while i < x.len()
        invariant
            i <= x.len(),
            x@.len() == y@.len(),
            forall|k: int| 0 <= k < i ==> x@[k] == y@[k],
        decreases x.len() - i,
    {
        if x[i] != y[i] {
            return false;
        }
        i = i + 1;
    }
    assert(x@ =~= y@);
    true
}

/// The rows of the entry block and of blocks without predecessors are fixed.
pub open spec fn fixed_rows(bs: Seq<BasicBlock>, ids: Seq<BlockId>, e: BlockId, d: Seq<Seq<bool>>) -> bool {
    forall|a: int, b: int| 0 <= a < ids.len() && 0 <= b < ids.len() ==> {
        &&& (ids[a] == e ==> (#[trigger] d[a][b] <==> b == a))
        &&& (ids[a] != e && preds(bs, ids[a]).len() == 0 ==> d[a][b])
    }
}

/// Every entry that the equations give is in the table.
pub open spec fn rhs_within(bs: Seq<BasicBlock>, ids: Seq<BlockId>, e: BlockId, d: Seq<Seq<bool>>) -> bool {
    forall|a: int, b: int| 0 <= a < ids.len() && 0 <= b < ids.len() && dom_rhs(bs, ids, e, d, a, b) ==> #[trigger] d[a][b]
}

/// Every solution of the equations is within the table.
pub open spec fn solutions_within(bs: Seq<BasicBlock>, e: BlockId, d: Seq<Seq<bool>>) -> bool {
    forall|g: Seq<Seq<bool>>| #[trigger] is_dom_solution(bs, e, g) ==> table_le(g, d, distinct_ids(bs).len() as int)
}

/// Computes the dominator table by iterating the equations from the full table
/// down, block by block in order, until a round changes nothing.
fn compute_dominator_table(bs: &Vec<BasicBlock>, e: BlockId, ids: &Vec<BlockId>, pidx: &Vec<Vec<usize>>) -> (r: Vec<Vec<bool>>)
    requires
        ids@ == distinct_ids(bs@),
        pidx@.len() == ids@.len(),
        forall|a: int| 0 <= a < ids@.len() ==> (#[trigger] pidx@[a])@.len() == preds(bs@, ids@[a]).len(),
        forall|a: int, q: int| 0 <= a < ids@.len() && 0 <= q < preds(bs@, ids@[a]).len() ==>
            (#[trigger] pidx@[a]@[q]) == pos_of(ids@, preds(bs@, ids@[a])[q]) && pidx@[a]@[q] < ids@.len(),
    ensures
        is_dominators(bs@, e, table_view(r@)),
{
    proof {
        lemma_distinct_ids(bs@);
        assert(preds_known(bs@, ids@)) by {
            assert forall|a: int, q: int| 0 <= a < ids@.len() && 0 <= q < preds(bs@, ids@[a]).len()
                implies #[trigger] ids@.contains(preds(bs@, ids@[a])[q]) by {
                lemma_preds_are_blocks(bs@, ids@[a]);
                let i = choose|i: int| 0 <= i < bs@.len() && bs@[i].id == #[trigger] preds(bs@, ids@[a])[q];
                assert(distinct_ids(bs@).contains(bs@[i].id));
            }
        }
    }
    let m = ids.len();
    let mut d: Vec<Vec<bool>> = Vec::new();
    let mut a: usize = 0;
    while a < m
        invariant
            m == ids@.len(),
            a <= m,
            d@.len() == a,
            forall|x: int| 0 <= x < a ==> (#[trigger] d@[x])@.len() == m,
            forall|x: int, b: int| 0 <= x < a && 0 <= b < m ==> (#[trigger] d@[x]@[b]) == (ids@[x] == e ==> b == x),
        decreases m - a,
    {
        let mut row: Vec<bool> = Vec::new();
        let mut b: usize = 0;
        while b < m
            invariant
                m == ids@.len(),
                a < m,
                b <= m,
                row@.len() == b,
                forall|y: int| 0 <= y < b ==> (#[trigger] row@[y]) == (ids@[a as int] == e ==> y == a),
            decreases m - b,
        {
            row.push(ids[a] != e || b == a);
            b = b + 1;
        }
        d.push(row);
        a = a + 1;
    }
    proof {
        let t = table_view(d@);
        let idv = ids@;
        assert(is_table(bs@, t));
        assert(fixed_rows(bs@, idv, e, t));
        assert(rhs_within(bs@, idv, e, t));
        assert forall|g: Seq<Seq<bool>>| #[trigger] is_dom_solution(bs@, e, g) implies table_le(g, t, m as int) by {
            assert forall|x: int, y: int| 0 <= x < m && 0 <= y < m && #[trigger] g[x][y] implies t[x][y] by {
                assert(g[x][y] == dom_rhs(bs@, idv, e, g, x, y));
            }
        }
    }
    let mut changed = true;
    while changed
        invariant
            m == ids@.len(),
            ids@ == distinct_ids(bs@),
            ids_distinct(ids@),
            preds_known(bs@, ids@),
            forall|i: int| 0 <= i < bs@.len() ==> distinct_ids(bs@).contains(#[trigger] bs@[i].id),
            forall|k: int| 0 <= k < m ==> exists|i: int| 0 <= i < bs@.len() && bs@[i].id == #[trigger] ids@[k],
            pidx@.len() == m,
            forall|x: int| 0 <= x < m ==> (#[trigger] pidx@[x])@.len() == preds(bs@, ids@[x]).len(),
            forall|x: int, q: int| 0 <= x < m && 0 <= q < preds(bs@, ids@[x]).len() ==>
                (#[trigger] pidx@[x]@[q]) == pos_of(ids@, preds(bs@, ids@[x])[q]) && pidx@[x]@[q] < m,
            is_table(bs@, table_view(d@)),
            fixed_rows(bs@, ids@, e, table_view(d@)),
            rhs_within(bs@, ids@, e, table_view(d@)),
            solutions_within(bs@, e, table_view(d@)),
            !changed ==> is_dom_solution(bs@, e, table_view(d@)),
        decreases table_count(table_view(d@)) + if changed { 1nat } else { 0nat },
    {
        changed = false;
        let ghost d0 = table_view(d@);
        let mut i: usize = 0;
        while i < bs.len()
            invariant
                m == ids@.len(),
                ids@ == distinct_ids(bs@),
                ids_distinct(ids@),
                preds_known(bs@, ids@),
                forall|i: int| 0 <= i < bs@.len() ==> distinct_ids(bs@).contains(#[trigger] bs@[i].id),
                forall|k: int| 0 <= k < m ==> exists|i: int| 0 <= i < bs@.len() && bs@[i].id == #[trigger] ids@[k],
                pidx@.len() == m,
                forall|x: int| 0 <= x < m ==> (#[trigger] pidx@[x])@.len() == preds(bs@, ids@[x]).len(),
                forall|x: int, q: int| 0 <= x < m && 0 <= q < preds(bs@, ids@[x]).len() ==>
                    (#[trigger] pidx@[x]@[q]) == pos_of(ids@, preds(bs@, ids@[x])[q]) && pidx@[x]@[q] < m,
                i <= bs.len(),
                is_table(bs@, table_view(d@)),
                fixed_rows(bs@, ids@, e, table_view(d@)),
                rhs_within(bs@, ids@, e, table_view(d@)),
                solutions_within(bs@, e, table_view(d@)),
                !changed ==> table_view(d@) == d0,
                changed ==> table_count(table_view(d@)) < table_count(d0),
                !changed ==> forall|x: int, b: int| 0 <= x < i && 0 <= b < m ==>
                    #[trigger] table_view(d@)[pos_of(ids@, bs@[x].id)][b] == dom_rhs(bs@, ids@, e, table_view(d@), pos_of(ids@, bs@[x].id), b),
            decreases bs.len() - i,
        {
            let id = bs[i].id;
            let ghost t = table_view(d@);
            proof { assert(distinct_ids(bs@).contains(bs@[i as int].id)); }
            let a = position(ids, id);
            if id != e && pidx[a].len() > 0 {
                proof {
                    assert forall|x: int| 0 <= x < m implies (#[trigger] d@[x])@.len() == m by {
                        assert(t[x] == d@[x]@);
                    }
                }
                let row = meet_row(&d, &pidx[a], a, m);
                proof {
                    assert forall|b: int| 0 <= b < m implies row@[b] == dom_rhs(bs@, ids@, e, t, a as int, b) by {
                        let ps = preds(bs@, ids@[a as int]);
                        if b != a {
                            if row@[b] {
                                assert forall|q: int| 0 <= q < ps.len() implies #[trigger] t[pos_of(ids@, ps[q])][b] by {
                                    assert(pidx@[a as int]@[q] == pos_of(ids@, ps[q]));
                                    assert(d@[pidx@[a as int]@[q] as int]@[b]);
                                }
                            } else {
                                let q = choose|q: int| 0 <= q < pidx@[a as int]@.len() && !#[trigger] d@[pidx@[a as int]@[q] as int]@[b];
                                assert(pidx@[a as int]@[q] == pos_of(ids@, ps[q]));
                                assert(!t[pos_of(ids@, ps[q])][b]);
                            }
                        }
                    }
                }
                if !rows_equal(&row, &d[a]) {
                    proof {
                        assert forall|b: int| 0 <= b < m && #[trigger] row@[b] implies t[a as int][b] by {}
                        lemma_count_true_sub(row@, t[a as int]);
                        lemma_table_count_update(t, a as int, row@);
                    }
                    d.set(a, row);
                    changed = true;
                    proof {
                        let t2 = table_view(d@);
                        assert(t2 =~= t.update(a as int, row@));
                        assert(table_le(t2, t, m as int));
                        assert forall|x: int, b: int| 0 <= x < m && 0 <= b < m && dom_rhs(bs@, ids@, e, t2, x, b)
                            implies #[trigger] t2[x][b] by {
                            lemma_rhs_mono(bs@, ids@, e, t2, t, x, b);
                        }
                        assert forall|g: Seq<Seq<bool>>| #[trigger] is_dom_solution(bs@, e, g) implies table_le(g, t2, m as int) by {
                            assert(table_le(g, t, m as int));
                            assert forall|x: int, b: int| 0 <= x < m && 0 <= b < m && #[trigger] g[x][b] implies t2[x][b] by {
                                if x == a {
                                    assert(g[x][b] == dom_rhs(bs@, ids@, e, g, x, b));
                                    lemma_rhs_mono(bs@, ids@, e, g, t, x, b);
                                }
                            }
                        }
                        assert(fixed_rows(bs@, ids@, e, t2));
                    }
                } else {
                    proof {
                        assert(row@ == t[a as int]);
                    }
                }
            }
            proof {
                if !changed {
                    assert forall|x: int, b: int| 0 <= x < i + 1 && 0 <= b < m implies
                        #[trigger] table_view(d@)[pos_of(ids@, bs@[x].id)][b] == dom_rhs(bs@, ids@, e, table_view(d@), pos_of(ids@, bs@[x].id), b) by {
                        if x == i {
                            assert(pos_of(ids@, bs@[x].id) == a);
                        }
                    }
                }
            }
            i = i + 1;
        }
        proof {
            if !changed {
                let t = table_view(d@);
                assert forall|x: int, b: int| 0 <= x < m && 0 <= b < m implies #[trigger] t[x][b] == dom_rhs(bs@, ids@, e, t, x, b) by {
                    let k = choose|k: int| 0 <= k < bs@.len() && bs@[k].id == #[trigger] ids@[x];
                    lemma_pos_of(ids@, ids@[x], x);
                    assert(t[pos_of(ids@, bs@[k].id)][b] == dom_rhs(bs@, ids@, e, t, pos_of(ids@, bs@[k].id), b));
                }
            }
        }
    }
    d
}

/// The block assigns `r` in one of its instructions.
pub open spec fn block_assigns(b: BasicBlock, r: Register) -> bool {
    exists|k: int| 0 <= k < b.instructions@.len() && #[trigger] dests(b.instructions@[k]).contains(r)
}

/// No later block has the identifier of block `i`.
pub open spec fn last_of_id(bs: Seq<BasicBlock>, i: int) -> bool {
    forall|j: int| i < j < bs.len() ==> #[trigger] bs[j].id != bs[i].id
}

/// The block that defines `r`, as the blocks are recorded by identifier (a
/// later block with the same identifier replacing an earlier one): the first
/// block from `i` on that is the last with its identifier and assigns `r`.
pub open spec fn def_block_from(bs: Seq<BasicBlock>, r: Register, i: int) -> Option<BlockId>
    decreases bs.len() - i,
{
    if i >= bs.len() {
        None
    } else if last_of_id(bs, i) && block_assigns(bs[i], r) {
        Some(bs[i].id)
    } else {
        def_block_from(bs, r, i + 1)
    }
}

/// The message for a use in a block that the defining block does not dominate.
pub open spec fn nondominated_message(r: Register, b: BlockId, db: BlockId) -> Seq<char> {
    "Register "@ + reg_text(r) + " used in block "@ + block_text(b) + " but defined in non-dominating block "@ + block_text(db)
}

/// The message for a use of a register that nothing defines.
pub open spec fn undefined_message(r: Register, b: BlockId) -> Seq<char> {
    "Register "@ + reg_text(r) + " used in block "@ + block_text(b) + " but never defined"@
}

/// The message for a use that comes before the definition in the same block.
pub open spec fn before_def_message(r: Register, b: BlockId) -> Seq<char> {
    "Register "@ + reg_text(r) + " used before its definition in block "@ + block_text(b)
}

/// Some instruction of `is` at a position in `[lo, hi)` assigns `r`.
pub open spec fn assigned_between(is: Seq<SSAInstruction>, lo: int, hi: int, r: Register) -> bool {
    exists|k: int| lo <= k < hi && 0 <= k < is.len() && #[trigger] dests(is[k]).contains(r)
}

/// What is wrong with a use of `r` by instruction `j` of `is`, in block `b`,
/// if anything, with the dominator table `d`: the defining block must
/// dominate the use, and in the defining block itself the definition must
/// come first.
pub open spec fn use_error(bs: Seq<BasicBlock>, params: Seq<Register>, d: Seq<Seq<bool>>, b: BlockId, r: Register,
    is: Seq<SSAInstruction>, j: int) -> Option<Seq<char>>
{
    let ids = distinct_ids(bs);
    match def_block_from(bs, r, 0) {
        Some(db) => if b == db {
            if assigned_between(is, 0, is.len() as int, r) && !assigned_between(is, 0, j, r) {
                Some(before_def_message(r, b))
            } else {
                None
            }
        } else if d[pos_of(ids, b)][pos_of(ids, db)] {
            None
        } else {
            Some(nondominated_message(r, b, db))
        },
        None => if params.contains(r) { None } else { Some(undefined_message(r, b)) },
    }
}

/// The first use error among the registers `rs` from `k` on, used by instruction `j` of `is`.
pub open spec fn uses_error(bs: Seq<BasicBlock>, params: Seq<Register>, d: Seq<Seq<bool>>, b: BlockId, rs: Seq<Register>, k: int,
    is: Seq<SSAInstruction>, j: int) -> Option<Seq<char>>
    decreases rs.len() - k,
{
    if k >= rs.len() {
        None
    } else {
        match use_error(bs, params, d, b, rs[k], is, j) {
            Some(m) => Some(m),
            None => uses_error(bs, params, d, b, rs, k + 1, is, j),
        }
    }
}

/// The first use error among the instructions from `j` on, phi nodes aside.
pub open spec fn insts_dom_error(bs: Seq<BasicBlock>, params: Seq<Register>, d: Seq<Seq<bool>>, b: BlockId, is: Seq<SSAInstruction>, j: int) -> Option<Seq<char>>
    decreases is.len() - j,
{
    if j >= is.len() {
        None
    } else if is[j] is Phi {
        insts_dom_error(bs, params, d, b, is, j + 1)
    } else {
        match uses_error(bs, params, d, b, uses(is[j]), 0, is, j) {
            Some(m) => Some(m),
            None => insts_dom_error(bs, params, d, b, is, j + 1),
        }
    }
}

/// The first use error in the blocks from `i` on.
pub open spec fn dominance_error(bs: Seq<BasicBlock>, params: Seq<Register>, d: Seq<Seq<bool>>, i: int) -> Option<Seq<char>>
    decreases bs.len() - i,
{
    if i >= bs.len() {
        None
    } else {
        match insts_dom_error(bs, params, d, bs[i].id, bs[i].instructions@, 0) {
            Some(m) => Some(m),
            None => dominance_error(bs, params, d, i + 1),
        }
    }
}

/// The first of `xs` from `k` on that is not in `ys`.
pub open spec fn first_not_in(xs: Seq<BlockId>, ys: Seq<BlockId>, k: int) -> Option<BlockId>
    decreases xs.len() - k,
{
    if k >= xs.len() {
        None
    } else if !ys.contains(xs[k]) {
        Some(xs[k])
    } else {
        first_not_in(xs, ys, k + 1)
    }
}

/// The blocks a phi node takes values from.
pub open spec fn incoming_blocks(incoming: Seq<(BlockId, Register)>) -> Seq<BlockId> {
    incoming.map_values(|p: (BlockId, Register)| p.0)
}

/// The message for a phi node after another instruction.
pub open spec fn phi_place_message(dest: Register, b: BlockId) -> Seq<char> {
    "Phi node for "@ + reg_text(dest) + " not at start of block "@ + block_text(b)
}

/// The message for a predecessor a phi node has no value from.
pub open spec fn phi_missing_message(dest: Register, b: BlockId, p: BlockId) -> Seq<char> {
    "Phi node for "@ + reg_text(dest) + " in block "@ + block_text(b) + " missing incoming value from predecessor "@ + block_text(p)
}

/// The message for a value a phi node takes from a block that is no predecessor.
pub open spec fn phi_extra_message(dest: Register, b: BlockId, p: BlockId) -> Seq<char> {
    "Phi node for "@ + reg_text(dest) + " in block "@ + block_text(b) + " has incoming value from non-predecessor "@ + block_text(p)
}

/// The first phi error among the instructions of block `b` from `j` on:
/// a phi node after another instruction, a predecessor it has no value from
/// (the first, in the order of the predecessors), or a block it takes a value
/// from that is no predecessor (the first, in the order of its values).
pub open spec fn phi_error(bs: Seq<BasicBlock>, b: BlockId, is: Seq<SSAInstruction>, j: int, seen_other: bool) -> Option<Seq<char>>
    decreases is.len() - j,
{
    if j >= is.len() {
        None
    } else {
        match is[j] {
            SSAInstruction::Phi { dest, incoming } => {
                let ps = preds(bs, b);
                let ins = incoming_blocks(incoming@);
                if seen_other {
                    Some(phi_place_message(dest, b))
                } else {
                    match first_not_in(ps, ins, 0) {
                        Some(p) => Some(phi_missing_message(dest, b, p)),
                        None => match first_not_in(ins, ps, 0) {
                            Some(q) => Some(phi_extra_message(dest, b, q)),
                            None => phi_error(bs, b, is, j + 1, false),
                        },
                    }
                }
            },
            _ => phi_error(bs, b, is, j + 1, true),
        }
    }
}

/// The first phi error in the blocks from `i` on.
pub open spec fn phis_error(bs: Seq<BasicBlock>, i: int) -> Option<Seq<char>>
    decreases bs.len() - i,
{
    if i >= bs.len() {
        None
    } else {
        match phi_error(bs, bs[i].id, bs[i].instructions@, 0, false) {
            Some(m) => Some(m),
            None => phis_error(bs, i + 1),
        }
    }
}

/// The message for a phi node with another number of values than the block
/// has predecessors.
pub open spec fn arity_message(dest: Register, b: BlockId, n: int, p: int) -> Seq<char> {
    "Type consistency error: Phi node for "@ + reg_text(dest) + " in block "@ + block_text(b) + " has "@
        + decimal_text(n) + " incoming values but "@ + decimal_text(p) + " predecessors"@
}

/// The first phi node from `j` on whose number of values is not `p`.
pub open spec fn arity_error(b: BlockId, p: int, is: Seq<SSAInstruction>, j: int) -> Option<Seq<char>>
    decreases is.len() - j,
{
    if j >= is.len() {
        None
    } else {
        match is[j] {
            SSAInstruction::Phi { dest, incoming } => if incoming@.len() != p {
                Some(arity_message(dest, b, incoming@.len() as int, p))
            } else {
                arity_error(b, p, is, j + 1)
            },
            _ => arity_error(b, p, is, j + 1),
        }
    }
}

/// The first block from `i` on with more than one predecessor edge and a phi
/// node whose number of values differs from the number of those edges.
pub open spec fn types_error(bs: Seq<BasicBlock>, i: int) -> Option<Seq<char>>
    decreases bs.len() - i,
{
    if i >= bs.len() {
        None
    } else {
        let p = preds(bs, bs[i].id).len() as int;
        if p <= 1 {
            types_error(bs, i + 1)
        } else {
            match arity_error(bs[i].id, p, bs[i].instructions@, 0) {
                Some(m) => Some(m),
                None => types_error(bs, i + 1),
            }
        }
    }
}

/// What validation finds wrong with the function, with the dominator table
/// `d`: in order, a register assigned twice, a block that control cannot
/// reach, a use not dominated by its definition or of nothing defined, a
/// misplaced or mismatched phi node, a phi node with the wrong number of
/// values; `None` when the function is in valid SSA form.
pub open spec fn validation_outcome(f: SSAFunction, d: Seq<Seq<bool>>) -> Option<Seq<char>> {
    let bs = f.blocks@;
    match reassigned(bs) {
        Some(r) => Some(reassigned_message(r)),
        None => match first_unreachable(bs, f.entry_block, 0) {
            Some(b) => Some(unreachable_message(b, f.entry_block)),
            None => match dominance_error(bs, f.parameters@, d, 0) {
                Some(m) => Some(m),
                None => match phis_error(bs, 0) {
                    Some(m) => Some(m),
                    None => types_error(bs, 0),
                },
            },
        },
    }
}

/// The dominator table is unique: two tables that are both the greatest
/// solution of the dominator equations are equal.
pub proof fn law_dominators_unique(bs: Seq<BasicBlock>, e: BlockId, d1: Seq<Seq<bool>>, d2: Seq<Seq<bool>>)
    requires
        is_dominators(bs, e, d1),
        is_dominators(bs, e, d2),
    ensures
        d1 == d2,
{
    let m = distinct_ids(bs).len() as int;
    assert(table_le(d1, d2, m));
    assert(table_le(d2, d1, m));
    assert forall|a: int| 0 <= a < m implies d1[a] == d2[a] by {
        assert forall|b: int| 0 <= b < m implies d1[a][b] == d2[a][b] by {
            if d1[a][b] { assert(d2[a][b]); }
            if d2[a][b] { assert(d1[a][b]); }
        }
        assert(d1[a] =~= d2[a]);
    }
    assert(d1 =~= d2);
}

proof fn lemma_def_block_is_block(bs: Seq<BasicBlock>, r: Register, i: int)
    requires
        0 <= i,
        def_block_from(bs, r, i) is Some,
    ensures
        exists|x: int| i <= x < bs.len() && (#[trigger] bs[x]).id == def_block_from(bs, r, i)->Some_0,
    decreases bs.len() - i,
{
    if i < bs.len() && !(last_of_id(bs, i) && block_assigns(bs[i], r)) {
        lemma_def_block_is_block(bs, r, i + 1);
    }
}

proof fn lemma_pair_contains(a: Register, b: Register, r: Register)
    ensures
        seq![a, b].contains(r) <==> (a == r || b == r),
{
    if a == r { assert(seq![a, b][0] == r); }
    if b == r { assert(seq![a, b][1] == r); }
}

proof fn lemma_single_contains(a: Register, r: Register)
    ensures
        seq![a].contains(r) <==> a == r,
{
    if a == r { assert(seq![a][0] == r); }
}

/// Whether an instruction assigns `r`.
fn instruction_assigns(inst: &SSAInstruction, r: Register) -> (res: bool)
    ensures
        res == dests(*inst).contains(r),
{
    match inst {
        SSAInstruction::Call { dest, .. } => holds_register(dest, r),
        SSAInstruction::FFICall { dest, .. } => holds_register(dest, r),
        SSAInstruction::LoadString { dest_addr, dest_len, .. } => {
            proof { lemma_pair_contains(*dest_addr, *dest_len, r); }
            *dest_addr == r || *dest_len == r
        },
        SSAInstruction::FileOpen { dest_fileid, dest_ior, .. } => {
            proof { lemma_pair_contains(*dest_fileid, *dest_ior, r); }
            *dest_fileid == r || *dest_ior == r
        },
        SSAInstruction::FileRead { dest_bytes, dest_ior, .. } => {
            proof { lemma_pair_contains(*dest_bytes, *dest_ior, r); }
            *dest_bytes == r || *dest_ior == r
        },
        SSAInstruction::FileCreate { dest_fileid, dest_ior, .. } => {
            proof { lemma_pair_contains(*dest_fileid, *dest_ior, r); }
            *dest_fileid == r || *dest_ior == r
        },
        SSAInstruction::LoadInt { dest, .. } => {
            proof { lemma_single_contains(*dest, r); }
            *dest == r
        },
        SSAInstruction::LoadFloat { dest, .. } => {
            proof { lemma_single_contains(*dest, r); }
            *dest == r
        },
        SSAInstruction::BinaryOp { dest, .. } => {
            proof { lemma_single_contains(*dest, r); }
            *dest == r
        },
        SSAInstruction::UnaryOp { dest, .. } => {
            proof { lemma_single_contains(*dest, r); }
            *dest == r
        },
        SSAInstruction::Phi { dest, .. } => {
            proof { lemma_single_contains(*dest, r); }
            *dest == r
        },
        SSAInstruction::Load { dest, .. } => {
            proof { lemma_single_contains(*dest, r); }
            *dest == r
        },
        SSAInstruction::SystemCall { dest, .. } => {
            proof { lemma_single_contains(*dest, r); }
            *dest == r
        },
        SSAInstruction::FileWrite { dest_ior, .. } => {
            proof { lemma_single_contains(*dest_ior, r); }
            *dest_ior == r
        },
        SSAInstruction::FileClose { dest_ior, .. } => {
            proof { lemma_single_contains(*dest_ior, r); }
            *dest_ior == r
        },
        SSAInstruction::FileDelete { dest_ior, .. } => {
            proof { lemma_single_contains(*dest_ior, r); }
            *dest_ior == r
        },
        _ => false,
    }
}

/// Whether the block assigns `r`.
fn assigns_register(b: &BasicBlock, r: Register) -> (res: bool)
    ensures
        res == block_assigns(*b, r),
{
    let is = &b.instructions;
    let mut k: usize = 0;
    while k < is.len()
        invariant
            k <= is.len(),
            is@ == b.instructions@,
            forall|x: int| 0 <= x < k ==> !(#[trigger] dests(is@[x]).contains(r)),
        decreases is.len() - k,
    {
        if instruction_assigns(&is[k], r) {
            return true;
        }
        k = k + 1;
    }
    false
}

/// Whether no later block has the identifier of block `i`.
fn is_last_of_id(bs: &Vec<BasicBlock>, i: usize) -> (r: bool)
    requires
        i < bs.len(),
    ensures
        r == last_of_id(bs@, i as int),
{
    let mut j: usize = i + 1;
    while j < bs.len()
        invariant
            i < j <= bs.len(),
            forall|x: int| i < x < j ==> #[trigger] bs@[x].id != bs@[i as int].id,
        decreases bs.len() - j,
    {
        if bs[j].id == bs[i].id {
            return false;
        }
        j = j + 1;
    }
    true
}

/// The block that defines a register, as the blocks are recorded by identifier.
fn find_definition_block(bs: &Vec<BasicBlock>, r: Register) -> (res: Option<BlockId>)
    ensures
        res == def_block_from(bs@, r, 0),
{
    let mut i: usize = 0;
    while i < bs.len()
        invariant
            i <= bs.len(),
            def_block_from(bs@, r, 0) == def_block_from(bs@, r, i as int),
        decreases bs.len() - i,
    {
        if is_last_of_id(bs, i) && assigns_register(&bs[i], r) {
            return Some(bs[i].id);
        }
        i = i + 1;
    }
    None
}

/// Checks that every use (phi nodes aside) is of a register defined in a
/// dominating block, or of a parameter.
fn check_dominance(f: &SSAFunction, ids: &Vec<BlockId>, dom: &Vec<Vec<bool>>) -> (r: Result<(), ForthError>)
    requires
        ids@ == distinct_ids(f.blocks@),
        is_table(f.blocks@, table_view(dom@)),
    ensures
        match dominance_error(f.blocks@, f.parameters@, table_view(dom@), 0) {
            Some(m) => r matches Err(ForthError::SSAConversionError { message }) && message@ == m,
            None => r is Ok,
        },
{
    let bs = &f.blocks;
    let ghost d = table_view(dom@);
    let ghost params = f.parameters@;
    proof { lemma_distinct_ids(bs@); }
    let mut i: usize = 0;
    while i < bs.len()
        invariant
            bs@ == f.blocks@,
            params == f.parameters@,
            d == table_view(dom@),
            ids@ == distinct_ids(bs@),
            ids_distinct(ids@),
            is_table(bs@, d),
            forall|x: int| 0 <= x < bs@.len() ==> distinct_ids(bs@).contains(#[trigger] bs@[x].id),
            i <= bs.len(),
            dominance_error(bs@, params, d, 0) == dominance_error(bs@, params, d, i as int),
        decreases bs.len() - i,
    {
        let b = bs[i].id;
        let is = &bs[i].instructions;
        let mut j: usize = 0;
        while j < is.len()
            invariant
                bs@ == f.blocks@,
                params == f.parameters@,
                d == table_view(dom@),
                ids@ == distinct_ids(bs@),
                ids_distinct(ids@),
                is_table(bs@, d),
                forall|x: int| 0 <= x < bs@.len() ==> distinct_ids(bs@).contains(#[trigger] bs@[x].id),
                i < bs.len(),
                b == bs@[i as int].id,
                is@ == bs@[i as int].instructions@,
                j <= is.len(),
                dominance_error(bs@, params, d, 0) == match insts_dom_error(bs@, params, d, b, is@, j as int) {
                    Some(m) => Some(m),
                    None => dominance_error(bs@, params, d, i + 1),
                },
            decreases is.len() - j,
        {
            if let SSAInstruction::Phi { .. } = &is[j] {
                j = j + 1;
                continue;
            }
            let us = get_used_registers(&is[j]);
            let mut k: usize = 0;
            while k < us.len()
                invariant
                    bs@ == f.blocks@,
                    params == f.parameters@,
                    d == table_view(dom@),
                    ids@ == distinct_ids(bs@),
                    ids_distinct(ids@),
                    is_table(bs@, d),
                    forall|x: int| 0 <= x < bs@.len() ==> distinct_ids(bs@).contains(#[trigger] bs@[x].id),
                    i < bs.len(),
                    b == bs@[i as int].id,
                    is@ == bs@[i as int].instructions@,
                    j < is.len(),
                    !(is@[j as int] is Phi),
                    us@ == uses(is@[j as int]),
                    k <= us.len(),
                    dominance_error(bs@, params, d, 0) == match uses_error(bs@, params, d, b, us@, k as int, is@, j as int) {
                        Some(m) => Some(m),
                        None => match insts_dom_error(bs@, params, d, b, is@, j + 1) {
                            Some(m) => Some(m),
                            None => dominance_error(bs@, params, d, i + 1),
                        },
                    },
                decreases us.len() - k,
            {
                let reg = us[k];
                match find_definition_block(bs, reg) {
                    Some(db) => {
                        if b == db {
                            let before = assigned_within(is, 0, j, reg);
                            let anywhere = assigned_within(is, 0, is.len(), reg);
                            if anywhere && !before {
                                let mut m = String::new();
                                push_str(&mut m, "Register ");
                                push_reg(&mut m, reg);
                                push_str(&mut m, " used before its definition in block ");
                                push_block(&mut m, b);
                                assert(m@ =~= before_def_message(reg, b));
                                return Err(ForthError::SSAConversionError { message: m });
                            }
                        }
                        let ok = if b == db {
                            true
                        } else {
                            proof {
                                lemma_def_block_is_block(bs@, reg, 0);
                                let x = choose|x: int| 0 <= x < bs@.len() && (#[trigger] bs@[x]).id == db;
                                assert(distinct_ids(bs@).contains(bs@[x].id));
                                assert(distinct_ids(bs@).contains(bs@[i as int].id));
                            }
                            let pb = position(ids, b);
                            let pd = position(ids, db);
                            proof { assert(table_view(dom@)[pb as int] == dom@[pb as int]@); }
                            dom[pb][pd]
                        };
                        if !ok {
                            let mut m = String::new();
                            push_str(&mut m, "Register ");
                            push_reg(&mut m, reg);
                            push_str(&mut m, " used in block ");
                            push_block(&mut m, b);
                            push_str(&mut m, " but defined in non-dominating block ");
                            push_block(&mut m, db);
                            assert(m@ =~= nondominated_message(reg, b, db));
                            return Err(ForthError::SSAConversionError { message: m });
                        }
                    },
                    None => {
                        if !holds_register(&f.parameters, reg) {
                            let mut m = String::new();
                            push_str(&mut m, "Register ");
                            push_reg(&mut m, reg);
                            push_str(&mut m, " used in block ");
                            push_block(&mut m, b);
                            push_str(&mut m, " but never defined");
                            assert(m@ =~= undefined_message(reg, b));
                            return Err(ForthError::SSAConversionError { message: m });
                        }
                    },
                }
                k = k + 1;
            }
            j = j + 1;
        }
        i = i + 1;
    }
    Ok(())
}

/// Whether some instruction of `is` at a position in `[lo, hi)` assigns `r`.
fn assigned_within(is: &Vec<SSAInstruction>, lo: usize, hi: usize, r: Register) -> (res: bool)
    requires
        lo <= hi <= is@.len(),
    ensures
        res == assigned_between(is@, lo as int, hi as int, r),
{
    let mut k = lo;
    while k < hi
        invariant
            lo <= k <= hi,
            hi <= is@.len(),
            forall|q: int| lo <= q < k ==> !(#[trigger] dests(is@[q]).contains(r)),
        decreases hi - k,
    {
        if instruction_assigns(&is[k], r) {
            return true;
        }
        k = k + 1;
    }
    false
}

/// The first of `xs` that is not in `ys`.
fn first_absent(xs: &Vec<BlockId>, ys: &Vec<BlockId>) -> (r: Option<BlockId>)
    ensures
        r == first_not_in(xs@, ys@, 0),
{
    let mut k: usize = 0;
    while k < xs.len()
        invariant
            k <= xs.len(),
            first_not_in(xs@, ys@, 0) == first_not_in(xs@, ys@, k as int),
        decreases xs.len() - k,
    {
        if !holds_block(ys, xs[k]) {
            return Some(xs[k]);
        }
        k = k + 1;
    }
    None
}

/// The blocks a phi node takes values from.
fn incoming_block_list(incoming: &Vec<(BlockId, Register)>) -> (r: Vec<BlockId>)
    ensures
        r@ == incoming_blocks(incoming@),
{
    let mut out: Vec<BlockId> = Vec::new();
    let mut i: usize = 0;
    while i < incoming.len()
        invariant
            i <= incoming.len(),
            out@ == incoming_blocks(incoming@.take(i as int)),
        decreases incoming.len() - i,
    {
        out.push(incoming[i].0);
        i = i + 1;
        assert(out@ =~= incoming_blocks(incoming@.take(i as int)));
    }
    assert(incoming@.take(i as int) =~= incoming@);
    out
}

/// Checks that phi nodes open their blocks and take one value from each
/// predecessor and from nothing else.
fn check_phi_nodes(f: &SSAFunction) -> (r: Result<(), ForthError>)
    ensures
        match phis_error(f.blocks@, 0) {
            Some(m) => r matches Err(ForthError::SSAConversionError { message }) && message@ == m,
            None => r is Ok,
        },
{
    let bs = &f.blocks;
    let mut i: usize = 0;
    while i < bs.len()
        invariant
            bs@ == f.blocks@,
            i <= bs.len(),
            phis_error(bs@, 0) == phis_error(bs@, i as int),
        decreases bs.len() - i,
    {
        let b = bs[i].id;
        let is = &bs[i].instructions;
        let ps = predecessors_of(bs, b);
        let mut seen_other = false;
        let mut j: usize = 0;
        while j < is.len()
            invariant
                bs@ == f.blocks@,
                i < bs.len(),
                b == bs@[i as int].id,
                is@ == bs@[i as int].instructions@,
                ps@ == preds(bs@, b),
                j <= is.len(),
                phis_error(bs@, 0) == match phi_error(bs@, b, is@, j as int, seen_other) {
                    Some(m) => Some(m),
                    None => phis_error(bs@, i + 1),
                },
            decreases is.len() - j,
        {
            match &is[j] {
                SSAInstruction::Phi { dest, incoming } => {
                    if seen_other {
                        let mut m = String::new();
                        push_str(&mut m, "Phi node for ");
                        push_reg(&mut m, *dest);
                        push_str(&mut m, " not at start of block ");
                        push_block(&mut m, b);
                        assert(m@ =~= phi_place_message(*dest, b));
                        return Err(ForthError::SSAConversionError { message: m });
                    }
                    let ins = incoming_block_list(incoming);
                    if let Some(p) = first_absent(&ps, &ins) {
                        let mut m = String::new();
                        push_str(&mut m, "Phi node for ");
                        push_reg(&mut m, *dest);
                        push_str(&mut m, " in block ");
                        push_block(&mut m, b);
                        push_str(&mut m, " missing incoming value from predecessor ");
                        push_block(&mut m, p);
                        assert(m@ =~= phi_missing_message(*dest, b, p));
                        return Err(ForthError::SSAConversionError { message: m });
                    }
                    if let Some(q) = first_absent(&ins, &ps) {
                        let mut m = String::new();
                        push_str(&mut m, "Phi node for ");
                        push_reg(&mut m, *dest);
                        push_str(&mut m, " in block ");
                        push_block(&mut m, b);
                        push_str(&mut m, " has incoming value from non-predecessor ");
                        push_block(&mut m, q);
                        assert(m@ =~= phi_extra_message(*dest, b, q));
                        return Err(ForthError::SSAConversionError { message: m });
                    }
                },
                _ => {
                    seen_other = true;
                },
            }
            j = j + 1;
        }
        i = i + 1;
    }
    Ok(())
}

/// Checks that at each block with more than one predecessor edge every phi
/// node has one value per edge.
fn check_type_consistency(f: &SSAFunction) -> (r: Result<(), ForthError>)
    ensures
        match types_error(f.blocks@, 0) {
            Some(m) => r matches Err(ForthError::SSAConversionError { message }) && message@ == m,
            None => r is Ok,
        },
{
    let bs = &f.blocks;
    let mut i: usize = 0;
    while i < bs.len()
        invariant
            bs@ == f.blocks@,
            i <= bs.len(),
            types_error(bs@, 0) == types_error(bs@, i as int),
        decreases bs.len() - i,
    {
        let b = bs[i].id;
        let is = &bs[i].instructions;
        let ps = predecessors_of(bs, b);
        if ps.len() > 1 {
            let mut j: usize = 0;
            while j < is.len()
                invariant
                    bs@ == f.blocks@,
                    i < bs.len(),
                    b == bs@[i as int].id,
                    is@ == bs@[i as int].instructions@,
                    ps@ == preds(bs@, b),
                    ps@.len() > 1,
                    j <= is.len(),
                    types_error(bs@, 0) == match arity_error(b, ps@.len() as int, is@, j as int) {
                        Some(m) => Some(m),
                        None => types_error(bs@, i + 1),
                    },
                decreases is.len() - j,
            {
                if let SSAInstruction::Phi { dest, incoming } = &is[j] {
                    if incoming.len() != ps.len() {
                        let mut m = String::new();
                        push_str(&mut m, "Type consistency error: Phi node for ");
                        push_reg(&mut m, *dest);
                        push_str(&mut m, " in block ");
                        push_block(&mut m, b);
                        push_str(&mut m, " has ");
                        let t1 = usize_text(incoming.len());
                        push_str(&mut m, t1.as_str());
                        push_str(&mut m, " incoming values but ");
                        let t2 = usize_text(ps.len());
                        push_str(&mut m, t2.as_str());
                        push_str(&mut m, " predecessors");
                        assert(m@ =~= arity_message(*dest, b, incoming@.len() as int, ps@.len() as int));
                        return Err(ForthError::SSAConversionError { message: m });
                    }
                }
                j = j + 1;
            }
        }
        i = i + 1;
    }
    Ok(())
}

/// The registers the instructions assign, in order.
pub open spec fn insts_dests(is: Seq<SSAInstruction>) -> Seq<Register>
    decreases is.len(),
{
    if is.len() == 0 {
        seq![]
    } else {
        insts_dests(is.drop_last()) + dests(is.last())
    }
}

/// The registers known at the end of a block: the parameters, in the entry
/// block, then the registers it assigns.
pub open spec fn defined_after(f: SSAFunction, b: BasicBlock) -> Seq<Register> {
    (if b.id == f.entry_block { f.parameters@ } else { seq![] }) + insts_dests(b.instructions@)
}

/// Checks SSA form: single assignment, reachability of every block from the
/// entry block, dominance of every use by its definition, placement and
/// predecessors of phi nodes, and the number of values of each phi node.
pub struct SSAValidator<'a> {
    function: &'a SSAFunction,
    /// The distinct block identifiers.
    ids: Vec<BlockId>,
    /// For each distinct block, the positions of its predecessors.
    predecessors: Vec<Vec<usize>>,
    /// For each block, the registers known at its end.
    defined: Vec<Vec<Register>>,
    /// `dominators[a][b]`: block `ids[b]` dominates block `ids[a]`.
    dominators: Vec<Vec<bool>>,
}

impl<'a> SSAValidator<'a> {
    /// The function being validated.
    pub closed spec fn subject(&self) -> SSAFunction {
        *self.function
    }

    /// The registers known at the end of each block, as last computed.
    pub closed spec fn defined_view(&self) -> Seq<Seq<Register>> {
        self.defined@.map_values(|v: Vec<Register>| v@)
    }

    /// A validator for `function`.
    pub fn new(function: &'a SSAFunction) -> (r: Self)
        ensures
            r.subject() == *function,
    {
        SSAValidator {
            function,
            ids: Vec::new(),
            predecessors: Vec::new(),
            defined: Vec::new(),
            dominators: Vec::new(),
        }
    }

    /// Records the distinct blocks and their predecessors.
    fn build_cfg(&mut self)
        ensures
            final(self).function == old(self).function,
            final(self).ids@ == distinct_ids(final(self).function.blocks@),
            final(self).predecessors@.len() == final(self).ids@.len(),
            forall|a: int| 0 <= a < final(self).ids@.len() ==> (#[trigger] final(self).predecessors@[a])@.len()
                == preds(final(self).function.blocks@, final(self).ids@[a]).len(),
            forall|a: int, q: int| 0 <= a < final(self).ids@.len() && 0 <= q < preds(final(self).function.blocks@, final(self).ids@[a]).len() ==>
                (#[trigger] final(self).predecessors@[a]@[q]) == pos_of(final(self).ids@, preds(final(self).function.blocks@, final(self).ids@[a])[q])
                && final(self).predecessors@[a]@[q] < final(self).ids@.len(),
    {
        let ids = collect_ids(&self.function.blocks);
        let pidx = predecessor_positions(&self.function.blocks, &ids);
        self.ids = ids;
        self.predecessors = pidx;
    }

    /// Records the registers known at the end of each block. Uses in a block
    /// may also come from dominating blocks, which `check_dominance` decides,
    /// so this finds nothing wrong.
    fn check_use_before_def(&mut self) -> (r: Result<(), ForthError>)
        ensures
            r is Ok,
            final(self).function == old(self).function,
            final(self).ids == old(self).ids,
            final(self).predecessors == old(self).predecessors,
            final(self).defined_view().len() == final(self).function.blocks@.len(),
            forall|i: int| 0 <= i < final(self).function.blocks@.len() ==>
                #[trigger] final(self).defined_view()[i] == defined_after(*final(self).function, final(self).function.blocks@[i]),
    {
        let f = self.function;
        let bs = &f.blocks;
        let mut all: Vec<Vec<Register>> = Vec::new();
        let mut i: usize = 0;
        while i < bs.len()
            invariant
                bs@ == f.blocks@,
                i <= bs.len(),
                all@.len() == i,
                forall|x: int| 0 <= x < i ==> (#[trigger] all@[x])@ == defined_after(*f, bs@[x]),
            decreases bs.len() - i,
        {
            let is = &bs[i].instructions;
            let mut known: Vec<Register> = if bs[i].id == f.entry_block { copy_registers(&f.parameters) } else { Vec::new() };
            let ghost start = known@;
            let mut j: usize = 0;
            while j < is.len()
                invariant
                    j <= is.len(),
                    known@ == start + insts_dests(is@.take(j as int)),
                decreases is.len() - j,
            {
                let d = get_destination_registers(&is[j]);
                let mut k: usize = 0;
                let ghost before = known@;
                while k < d.len()
                    invariant
                        k <= d.len(),
                        known@ == before + d@.take(k as int),
                    decreases d.len() - k,
                {
                    known.push(d[k]);
                    k = k + 1;
                    assert(known@ =~= before + d@.take(k as int));
                }
                proof {
                    assert(d@.take(k as int) =~= d@);
                    assert(is@.take(j + 1).drop_last() =~= is@.take(j as int));
                    assert(known@ =~= start + insts_dests(is@.take(j + 1)));
                }
                j = j + 1;
            }
            assert(is@.take(j as int) =~= is@);
            all.push(known);
            i = i + 1;
        }
        self.defined = all;
        proof {
            assert forall|x: int| 0 <= x < bs@.len() implies #[trigger] self.defined_view()[x] == defined_after(*self.function, self.function.blocks@[x]) by {
                assert(self.defined_view()[x] == self.defined@[x]@);
            }
        }
        Ok(())
    }

    /// Computes the dominator table.
    fn compute_dominators(&mut self)
        requires
            old(self).ids@ == distinct_ids(old(self).function.blocks@),
            old(self).predecessors@.len() == old(self).ids@.len(),
            forall|a: int| 0 <= a < old(self).ids@.len() ==> (#[trigger] old(self).predecessors@[a])@.len()
                == preds(old(self).function.blocks@, old(self).ids@[a]).len(),
            forall|a: int, q: int| 0 <= a < old(self).ids@.len() && 0 <= q < preds(old(self).function.blocks@, old(self).ids@[a]).len() ==>
                (#[trigger] old(self).predecessors@[a]@[q]) == pos_of(old(self).ids@, preds(old(self).function.blocks@, old(self).ids@[a])[q])
                && old(self).predecessors@[a]@[q] < old(self).ids@.len(),
        ensures
            final(self).function == old(self).function,
            final(self).ids == old(self).ids,
            final(self).predecessors == old(self).predecessors,
            is_dominators(final(self).function.blocks@, final(self).function.entry_block, table_view(final(self).dominators@)),
    {
        let d = compute_dominator_table(&self.function.blocks, self.function.entry_block, &self.ids, &self.predecessors);
        self.dominators = d;
    }

    /// Runs the checks in order: single assignment, reachability, dominance,
    /// phi nodes, phi arity. The first failure is returned as an SSA
    /// conversion error with its message.
    pub fn validate(&mut self) -> (r: Result<(), ForthError>)
        ensures
            final(self).subject() == old(self).subject(),
            forall|d: Seq<Seq<bool>>| #[trigger] is_dominators(old(self).subject().blocks@, old(self).subject().entry_block, d) ==>
                match validation_outcome(old(self).subject(), d) {
                    Some(m) => r matches Err(ForthError::SSAConversionError { message }) && message@ == m,
                    None => r is Ok,
                },
            reassigned(old(self).subject().blocks@) is None
                && first_unreachable(old(self).subject().blocks@, old(self).subject().entry_block, 0) is None
                ==> exists|d: Seq<Seq<bool>>| #[trigger] is_dominators(old(self).subject().blocks@, old(self).subject().entry_block, d),
    {
        self.build_cfg();
        let f = self.function;
        match check_single_assignment(f) {
            Ok(()) => {},
            Err(e) => return Err(e),
        }
        let _ = self.check_use_before_def();
        match check_block_connectivity(f) {
            Ok(()) => {},
            Err(e) => return Err(e),
        }
        self.compute_dominators();
        let ghost dv = table_view(self.dominators@);
        proof {
            assert forall|d: Seq<Seq<bool>>| #[trigger] is_dominators(f.blocks@, f.entry_block, d) implies d == dv by {
                law_dominators_unique(f.blocks@, f.entry_block, d, dv);
            }
            assert(is_dominators(f.blocks@, f.entry_block, dv));
        }
        match check_dominance(f, &self.ids, &self.dominators) {
            Ok(()) => {},
            Err(e) => return Err(e),
        }
        match check_phi_nodes(f) {
            Ok(()) => {},
            Err(e) => return Err(e),
        }
        check_type_consistency(f)
    }
}

impl SSAFunction {
    /// Validates this function's SSA form (see `SSAValidator::validate`).
    pub fn validate(&self) -> (r: Result<(), ForthError>)
        ensures
            forall|d: Seq<Seq<bool>>| #[trigger] is_dominators(self.blocks@, self.entry_block, d) ==>
                match validation_outcome(*self, d) {
                    Some(m) => r matches Err(ForthError::SSAConversionError { message }) && message@ == m,
                    None => r is Ok,
                },
    {
        let mut validator = SSAValidator::new(self);
        validator.validate()
    }
}

} // verus!
