//! Data-flow analyses of instruction sequences: stack depth at each point,
//! reaching definitions, and the split into basic blocks.
use vstd::prelude::*;
use std::collections::HashSet;
use crate::optimizer::ir::{Instruction, instr_effect, lemma_effect_small};

verus! {

/// How control reaches a block.
#[derive(Debug, Clone, Copy, PartialEq, Eq, Structural)]
pub enum EdgeType {
    Unconditional,
    Conditional,
    Fallthrough,
}

/// The stack depth before the instruction at `k`, from an empty stack.
pub open spec fn depth_before(s: Seq<Instruction>, k: int) -> int
    decreases k,
{
    if k <= 0 {
        0
    } else {
        depth_before(s, k - 1) - instr_effect(s[k - 1]).consumed + instr_effect(s[k - 1]).produced
    }
}

/// The largest depth reached after some instruction of the first `k` (0 if none is larger).
pub open spec fn max_depth_upto(s: Seq<Instruction>, k: int) -> int
    decreases k,
{
    if k <= 0 {
        0
    } else {
        let m = max_depth_upto(s, k - 1);
        let d = depth_before(s, k);
        if d > m { d } else { m }
    }
}

proof fn lemma_depth_bounds(s: Seq<Instruction>, k: int)
    requires
        0 <= k <= s.len(),
    ensures
        -2 * k <= depth_before(s, k) <= 3 * k,
        0 <= max_depth_upto(s, k) <= 3 * k,
    decreases k,
{
    if k > 0 {
        lemma_depth_bounds(s, k - 1);
        lemma_effect_small(s[k - 1]);
    }
}

/// The stack depth at each program point of a sequence.
#[derive(Debug, Clone)]
pub struct StackDepthAnalysis {
    /// Depth before each instruction.
    pub depths: Vec<i32>,
    /// Largest depth reached.
    pub max_depth: i32,
}

impl StackDepthAnalysis {
    /// Tracks the depth through a sequence from an empty stack.
    pub fn analyze(instructions: &[Instruction]) -> (r: Self)
        requires
            instructions@.len() <= 0x2000_0000,
        ensures
            r.depths@.len() == instructions@.len(),
            forall|k: int| 0 <= k < instructions@.len() ==> r.depths@[k] == depth_before(instructions@, k),
            r.max_depth == max_depth_upto(instructions@, instructions@.len() as int),
    {
        let mut depths: Vec<i32> = Vec::new();
        let mut current_depth: i32 = 0;
        let mut max_depth: i32 = 0;
        let mut i: usize = 0;
        while i < instructions.len()
            invariant
                i <= instructions@.len() <= 0x2000_0000,
                depths@.len() == i,
                forall|k: int| 0 <= k < i ==> depths@[k] == depth_before(instructions@, k),
                current_depth == depth_before(instructions@, i as int),
                max_depth == max_depth_upto(instructions@, i as int),
            decreases instructions@.len() - i,
        {
            proof {
                lemma_depth_bounds(instructions@, i as int);
                lemma_depth_bounds(instructions@, i + 1);
                lemma_effect_small(instructions@[i as int]);
            }
            depths.push(current_depth);
            let effect = instructions[i].stack_effect();
            current_depth = current_depth - effect.consumed as i32;
            current_depth = current_depth + effect.produced as i32;
            if current_depth > max_depth {
                max_depth = current_depth;
            }
            i = i + 1;
        }
        StackDepthAnalysis { depths, max_depth }
    }

    /// The depth before the instruction at `index`, if there is one.
    pub fn get_depth(&self, index: usize) -> (r: Option<i32>)
        ensures
            r == (if index < self.depths@.len() { Some(self.depths@[index as int]) } else { None }),
    {
        if index < self.depths.len() {
            Some(self.depths[index])
        } else {
            None
        }
    }
}

/// The definitions (instructions that produce a value) among the first `k + 1`
/// instructions: those that reach the instruction at `k` in a straight-line sequence.
pub open spec fn reaching_at(s: Seq<Instruction>, k: int) -> Set<usize> {
    Set::new(|j: usize| j <= k && j < s.len() && instr_effect(s[j as int]).produced > 0)
}

/// Reaching definitions of a straight-line sequence.
#[derive(Debug, Clone)]
pub struct ReachingDefinitions {
    /// The definitions that reach each instruction.
    pub reaching: Vec<HashSet<usize>>,
}

impl ReachingDefinitions {
    /// Computes, for each instruction, the earlier-or-same instructions that produce a value.
    pub fn analyze(instructions: &[Instruction]) -> (r: Self)
        ensures
            r.reaching@.len() == instructions@.len(),
            forall|k: int| 0 <= k < instructions@.len() ==> (#[trigger] r.reaching@[k])@ == reaching_at(instructions@, k),
    {
        broadcast use vstd::std_specs::hash::group_hash_axioms;
        let mut reaching: Vec<HashSet<usize>> = Vec::new();
        let mut i: usize = 0;
        while i < instructions.len()
            invariant
                i <= instructions@.len(),
                reaching@.len() == i,
                forall|k: int| 0 <= k < i ==> (#[trigger] reaching@[k])@ == reaching_at(instructions@, k),
            decreases instructions@.len() - i,
        {
            let mut set: HashSet<usize> = HashSet::new();
            let mut j: usize = 0;
            while j <= i
                invariant
                    i < instructions@.len(),
                    j <= i + 1,
                    set@ == Set::new(|x: usize| x < j && instr_effect(instructions@[x as int]).produced > 0),
                decreases i + 1 - j,
            {
                if instructions[j].stack_effect().produced > 0 {
                    set.insert(j);
                }
                assert(set@ =~= Set::new(|x: usize| x < j + 1 && instr_effect(instructions@[x as int]).produced > 0));
                j = j + 1;
            }
            assert(set@ =~= reaching_at(instructions@, i as int));
            reaching.push(set);
            i = i + 1;
        }
        ReachingDefinitions { reaching }
    }

    /// The definitions reaching the instruction at `index`, if there is one.
    pub fn get_reaching(&self, index: usize) -> (r: Option<&HashSet<usize>>)
        ensures
            r == (if index < self.reaching@.len() { Some(&self.reaching@[index as int]) } else { None }),
    {
        if index < self.reaching.len() {
            Some(&self.reaching[index])
        } else {
            None
        }
    }
}

/// A block ends at a branch, a return or a label.
pub open spec fn ends_block(i: Instruction) -> bool {
    i is Branch || i is BranchIf || i is BranchIfNot || i is Return || i is Label
}

/// The index of the last instruction of the block that starts at `i`: the
/// first instruction from `i` on that ends a block, or the last instruction.
pub open spec fn block_end(s: Seq<Instruction>, i: int) -> int
    decreases s.len() - i,
{
    if i >= s.len() - 1 || ends_block(s[i]) { i } else { block_end(s, i + 1) }
}

/// The basic blocks of `s` from position `start` on: each with its first
/// position and its instructions.
pub open spec fn blocks_from(s: Seq<Instruction>, start: int) -> Seq<(int, Seq<Instruction>)>
    decreases s.len() - start,
{
    if start < 0 || start >= s.len() {
        Seq::empty()
    } else {
        proof { lemma_block_end_range(s, start); }
        let e = block_end(s, start);
        seq![(start, s.subrange(start, e + 1))] + blocks_from(s, e + 1)
    }
}

pub proof fn lemma_block_end_range(s: Seq<Instruction>, i: int)
    requires
        0 <= i < s.len(),
    ensures
        i <= block_end(s, i) < s.len(),
        forall|k: int| i <= k < block_end(s, i) ==> !ends_block(#[trigger] s[k]),
    decreases s.len() - i,
{
    if !(i >= s.len() - 1 || ends_block(s[i])) {
        lemma_block_end_range(s, i + 1);
    }
}

/// A basic block: its instructions and where it starts in the sequence.
#[derive(Debug, Clone)]
pub struct BasicBlock {
    pub instructions: Vec<Instruction>,
    pub start_index: usize,
}

/// The blocks as positions and instruction sequences.
pub open spec fn blocks_view(bs: Seq<BasicBlock>) -> Seq<(int, Seq<Instruction>)> {
    bs.map_values(|b: BasicBlock| (b.start_index as int, b.instructions@))
}

/// The control-flow graph of a sequence: its basic blocks (the nodes, in
/// order), the entry block and the exit blocks. Edges are not computed.
pub struct CFG {
    pub blocks: Vec<BasicBlock>,
    pub entry: usize,
    pub exits: Vec<usize>,
}

impl CFG {
    /// Splits a sequence into basic blocks: a block ends after a branch, a
    /// return or a label, or at the end. An empty sequence gives one empty
    /// block. The entry is the first block; no exits are recorded.
    pub fn build(instructions: &[Instruction]) -> (r: CFG)
        ensures
            instructions@.len() > 0 ==> blocks_view(r.blocks@) == blocks_from(instructions@, 0),
            instructions@.len() == 0 ==> r.blocks@.len() == 1 && r.blocks@[0].instructions@.len() == 0
                && r.blocks@[0].start_index == 0,
            r.entry == 0,
            r.exits@.len() == 0,
    {
        let s = instructions;
        let n = s.len();
        let mut blocks: Vec<BasicBlock> = Vec::new();
        let mut current: Vec<Instruction> = Vec::new();
        let mut block_start: usize = 0;
        let mut i: usize = 0;
        while i < n
            invariant
                n == s@.len(),
                block_start <= i <= n,
                current@ == s@.subrange(block_start as int, i as int),
                forall|k: int| block_start <= k < i ==> !ends_block(#[trigger] s@[k]),
                i < n ==> block_end(s@, block_start as int) == block_end(s@, i as int),
                (i == n && n > 0) ==> block_start == n,
                blocks_view(blocks@) + blocks_from(s@, block_start as int) == blocks_from(s@, 0),
            decreases n - i,
        {
            let inst = &s[i];
            current.push(inst.duplicate());
            let ends = matches!(inst, Instruction::Branch(_) | Instruction::BranchIf(_) | Instruction::BranchIfNot(_)
                | Instruction::Return | Instruction::Label(_));
            if ends || i == n - 1 {
                proof {
                    lemma_block_end_range(s@, block_start as int);
                    assert(block_end(s@, i as int) == i);
                    assert(current@ =~= s@.subrange(block_start as int, i + 1));
                    assert(blocks_from(s@, block_start as int) == seq![(block_start as int, current@)] + blocks_from(s@, i + 1));
                }
                let ghost bv = blocks_view(blocks@);
                blocks.push(BasicBlock { instructions: current, start_index: block_start });
                proof {
                    assert(blocks_view(blocks@) =~= bv.push((block_start as int, s@.subrange(block_start as int, i + 1))));
                    assert(blocks_view(blocks@) + blocks_from(s@, i + 1) =~= bv + blocks_from(s@, block_start as int));
                }
                current = Vec::new();
                block_start = i + 1;
                proof {
                    assert(current@ =~= s@.subrange(block_start as int, block_start as int));
                }
            } else {
                proof {
                    assert(current@ =~= s@.subrange(block_start as int, i + 1));
                }
            }
            i = i + 1;
        }
        proof {
            if n > 0 {
                assert(block_start == n);
                assert(blocks_from(s@, n as int) =~= Seq::empty());
                assert(blocks_view(blocks@) + Seq::<(int, Seq<Instruction>)>::empty() =~= blocks_view(blocks@));
            }
        }
        if blocks.len() == 0 {
            blocks.push(BasicBlock { instructions: Vec::new(), start_index: 0 });
        }
        CFG { blocks, entry: 0, exits: Vec::new() }
    }

    /// The block at `index`, if there is one.
    pub fn get_block(&self, index: usize) -> (r: Option<&BasicBlock>)
        ensures
            r == (if index < self.blocks@.len() { Some(&self.blocks@[index as int]) } else { None }),
    {
        if index < self.blocks.len() {
            Some(&self.blocks[index])
        } else {
            None
        }
    }
}

} // verus!
