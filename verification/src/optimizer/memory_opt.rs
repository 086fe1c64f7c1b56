//! Memory access optimization: classification of memory accesses, points-to
//! sets for alias analysis, and the optimizer's configuration.
use vstd::prelude::*;
use crate::optimizer::ir::{Instruction, ForthIR, WordDef, effect_fits, seq_effect, rebuild_word};
use crate::optimizer::error::OptimizerError;
use crate::text::{push_str, usize_text, decimal_text, contains_seq, contains_str};

verus! {

/// Memory access type.
#[derive(Debug, Clone, Copy, PartialEq, Eq, Hash, Structural)]
pub enum MemoryAccessType {
    /// Data stack access (no alias by stack discipline).
    Stack,
    /// Return stack access (no alias: a separate stack).
    ReturnStack,
    /// Heap access that may alias.
    Heap,
    /// Thread-local storage.
    ThreadLocal,
    /// Unknown or conservative classification.
    Unknown,
}

/// Result of alias analysis between two accesses.
#[derive(Debug, Clone, Copy, PartialEq, Eq, Structural)]
pub enum AliasResult {
    NoAlias,
    MayAlias,
    MustAlias,
}

/// Memory access pattern inside a loop.
#[derive(Debug, Clone, Copy, PartialEq, Eq, Structural)]
pub enum AccessPattern {
    Sequential { stride: i64 },
    Random,
    Strided { stride: i64 },
    Unknown,
}

/// A loop found in an instruction sequence.
#[derive(Debug, Clone)]
pub struct LoopInfo {
    /// Index of the first instruction.
    pub start: usize,
    /// Index of the backward branch.
    pub end: usize,
    /// Access pattern in the loop.
    pub pattern: AccessPattern,
    /// Base address, if known.
    pub base_addr: Option<String>,
    /// Trip count estimate.
    pub trip_count: Option<usize>,
    /// Ordinal of the loop among those found.
    pub hotness: usize,
}

/// Locations a memory access may touch, by kind.
pub struct PointsToSet {
    stack_locs: Vec<String>,
    heap_locs: Vec<String>,
    rstack_locs: Vec<String>,
}

/// The names held by a list of locations.
pub open spec fn loc_names(v: Seq<String>) -> Set<Seq<char>> {
    Set::new(|n: Seq<char>| exists|i: int| 0 <= i < v.len() && v[i]@ == n)
}

/// Two lists of locations share a name.
pub open spec fn overlap(a: Seq<String>, b: Seq<String>) -> bool {
    exists|i: int, j: int| 0 <= i < a.len() && 0 <= j < b.len() && #[trigger] a[i]@ == #[trigger] b[j]@
}

impl PointsToSet {
    /// Data stack locations.
    pub closed spec fn stack_set(&self) -> Set<Seq<char>> { loc_names(self.stack_locs@) }
    /// Heap locations.
    pub closed spec fn heap_set(&self) -> Set<Seq<char>> { loc_names(self.heap_locs@) }
    /// Return stack locations.
    pub closed spec fn rstack_set(&self) -> Set<Seq<char>> { loc_names(self.rstack_locs@) }

    /// The empty points-to set.
    pub fn new() -> (r: Self)
        ensures
            r.stack_set() == Set::<Seq<char>>::empty(),
            r.heap_set() == Set::<Seq<char>>::empty(),
            r.rstack_set() == Set::<Seq<char>>::empty(),
    {
        let r = PointsToSet { stack_locs: Vec::new(), heap_locs: Vec::new(), rstack_locs: Vec::new() };
        assert(r.stack_set() =~= Set::<Seq<char>>::empty());
        assert(r.heap_set() =~= Set::<Seq<char>>::empty());
        assert(r.rstack_set() =~= Set::<Seq<char>>::empty());
        r
    }

    /// Adds a data stack location.
    pub fn add_stack(&mut self, loc: String)
        ensures
            final(self).stack_set() == old(self).stack_set().insert(loc@),
            final(self).heap_set() == old(self).heap_set(),
            final(self).rstack_set() == old(self).rstack_set(),
    {
        let ghost old_v = self.stack_locs@;
        self.stack_locs.push(loc);
        assert(loc_names(self.stack_locs@) =~= loc_names(old_v).insert(loc@)) by {
            assert forall|n: Seq<char>| loc_names(old_v).insert(loc@).contains(n) implies loc_names(self.stack_locs@).contains(n) by {
                if n == loc@ {
                    assert(self.stack_locs@[old_v.len() as int]@ == n);
                } else {
                    let i = choose|i: int| 0 <= i < old_v.len() && old_v[i]@ == n;
                    assert(self.stack_locs@[i]@ == n);
                }
            }
        }
    }

    /// Adds a heap location.
    pub fn add_heap(&mut self, loc: String)
        ensures
            final(self).heap_set() == old(self).heap_set().insert(loc@),
            final(self).stack_set() == old(self).stack_set(),
            final(self).rstack_set() == old(self).rstack_set(),
    {
        let ghost old_v = self.heap_locs@;
        self.heap_locs.push(loc);
        assert(loc_names(self.heap_locs@) =~= loc_names(old_v).insert(loc@)) by {
            assert forall|n: Seq<char>| loc_names(old_v).insert(loc@).contains(n) implies loc_names(self.heap_locs@).contains(n) by {
                if n == loc@ {
                    assert(self.heap_locs@[old_v.len() as int]@ == n);
                } else {
                    let i = choose|i: int| 0 <= i < old_v.len() && old_v[i]@ == n;
                    assert(self.heap_locs@[i]@ == n);
                }
            }
        }
    }

    /// Adds a return stack location.
    pub fn add_rstack(&mut self, loc: String)
        ensures
            final(self).rstack_set() == old(self).rstack_set().insert(loc@),
            final(self).stack_set() == old(self).stack_set(),
            final(self).heap_set() == old(self).heap_set(),
    {
        let ghost old_v = self.rstack_locs@;
        self.rstack_locs.push(loc);
        assert(loc_names(self.rstack_locs@) =~= loc_names(old_v).insert(loc@)) by {
            assert forall|n: Seq<char>| loc_names(old_v).insert(loc@).contains(n) implies loc_names(self.rstack_locs@).contains(n) by {
                if n == loc@ {
                    assert(self.rstack_locs@[old_v.len() as int]@ == n);
                } else {
                    let i = choose|i: int| 0 <= i < old_v.len() && old_v[i]@ == n;
                    assert(self.rstack_locs@[i]@ == n);
                }
            }
        }
    }

    /// Whether two points-to sets may alias: they share a location of some kind.
    pub fn may_alias(&self, other: &PointsToSet) -> (r: bool)
        ensures
            r == (!self.stack_set().disjoint(other.stack_set())
                || !self.heap_set().disjoint(other.heap_set())
                || !self.rstack_set().disjoint(other.rstack_set())),
    {
        let a = share_one(&self.stack_locs, &other.stack_locs);
        let b = share_one(&self.heap_locs, &other.heap_locs);
        let c = share_one(&self.rstack_locs, &other.rstack_locs);
        proof {
            lemma_overlap_disjoint(self.stack_locs@, other.stack_locs@);
            lemma_overlap_disjoint(self.heap_locs@, other.heap_locs@);
            lemma_overlap_disjoint(self.rstack_locs@, other.rstack_locs@);
        }
        a || b || c
    }
}

proof fn lemma_overlap_disjoint(a: Seq<String>, b: Seq<String>)
    ensures
        overlap(a, b) == !loc_names(a).disjoint(loc_names(b)),
{
    if overlap(a, b) {
        let (i, j) = choose|i: int, j: int| 0 <= i < a.len() && 0 <= j < b.len() && #[trigger] a[i]@ == #[trigger] b[j]@;
        assert(loc_names(a).contains(a[i]@));
        assert(loc_names(b).contains(a[i]@));
    }
    if !loc_names(a).disjoint(loc_names(b)) {
        let n = choose|n: Seq<char>| loc_names(a).contains(n) && loc_names(b).contains(n);
        let i = choose|i: int| 0 <= i < a.len() && a[i]@ == n;
        let j = choose|j: int| 0 <= j < b.len() && b[j]@ == n;
        assert(a[i]@ == b[j]@);
    }
}

/// Whether two lists of locations share a name.
fn share_one(a: &Vec<String>, b: &Vec<String>) -> (r: bool)
    ensures
        r == overlap(a@, b@),
{
    let mut i: usize = 0;
    while i < a.len()
        invariant
            i <= a.len(),
            forall|p: int, q: int| 0 <= p < i && 0 <= q < b@.len() ==> #[trigger] a@[p]@ != #[trigger] b@[q]@,
        decreases a.len() - i,
    {
        let mut j: usize = 0;
        while j < b.len()
            invariant
                i < a.len(),
                j <= b.len(),
                forall|p: int, q: int| 0 <= p < i && 0 <= q < b@.len() ==> #[trigger] a@[p]@ != #[trigger] b@[q]@,
                forall|q: int| 0 <= q < j ==> a@[i as int]@ != #[trigger] b@[q]@,
            decreases b.len() - j,
        {
            if a[i] == b[j] {
                return true;
            }
            j = j + 1;
        }
        i = i + 1;
    }
    false
}

/// Memory optimizer configuration.
pub struct MemoryOptimizer {
    pub enable_alias_analysis: bool,
    pub enable_reordering: bool,
    pub enable_prefetch: bool,
    pub enable_cache_opt: bool,
    pub enable_stack_discipline: bool,
    /// Cache line size in bytes.
    pub cache_line_size: usize,
    /// Prefetch distance in elements.
    pub prefetch_distance: usize,
    /// Largest reordering window, in instructions.
    pub max_reorder_window: usize,
}

impl MemoryOptimizer {
    /// Every analysis enabled, 64-byte lines, prefetch distance 8, window 16.
    pub fn new() -> (r: Self)
        ensures
            r.enable_alias_analysis && r.enable_reordering && r.enable_prefetch && r.enable_cache_opt && r.enable_stack_discipline,
            r.cache_line_size == 64,
            r.prefetch_distance == 8,
            r.max_reorder_window == 16,
    {
        MemoryOptimizer {
            enable_alias_analysis: true,
            enable_reordering: true,
            enable_prefetch: true,
            enable_cache_opt: true,
            enable_stack_discipline: true,
            cache_line_size: 64,
            prefetch_distance: 8,
            max_reorder_window: 16,
        }
    }

    /// The given analyses enabled, with the default sizes.
    pub fn with_config(
        enable_alias_analysis: bool,
        enable_reordering: bool,
        enable_prefetch: bool,
        enable_cache_opt: bool,
        enable_stack_discipline: bool,
    ) -> (r: Self)
        ensures
            r.enable_alias_analysis == enable_alias_analysis,
            r.enable_reordering == enable_reordering,
            r.enable_prefetch == enable_prefetch,
            r.enable_cache_opt == enable_cache_opt,
            r.enable_stack_discipline == enable_stack_discipline,
            r.cache_line_size == 64,
            r.prefetch_distance == 8,
            r.max_reorder_window == 16,
    {
        MemoryOptimizer {
            enable_alias_analysis,
            enable_reordering,
            enable_prefetch,
            enable_cache_opt,
            enable_stack_discipline,
            cache_line_size: 64,
            prefetch_distance: 8,
            max_reorder_window: 16,
        }
    }

    /// Every analysis enabled, with more prefetching (16) and a larger window (32).
    pub fn aggressive() -> (r: Self)
        ensures
            r.enable_alias_analysis && r.enable_reordering && r.enable_prefetch && r.enable_cache_opt && r.enable_stack_discipline,
            r.cache_line_size == 64,
            r.prefetch_distance == 16,
            r.max_reorder_window == 32,
    {
        MemoryOptimizer {
            enable_alias_analysis: true,
            enable_reordering: true,
            enable_prefetch: true,
            enable_cache_opt: true,
            enable_stack_discipline: true,
            cache_line_size: 64,
            prefetch_distance: 16,
            max_reorder_window: 32,
        }
    }
}

/// An element of what a rewriting emits: an instruction kept, or a comment with this text.
pub enum Emit {
    Keep(Instruction),
    Note(Seq<char>),
}

/// The instruction is a comment with this text.
pub open spec fn is_note(i: Instruction, t: Seq<char>) -> bool {
    match i {
        Instruction::Comment(m) => m@ == t,
        _ => false,
    }
}

/// `r` is what `plan` emits.
pub open spec fn carries(r: Seq<Instruction>, plan: Seq<Emit>) -> bool {
    &&& r.len() == plan.len()
    &&& forall|k: int| 0 <= k < r.len() ==> match #[trigger] plan[k] {
        Emit::Keep(x) => r[k] == x,
        Emit::Note(t) => is_note(r[k], t),
    }
}

/// Every instruction kept.
pub open spec fn keep_all(s: Seq<Instruction>) -> Seq<Emit> {
    s.map_values(|x: Instruction| Emit::Keep(x))
}

/// Change of the data-stack depth that the discipline check counts for an instruction.
pub open spec fn discipline_delta(i: Instruction) -> int {
    match i {
        Instruction::Dup | Instruction::Over | Instruction::FromR => 1,
        Instruction::Drop | Instruction::ToR | Instruction::Load | Instruction::Load8 => -1,
        Instruction::Store | Instruction::Store8 => -2,
        _ => 0,
    }
}

/// The counted depth after the first `k` instructions.
pub open spec fn discipline_depth(s: Seq<Instruction>, k: int) -> int
    decreases k,
{
    if k <= 0 { 0 } else { discipline_depth(s, k - 1) + discipline_delta(s[k - 1]) }
}

/// The counted depth goes below zero after some instruction.
pub open spec fn discipline_broken(s: Seq<Instruction>) -> bool {
    exists|k: int| 1 <= k <= s.len() && #[trigger] discipline_depth(s, k) < 0
}

/// The warning put in front of a sequence that breaks stack discipline.
pub open spec fn discipline_warning() -> Seq<char> {
    "WARNING: Broken stack discipline detected"@
}

/// Stack-discipline enforcement: a warning comment in front where the discipline breaks.
pub open spec fn discipline_plan(s: Seq<Instruction>) -> Seq<Emit> {
    if discipline_broken(s) { seq![Emit::Note(discipline_warning())] + keep_all(s) } else { keep_all(s) }
}

/// A memory operation: a load, a store or a return-stack operation.
pub open spec fn is_mem_op(i: Instruction) -> bool {
    i is Load || i is Load8 || i is Store || i is Store8 || i is ToR || i is FromR || i is RFetch
}

pub open spec fn is_load(i: Instruction) -> bool {
    i is Load || i is Load8
}

pub open spec fn is_store(i: Instruction) -> bool {
    i is Store || i is Store8
}

/// First index of the window of `w` instructions before `i`.
pub open spec fn window_start(i: int, w: int) -> int {
    if w < i { i - w } else { 0 }
}

/// The name of the data-stack location made at `k`.
pub open spec fn stack_loc(k: int) -> Seq<char> {
    "stack_"@ + decimal_text(k)
}

/// The call names a heap allocation.
pub open spec fn allocates(name: Seq<char>) -> bool {
    contains_seq(name, "alloc"@) || contains_seq(name, "malloc"@)
}

/// Data-stack locations an access at `i` may touch: the `dup`s and `over`s among the ten before it.
pub open spec fn stack_names(s: Seq<Instruction>, i: int) -> Set<Seq<char>> {
    if is_load(s[i]) || is_store(s[i]) {
        Set::new(|n: Seq<char>| exists|k: int| window_start(i, 10) <= k < i && (s[k] is Dup || s[k] is Over) && n == #[trigger] stack_loc(k))
    } else {
        Set::empty()
    }
}

/// Heap locations: the allocating calls among the ten instructions before.
pub open spec fn heap_names(s: Seq<Instruction>, i: int) -> Set<Seq<char>> {
    if is_load(s[i]) || is_store(s[i]) {
        Set::new(|n: Seq<char>| exists|k: int| window_start(i, 10) <= k < i && #[trigger] call_name_is(s[k], n) && allocates(n))
    } else {
        Set::empty()
    }
}

/// Return-stack locations: `rstack` for return-stack operations; for loads and stores,
/// the non-allocating calls with `rstack` in their names among the ten before.
pub open spec fn rstack_names(s: Seq<Instruction>, i: int) -> Set<Seq<char>> {
    if is_load(s[i]) || is_store(s[i]) {
        Set::new(|n: Seq<char>| exists|k: int| window_start(i, 10) <= k < i && #[trigger] call_name_is(s[k], n)
            && !allocates(n) && contains_seq(n, "rstack"@))
    } else if s[i] is ToR || s[i] is FromR || s[i] is RFetch {
        set!["rstack"@]
    } else {
        Set::empty()
    }
}

/// The instruction calls the word named `n`.
pub open spec fn call_name_is(i: Instruction, n: Seq<char>) -> bool {
    match i {
        Instruction::Call(c) => c@ == n,
        _ => false,
    }
}

/// The accesses at `i` and `j` may touch the same location.
pub open spec fn may_alias_at(s: Seq<Instruction>, i: int, j: int) -> bool {
    !stack_names(s, i).disjoint(stack_names(s, j))
        || !heap_names(s, i).disjoint(heap_names(s, j))
        || !rstack_names(s, i).disjoint(rstack_names(s, j))
}

/// The memory operation at `j` does not pin the one at `i` in place: no load at `i`
/// reading what a store at `j` may have written, no store at `i` over what a load at
/// `j` may have read (where alias analysis is on; without it nothing pins).
pub open spec fn free_of(s: Seq<Instruction>, i: int, j: int, alias: bool) -> bool {
    !(alias && is_load(s[i]) && is_store(s[j]) && may_alias_at(s, i, j))
        && !(alias && is_store(s[i]) && is_load(s[j]) && may_alias_at(s, i, j))
}

/// The memory operation at `i` could move before some earlier memory operation.
pub open spec fn moveable(s: Seq<Instruction>, i: int, alias: bool) -> bool {
    is_mem_op(s[i]) && exists|j: int| 0 <= j < i && #[trigger] is_mem_op(s[j]) && free_of(s, i, j, alias)
}

/// `v` with the element at `i` moved to position `t <= i`.
pub open spec fn move_back(v: Seq<Instruction>, i: int, t: int) -> Seq<Instruction> {
    v.take(t) + seq![v[i]] + v.subrange(t, i) + v.skip(i + 1)
}

/// Load hoisting, from position `i` on: where the original instruction at `i` could
/// move and the instruction now at `i` is a load, it moves back `shift` places (to the front at most).
pub open spec fn hoist_from(v: Seq<Instruction>, i: int, s0: Seq<Instruction>, alias: bool, shift: nat) -> Seq<Instruction>
    decreases v.len() - i,
{
    if i < 0 || i >= v.len() {
        v
    } else if i < s0.len() && moveable(s0, i, alias) && is_load(v[i]) {
        let t = if shift < i { i - shift } else { 0 };
        proof {
            assert(move_back(v, i, t).len() == v.len());
        }
        hoist_from(move_back(v, i, t), i + 1, s0, alias, shift)
    } else {
        hoist_from(v, i + 1, s0, alias, shift)
    }
}

/// Load hoisting over a whole sequence.
pub open spec fn hoist_loads(s: Seq<Instruction>, alias: bool, shift: nat) -> Seq<Instruction> {
    hoist_from(s, 0, s, alias, shift)
}

/// The location name `stack_k`.
fn stack_loc_string(k: usize) -> (r: String)
    ensures
        r@ == stack_loc(k as int),
{
    let mut r = String::new();
    push_str(&mut r, "stack_");
    let d = usize_text(k);
    push_str(&mut r, d.as_str());
    r
}

/// The points-to set of the access at `i`.
pub fn points_to_at(instructions: &[Instruction], i: usize) -> (r: PointsToSet)
    requires
        i < instructions@.len(),
    ensures
        r.stack_set() == stack_names(instructions@, i as int),
        r.heap_set() == heap_names(instructions@, i as int),
        r.rstack_set() == rstack_names(instructions@, i as int),
{
    let ghost s = instructions@;
    let mut pts = PointsToSet::new();
    let inst = &instructions[i];
    if matches!(inst, Instruction::Load | Instruction::Load8 | Instruction::Store | Instruction::Store8) {
        let start: usize = if 10 < i { i - 10 } else { 0 };
        let mut k: usize = start;
        while k < i
            invariant
                start <= k <= i,
                i < s.len(),
                s == instructions@,
                start == window_start(i as int, 10),
                pts.stack_set() == Set::new(|n: Seq<char>| exists|q: int| start <= q < k && (s[q] is Dup || s[q] is Over) && n == #[trigger] stack_loc(q)),
                pts.heap_set() == Set::new(|n: Seq<char>| exists|q: int| start <= q < k && #[trigger] call_name_is(s[q], n) && allocates(n)),
                pts.rstack_set() == Set::new(|n: Seq<char>| exists|q: int| start <= q < k && #[trigger] call_name_is(s[q], n)
                    && !allocates(n) && contains_seq(n, "rstack"@)),
            decreases i - k,
        {
            let ghost st0 = pts.stack_set();
            let ghost hp0 = pts.heap_set();
            let ghost rs0 = pts.rstack_set();
            match &instructions[k] {
                Instruction::Dup | Instruction::Over => {
                    pts.add_stack(stack_loc_string(k));
                },
                Instruction::Call(name) => {
                    assert(call_name_is(s[k as int], name@));
                    if contains_str(name.as_str(), "alloc") || contains_str(name.as_str(), "malloc") {
                        pts.add_heap(name.clone());
                        assert(allocates(name@));
                        assert(exists|q: int| start <= q < k + 1 && #[trigger] call_name_is(s[q], name@) && allocates(name@));
                    } else if contains_str(name.as_str(), "rstack") {
                        pts.add_rstack(name.clone());
                        assert(exists|q: int| start <= q < k + 1 && #[trigger] call_name_is(s[q], name@)
                            && !allocates(name@) && contains_seq(name@, "rstack"@));
                    }
                },
                _ => {},
            }
            proof {
                assert(pts.stack_set() =~= Set::new(|n: Seq<char>| exists|q: int| start <= q < k + 1 && (s[q] is Dup || s[q] is Over) && n == #[trigger] stack_loc(q))) by {
                    assert forall|n: Seq<char>| (exists|q: int| start <= q < k + 1 && (s[q] is Dup || s[q] is Over) && n == #[trigger] stack_loc(q))
                        implies pts.stack_set().contains(n) by {
                        let q = choose|q: int| start <= q < k + 1 && (s[q] is Dup || s[q] is Over) && n == #[trigger] stack_loc(q);
                        if q < k {
                            assert(st0.contains(n));
                        }
                    }
                }
                assert(pts.heap_set() =~= Set::new(|n: Seq<char>| exists|q: int| start <= q < k + 1 && #[trigger] call_name_is(s[q], n) && allocates(n))) by {
                    assert forall|n: Seq<char>| (exists|q: int| start <= q < k + 1 && #[trigger] call_name_is(s[q], n) && allocates(n))
                        implies pts.heap_set().contains(n) by {
                        let q = choose|q: int| start <= q < k + 1 && #[trigger] call_name_is(s[q], n) && allocates(n);
                        if q < k {
                            assert(hp0.contains(n));
                        }
                    }
                }
                assert(pts.rstack_set() =~= Set::new(|n: Seq<char>| exists|q: int| start <= q < k + 1 && #[trigger] call_name_is(s[q], n)
                    && !allocates(n) && contains_seq(n, "rstack"@))) by {
                    assert forall|n: Seq<char>| (exists|q: int| start <= q < k + 1 && #[trigger] call_name_is(s[q], n)
                        && !allocates(n) && contains_seq(n, "rstack"@)) implies pts.rstack_set().contains(n) by {
                        let q = choose|q: int| start <= q < k + 1 && #[trigger] call_name_is(s[q], n)
                            && !allocates(n) && contains_seq(n, "rstack"@);
                        if q < k {
                            assert(rs0.contains(n));
                        }
                    }
                }
            }
            k = k + 1;
        }
    } else if matches!(inst, Instruction::ToR | Instruction::FromR | Instruction::RFetch) {
        pts.add_rstack("rstack".to_owned());
        assert(pts.rstack_set() =~= set!["rstack"@]);
    }
    proof {
        if !(is_load(s[i as int]) || is_store(s[i as int])) {
            assert(pts.stack_set() =~= stack_names(s, i as int));
            assert(pts.heap_set() =~= heap_names(s, i as int));
        }
    }
    pts
}

/// The instruction is a memory operation.
fn mem_op_kind(i: &Instruction) -> (r: bool)
    ensures
        r == is_mem_op(*i),
{
    matches!(i, Instruction::Load | Instruction::Load8 | Instruction::Store | Instruction::Store8
        | Instruction::ToR | Instruction::FromR | Instruction::RFetch)
}

impl MemoryOptimizer {
    /// Which memory operations could move before an earlier one: with alias analysis,
    /// a load may not pass a store it may alias, nor a store a load it may alias.
    pub fn moveable_ops(&self, instructions: &[Instruction]) -> (r: Vec<bool>)
        ensures
            r@.len() == instructions@.len(),
            forall|i: int| 0 <= i < instructions@.len() ==> r@[i] == moveable(instructions@, i, self.enable_alias_analysis),
    {
        let ghost s = instructions@;
        let alias = self.enable_alias_analysis;
        let mut pts: Vec<PointsToSet> = Vec::new();
        let mut k: usize = 0;
        while k < instructions.len()
            invariant
                k <= s.len(),
                s == instructions@,
                pts@.len() == k,
                forall|q: int| 0 <= q < k ==> {
                    &&& (#[trigger] pts@[q]).stack_set() == stack_names(s, q)
                    &&& pts@[q].heap_set() == heap_names(s, q)
                    &&& pts@[q].rstack_set() == rstack_names(s, q)
                },
            decreases s.len() - k,
        {
            pts.push(points_to_at(instructions, k));
            k = k + 1;
        }
        let mut r: Vec<bool> = Vec::new();
        let mut i: usize = 0;
        while i < instructions.len()
            invariant
                i <= s.len(),
                s == instructions@,
                alias == self.enable_alias_analysis,
                pts@.len() == s.len(),
                forall|q: int| 0 <= q < s.len() ==> {
                    &&& (#[trigger] pts@[q]).stack_set() == stack_names(s, q)
                    &&& pts@[q].heap_set() == heap_names(s, q)
                    &&& pts@[q].rstack_set() == rstack_names(s, q)
                },
                r@.len() == i,
                forall|q: int| 0 <= q < i ==> r@[q] == moveable(s, q, alias),
            decreases s.len() - i,
        {
            let mut found = false;
            if mem_op_kind(&instructions[i]) {
                let is_ld = matches!(&instructions[i], Instruction::Load | Instruction::Load8);
                let is_st = matches!(&instructions[i], Instruction::Store | Instruction::Store8);
                let mut j: usize = 0;
                while j < i && !found
                    invariant
                        j <= i < s.len(),
                        s == instructions@,
                        alias == self.enable_alias_analysis,
                        pts@.len() == s.len(),
                        forall|q: int| 0 <= q < s.len() ==> {
                            &&& (#[trigger] pts@[q]).stack_set() == stack_names(s, q)
                            &&& pts@[q].heap_set() == heap_names(s, q)
                            &&& pts@[q].rstack_set() == rstack_names(s, q)
                        },
                        is_ld == is_load(s[i as int]),
                        is_st == is_store(s[i as int]),
                        found ==> exists|q: int| 0 <= q < i && #[trigger] is_mem_op(s[q]) && free_of(s, i as int, q, alias),
                        !found ==> forall|q: int| 0 <= q < j ==> !(#[trigger] is_mem_op(s[q]) && free_of(s, i as int, q, alias)),
                    decreases i - j + (if found { 0int } else { 1int }),
                {
                    if mem_op_kind(&instructions[j]) {
                        let other_ld = matches!(&instructions[j], Instruction::Load | Instruction::Load8);
                        let other_st = matches!(&instructions[j], Instruction::Store | Instruction::Store8);
                        let pinned = if alias && ((is_ld && other_st) || (is_st && other_ld)) {
                            pts[i].may_alias(&pts[j])
                        } else {
                            false
                        };
                        if !pinned {
                            found = true;
                            assert(is_mem_op(s[j as int]) && free_of(s, i as int, j as int, alias));
                        }
                    }
                    if !found {
                        j = j + 1;
                    }
                }
            }
            r.push(found);
            i = i + 1;
        }
        r
    }

    /// Moves each load that could move back by half the reordering window (at most five places).
    pub fn reorder_memory_ops(&self, instructions: &[Instruction], moveable_flags: &Vec<bool>) -> (r: Vec<Instruction>)
        requires
            moveable_flags@.len() == instructions@.len(),
            forall|i: int| 0 <= i < instructions@.len() ==> moveable_flags@[i] == moveable(instructions@, i, self.enable_alias_analysis),
        ensures
            r@ == hoist_loads(instructions@, self.enable_alias_analysis, reorder_shift(self.max_reorder_window)),
    {
        let ghost s0 = instructions@;
        let ghost alias = self.enable_alias_analysis;
        let half = self.max_reorder_window / 2;
        let shift: usize = if half < 5 { half } else { 5 };
        let mut v = copy_instruction_slice(instructions);
        let n = v.len();
        let mut i: usize = 0;
        while i < n
            invariant
                i <= n,
                n == s0.len(),
                v@.len() == n,
                s0 == instructions@,
                moveable_flags@.len() == n,
                forall|q: int| 0 <= q < n ==> moveable_flags@[q] == moveable(s0, q, alias),
                shift == reorder_shift(self.max_reorder_window),
                hoist_from(v@, i as int, s0, alias, shift as nat) == hoist_loads(s0, alias, shift as nat),
            decreases n - i,
        {
            if moveable_flags[i] && matches!(&v[i], Instruction::Load | Instruction::Load8) {
                let target: usize = if shift < i { i - shift } else { 0 };
                let ghost before = v@;
                let load = v.remove(i);
                v.insert(target, load);
                assert(v@ =~= move_back(before, i as int, target as int));
            }
            i = i + 1;
        }
        v
    }
}

/// How far a load moves back: half the reordering window, five at most.
pub open spec fn reorder_shift(window: usize) -> nat {
    if window / 2 < 5 { (window / 2) as nat } else { 5 }
}

/// A copy of a slice of instructions.
fn copy_instruction_slice(s: &[Instruction]) -> (r: Vec<Instruction>)
    ensures
        r@ == s@,
{
    let mut r: Vec<Instruction> = Vec::new();
    let mut i: usize = 0;
    while i < s.len()
        invariant
            i <= s@.len(),
            r@ == s@.take(i as int),
        decreases s@.len() - i,
    {
        r.push(s[i].duplicate());
        assert(r@ =~= s@.take(i + 1));
        i = i + 1;
    }
    assert(s@.take(s@.len() as int) =~= s@);
    r
}

impl MemoryOptimizer {
    /// Puts a warning comment in front of a sequence whose counted stack depth goes below zero.
    pub fn enforce_stack_discipline(&self, instructions: &[Instruction]) -> (r: Result<Vec<Instruction>, OptimizerError>)
        requires
            instructions@.len() <= 0x1000_0000,
        ensures
            r matches Ok(v) && carries(v@, discipline_plan(instructions@)),
    {
        let ghost s = instructions@;
        let mut depth: i32 = 0;
        let mut broken = false;
        let mut i: usize = 0;
        while i < instructions.len()
            invariant
                i <= s.len() <= 0x1000_0000,
                s == instructions@,
                depth == discipline_depth(s, i as int),
                -2 * i <= depth <= i,
                broken == exists|k: int| 1 <= k <= i && #[trigger] discipline_depth(s, k) < 0,
            decreases s.len() - i,
        {
            match &instructions[i] {
                Instruction::Dup | Instruction::Over | Instruction::FromR => depth = depth + 1,
                Instruction::Drop | Instruction::ToR | Instruction::Load | Instruction::Load8 => depth = depth - 1,
                Instruction::Store | Instruction::Store8 => depth = depth - 2,
                _ => {},
            }
            assert(depth == discipline_depth(s, i + 1));
            if depth < 0 {
                broken = true;
            }
            i = i + 1;
        }
        let mut out: Vec<Instruction> = Vec::new();
        if broken {
            out.push(Instruction::Comment("WARNING: Broken stack discipline detected".to_owned()));
        }
        let ghost base = out@.len();
        let mut k: usize = 0;
        while k < instructions.len()
            invariant
                k <= s.len(),
                s == instructions@,
                base == (if broken { 1int } else { 0int }),
                out@.len() == base + k,
                broken ==> is_note(out@[0], discipline_warning()),
                forall|q: int| 0 <= q < k ==> out@[base + q] == s[q],
            decreases s.len() - k,
        {
            out.push(instructions[k].duplicate());
            k = k + 1;
        }
        proof {
            let plan = discipline_plan(s);
            assert forall|q: int| 0 <= q < out@.len() implies match #[trigger] plan[q] {
                Emit::Keep(x) => out@[q] == x,
                Emit::Note(t) => is_note(out@[q], t),
            } by {
                if broken {
                    if q > 0 {
                        assert(plan[q] == Emit::Keep(s[q - 1]));
                        assert(out@[1 + (q - 1)] == s[q - 1]);
                    }
                } else {
                    assert(plan[q] == Emit::Keep(s[q]));
                    assert(out@[0 + q] == s[q]);
                }
            }
        }
        Ok(out)
    }
}

/// The instruction at `k` branches back, unconditionally, to an earlier position.
pub open spec fn backward_branch(s: Seq<Instruction>, k: int) -> bool {
    0 <= k < s.len() && s[k] is Branch && s[k]->Branch_0 < k
}

/// Loads at positions `a..=b`.
pub open spec fn loads_between(s: Seq<Instruction>, a: int, b: int) -> nat
    decreases b - a + 1,
{
    if a > b || b < 0 || b >= s.len() { 0 } else { loads_between(s, a, b - 1) + if is_load(s[b]) { 1nat } else { 0nat } }
}

/// Stores at positions `a..=b`.
pub open spec fn stores_between(s: Seq<Instruction>, a: int, b: int) -> nat
    decreases b - a + 1,
{
    if a > b || b < 0 || b >= s.len() { 0 } else { stores_between(s, a, b - 1) + if is_store(s[b]) { 1nat } else { 0nat } }
}

/// The access pattern of the loop from `start` to the branch at `end`: sequential
/// where more than three in ten of its instructions are loads, random where loads
/// outnumber stores, else unknown.
pub open spec fn loop_pattern(s: Seq<Instruction>, start: int, end: int) -> AccessPattern {
    let loads = loads_between(s, start, end);
    let stores = stores_between(s, start, end);
    let span = if end - start > 1 { end - start } else { 1 };
    if 10 * loads > 3 * span {
        AccessPattern::Sequential { stride: 1 }
    } else if loads > stores && loads > 0 {
        AccessPattern::Random
    } else {
        AccessPattern::Unknown
    }
}

/// Positions of the backward branches among the first `n` instructions, in order.
pub open spec fn backward_positions(s: Seq<Instruction>, n: int) -> Seq<int>
    decreases n,
{
    if n <= 0 {
        seq![]
    } else if backward_branch(s, n - 1) {
        backward_positions(s, n - 1).push(n - 1)
    } else {
        backward_positions(s, n - 1)
    }
}

/// `l` is the `m`-th loop of `s`: it ends at the `m`-th backward branch.
pub open spec fn loop_found(s: Seq<Instruction>, l: LoopInfo, m: int) -> bool {
    let k = backward_positions(s, s.len() as int)[m];
    &&& l.end == k
    &&& l.start == s[k]->Branch_0
    &&& l.pattern == loop_pattern(s, l.start as int, k)
    &&& l.base_addr is None
    &&& l.trip_count is None
    &&& l.hotness == m + 1
}

/// The loop ending at the backward branch at `k` is sequential and runs over `i`.
pub open spec fn loop_covers(s: Seq<Instruction>, i: int, k: int) -> bool {
    s[k]->Branch_0 <= i < k && loop_pattern(s, s[k]->Branch_0 as int, k) is Sequential
}

/// Prefetch hints after the instruction at `i`: one per sequential loop around it,
/// among the first `m` loops.
pub open spec fn hint_count(s: Seq<Instruction>, i: int, m: int) -> nat
    decreases m,
{
    if m <= 0 {
        0
    } else {
        hint_count(s, i, m - 1) + if loop_covers(s, i, backward_positions(s, s.len() as int)[m - 1]) { 1nat } else { 0nat }
    }
}

/// Prefetch hints after the instruction at `i`.
pub open spec fn hints_at(s: Seq<Instruction>, i: int) -> nat {
    hint_count(s, i, backward_positions(s, s.len() as int).len() as int)
}

/// `n` notes with text `t`.
pub open spec fn notes(n: nat, t: Seq<char>) -> Seq<Emit> {
    Seq::new(n, |_k: int| Emit::Note(t))
}

/// The text of a prefetch hint.
pub open spec fn hint_text(distance: usize) -> Seq<char> {
    "PREFETCH_HINT:"@ + decimal_text(distance as int)
}

/// Prefetch insertion over the first `n` instructions: each kept, each load followed
/// by one hint per sequential loop around it.
pub open spec fn prefetch_plan(s: Seq<Instruction>, distance: usize, n: int) -> Seq<Emit>
    decreases n,
{
    if n <= 0 {
        seq![]
    } else {
        let i = n - 1;
        prefetch_plan(s, distance, i) + seq![Emit::Keep(s[i])]
            + if is_load(s[i]) { notes(hints_at(s, i), hint_text(distance)) } else { seq![] }
    }
}

/// Number of calls of the word `n`.
pub open spec fn call_count(s: Seq<Instruction>, n: Seq<char>, upto: int) -> nat
    decreases upto,
{
    if upto <= 0 { 0 } else { call_count(s, n, upto - 1) + if call_name_is(s[upto - 1], n) { 1nat } else { 0nat } }
}

/// Some word is called at least three times.
pub open spec fn has_hot_data(s: Seq<Instruction>) -> bool {
    exists|k: int| 0 <= k < s.len() && #[trigger] s[k] is Call && call_count(s, s[k]->Call_0@, s.len() as int) >= 3
}

/// A load or a store.
pub open spec fn is_access(i: Instruction) -> bool {
    is_load(i) || is_store(i)
}

/// Accesses in cache line `line` (of `per` instructions) among the first `upto`.
pub open spec fn line_count(s: Seq<Instruction>, per: int, line: int, upto: int) -> nat
    decreases upto,
{
    if upto <= 0 { 0 } else { line_count(s, per, line, upto - 1) + if is_access(s[upto - 1]) && (upto - 1) / per == line { 1nat } else { 0nat } }
}

/// Lines among `0..lines` with at least four accesses.
pub open spec fn utilized_lines(s: Seq<Instruction>, per: int, lines: int) -> nat
    decreases lines,
{
    if lines <= 0 { 0 } else { utilized_lines(s, per, lines - 1) + if line_count(s, per, lines - 1, s.len() as int) >= 4 { 1nat } else { 0nat } }
}

/// Number of cache lines (of `per` instructions) that `n` instructions span.
pub open spec fn line_total(n: int, per: int) -> int {
    if n <= 0 { 0 } else { (n - 1) / per + 1 }
}

/// The number of well-used cache lines of a sequence.
pub open spec fn well_utilized(s: Seq<Instruction>, line_size: usize) -> nat {
    let per = (line_size / 8) as int;
    utilized_lines(s, per, line_total(s.len() as int, per))
}

/// Cache optimization: an alignment hint in front where some word is called three
/// times or more, and a count of the well-used cache lines at the end if there is one.
pub open spec fn cache_plan(s: Seq<Instruction>, line_size: usize) -> Seq<Emit> {
    (if has_hot_data(s) { seq![Emit::Note("CACHE_ALIGN:"@ + decimal_text(line_size as int))] } else { seq![] })
        + keep_all(s)
        + (if well_utilized(s, line_size) > 0 {
            seq![Emit::Note("CACHE_LINES_UTILIZED:"@ + decimal_text(well_utilized(s, line_size) as int))]
        } else {
            seq![]
        })
}

/// The backward branches of a prefix are those of a longer one, up to its length.
proof fn lemma_backward_prefix(s: Seq<Instruction>, n: int)
    requires
        0 <= n <= s.len(),
    ensures
        forall|m: int| 0 <= m < backward_positions(s, n).len() ==> {
            &&& #[trigger] backward_positions(s, n)[m] < n
            &&& backward_branch(s, backward_positions(s, n)[m])
        },
    decreases n,
{
    if n > 0 {
        lemma_backward_prefix(s, n - 1);
        let p = backward_positions(s, n - 1);
        assert forall|m: int| 0 <= m < backward_positions(s, n).len() implies {
            &&& #[trigger] backward_positions(s, n)[m] < n
            &&& backward_branch(s, backward_positions(s, n)[m])
        } by {
            if m < p.len() {
                assert(backward_positions(s, n)[m] == p[m]);
            }
        }
    }
}

impl MemoryOptimizer {
    /// The access pattern of the loop from `start` to `end`.
    pub fn analyze_loop_pattern_advanced(&self, instructions: &[Instruction], start: usize, end: usize) -> (r: AccessPattern)
        requires
            start <= end < instructions@.len(),
        ensures
            r == loop_pattern(instructions@, start as int, end as int),
    {
        let ghost s = instructions@;
        let mut loads: usize = 0;
        let mut stores: usize = 0;
        let mut k: usize = start;
        while k <= end
            invariant
                start <= k <= end + 1,
                end < s.len(),
                s == instructions@,
                loads == loads_between(s, start as int, k - 1),
                stores == stores_between(s, start as int, k - 1),
                loads <= k - start,
                stores <= k - start,
            decreases end + 1 - k,
        {
            if matches!(&instructions[k], Instruction::Load | Instruction::Load8) {
                loads = loads + 1;
            }
            if matches!(&instructions[k], Instruction::Store | Instruction::Store8) {
                stores = stores + 1;
            }
            k = k + 1;
        }
        let span: u128 = if end - start > 1 { (end - start) as u128 } else { 1 };
        if 10 * (loads as u128) > 3 * span {
            AccessPattern::Sequential { stride: 1 }
        } else if loads > stores && loads > 0 {
            AccessPattern::Random
        } else {
            AccessPattern::Unknown
        }
    }

    /// The loops of a sequence: one per backward branch, in order.
    pub fn detect_loops_advanced(&self, instructions: &[Instruction]) -> (r: Vec<LoopInfo>)
        ensures
            r@.len() == backward_positions(instructions@, instructions@.len() as int).len(),
            forall|m: int| 0 <= m < r@.len() ==> loop_found(instructions@, #[trigger] r@[m], m),
    {
        let ghost s = instructions@;
        let mut loops: Vec<LoopInfo> = Vec::new();
        let mut count: usize = 0;
        let mut i: usize = 0;
        while i < instructions.len()
            invariant
                i <= s.len(),
                s == instructions@,
                loops@.len() == backward_positions(s, i as int).len(),
                count == loops@.len(),
                count <= i,
                forall|m: int| 0 <= m < loops@.len() ==> {
                    let k = backward_positions(s, i as int)[m];
                    &&& (#[trigger] loops@[m]).end == k
                    &&& loops@[m].start == s[k]->Branch_0
                    &&& loops@[m].pattern == loop_pattern(s, loops@[m].start as int, k)
                    &&& loops@[m].base_addr is None
                    &&& loops@[m].trip_count is None
                    &&& loops@[m].hotness == m + 1
                },
            decreases s.len() - i,
        {
            proof { lemma_backward_prefix(s, i as int); }
            if let Instruction::Branch(target) = &instructions[i] {
                if *target < i {
                    let pattern = self.analyze_loop_pattern_advanced(instructions, *target, i);
                    count = count + 1;
                    loops.push(LoopInfo { start: *target, end: i, pattern, base_addr: None, trip_count: None, hotness: count });
                }
            }
            i = i + 1;
        }
        proof {
            assert forall|m: int| 0 <= m < loops@.len() implies loop_found(s, #[trigger] loops@[m], m) by {}
        }
        loops
    }

    /// Follows each load inside a sequential loop with a prefetch hint, one per such loop.
    pub fn insert_prefetches_advanced(&self, instructions: &[Instruction]) -> (r: Result<Vec<Instruction>, OptimizerError>)
        ensures
            r matches Ok(v) && carries(v@, prefetch_plan(instructions@, self.prefetch_distance, instructions@.len() as int)),
    {
        let ghost s = instructions@;
        let ghost d = self.prefetch_distance;
        let loops = self.detect_loops_advanced(instructions);
        let mut out: Vec<Instruction> = Vec::new();
        let mut i: usize = 0;
        while i < instructions.len()
            invariant
                i <= s.len(),
                s == instructions@,
                d == self.prefetch_distance,
                loops@.len() == backward_positions(s, s.len() as int).len(),
                forall|m: int| 0 <= m < loops@.len() ==> loop_found(s, #[trigger] loops@[m], m),
                carries(out@, prefetch_plan(s, d, i as int)),
            decreases s.len() - i,
        {
            let ghost before = out@;
            out.push(instructions[i].duplicate());
            let is_ld = matches!(&instructions[i], Instruction::Load | Instruction::Load8);
            let ghost mid = out@;
            let mut m: usize = 0;
            while m < loops.len()
                invariant
                    i < s.len(),
                    m <= loops@.len(),
                    s == instructions@,
                    d == self.prefetch_distance,
                    is_ld == is_load(s[i as int]),
                    loops@.len() == backward_positions(s, s.len() as int).len(),
                    forall|q: int| 0 <= q < loops@.len() ==> loop_found(s, #[trigger] loops@[q], q),
                    out@.len() == mid.len() + (if is_ld { hint_count(s, i as int, m as int) } else { 0nat }),
                    out@.take(mid.len() as int) == mid,
                    forall|q: int| mid.len() <= q < out@.len() ==> is_note(#[trigger] out@[q], hint_text(d)),
                decreases loops@.len() - m,
            {
                let lp = &loops[m];
                proof {
                    assert(loop_found(s, loops@[m as int], m as int));
                }
                if lp.start <= i && i < lp.end && is_ld {
                    match lp.pattern {
                        AccessPattern::Sequential { stride } => {
                            if stride > 0 {
                                let mut text = String::new();
                                push_str(&mut text, "PREFETCH_HINT:");
                                let t = usize_text(self.prefetch_distance);
                                push_str(&mut text, t.as_str());
                                out.push(Instruction::Comment(text));
                            }
                        },
                        AccessPattern::Strided { stride } => {
                            proof { assert(false); }
                        },
                        _ => {},
                    }
                }
                proof {
                    assert(out@.take(mid.len() as int) =~= mid);
                }
                m = m + 1;
            }
            proof {
                let plan = prefetch_plan(s, d, i + 1);
                let tail = seq![Emit::Keep(s[i as int])] + if is_load(s[i as int]) { notes(hints_at(s, i as int), hint_text(d)) } else { seq![] };
                assert(plan == prefetch_plan(s, d, i as int) + tail);
                assert(mid == before.push(s[i as int]));
                assert forall|q: int| 0 <= q < out@.len() implies match #[trigger] plan[q] {
                    Emit::Keep(x) => out@[q] == x,
                    Emit::Note(t) => is_note(out@[q], t),
                } by {
                    if q < before.len() {
                        assert(out@[q] == mid[q]);
                        assert(mid[q] == before[q]);
                        assert(plan[q] == prefetch_plan(s, d, i as int)[q]);
                    } else if q == before.len() {
                        assert(out@[q] == mid[q]);
                    } else {
                        assert(plan[q] == tail[q - before.len()]);
                    }
                }
            }
            i = i + 1;
        }
        Ok(out)
    }
}

impl MemoryOptimizer {
    /// The words called at least three times, each once, in order of first call.
    pub fn identify_hot_data(&self, instructions: &[Instruction]) -> (r: Vec<String>)
        ensures
            r@.len() > 0 <==> has_hot_data(instructions@),
            forall|k: int| 0 <= k < r@.len() ==> call_count(instructions@, (#[trigger] r@[k])@, instructions@.len() as int) >= 3,
    {
        let ghost s = instructions@;
        let mut hot: Vec<String> = Vec::new();
        let ghost mut origin: Seq<int> = seq![];
        let mut i: usize = 0;
        while i < instructions.len()
            invariant
                i <= s.len(),
                s == instructions@,
                forall|k: int| 0 <= k < hot@.len() ==> call_count(s, (#[trigger] hot@[k])@, s.len() as int) >= 3,
                origin.len() == hot@.len(),
                forall|k: int| 0 <= k < hot@.len() ==> 0 <= #[trigger] origin[k] < s.len() && s[origin[k]] is Call && s[origin[k]]->Call_0@ == hot@[k]@,
                hot@.len() == 0 ==> forall|k: int| 0 <= k < i && #[trigger] s[k] is Call ==> call_count(s, s[k]->Call_0@, s.len() as int) < 3,
            decreases s.len() - i,
        {
            if let Instruction::Call(name) = &instructions[i] {
                let count = count_calls(instructions, name);
                if count >= 3 && !contains_string(&hot, name) {
                    hot.push(name.clone());
                    proof { origin = origin.push(i as int); }
                }
            }
            i = i + 1;
        }
        proof {
            if hot@.len() > 0 {
                let q = origin[0];
                assert(call_count(s, s[q]->Call_0@, s.len() as int) >= 3);
            }
        }
        hot
    }

    /// Adds the cache hints: alignment in front where data is hot, the number of
    /// well-used cache lines at the end where there is one.
    pub fn optimize_cache_usage(&self, instructions: &[Instruction]) -> (r: Result<Vec<Instruction>, OptimizerError>)
        requires
            self.cache_line_size >= 8,
        ensures
            r matches Ok(v) && carries(v@, cache_plan(instructions@, self.cache_line_size)),
    {
        let ghost s = instructions@;
        let mut out: Vec<Instruction> = Vec::new();
        let hot = self.identify_hot_data(instructions);
        if hot.len() > 0 {
            let mut text = String::new();
            push_str(&mut text, "CACHE_ALIGN:");
            let t = usize_text(self.cache_line_size);
            push_str(&mut text, t.as_str());
            out.push(Instruction::Comment(text));
        }
        let base = out.len();
        let mut k: usize = 0;
        while k < instructions.len()
            invariant
                k <= s.len(),
                s == instructions@,
                base <= 1,
                base == 1 <==> has_hot_data(s),
                base == 1 ==> is_note(out@[0], "CACHE_ALIGN:"@ + decimal_text(self.cache_line_size as int)),
                out@.len() == base + k,
                forall|q: int| 0 <= q < k ==> out@[base + q] == s[q],
            decreases s.len() - k,
        {
            out.push(instructions[k].duplicate());
            k = k + 1;
        }
        let per = self.cache_line_size / 8;
        let utilized = count_utilized_lines(instructions, per);
        if utilized > 0 {
            let mut text = String::new();
            push_str(&mut text, "CACHE_LINES_UTILIZED:");
            let t = usize_text(utilized);
            push_str(&mut text, t.as_str());
            out.push(Instruction::Comment(text));
        }
        proof {
            let plan = cache_plan(s, self.cache_line_size);
            let front = if has_hot_data(s) { seq![Emit::Note("CACHE_ALIGN:"@ + decimal_text(self.cache_line_size as int))] } else { Seq::<Emit>::empty() };
            assert(front.len() == base);
            assert forall|q: int| 0 <= q < out@.len() implies match #[trigger] plan[q] {
                Emit::Keep(x) => out@[q] == x,
                Emit::Note(t) => is_note(out@[q], t),
            } by {
                if q < base {
                } else if q < base + s.len() {
                    assert(plan[q] == keep_all(s)[q - base]);
                    assert(out@[base + (q - base)] == s[q - base]);
                }
            }
        }
        Ok(out)
    }
}

/// Number of calls of the word `name`.
fn count_calls(instructions: &[Instruction], name: &String) -> (r: usize)
    ensures
        r == call_count(instructions@, name@, instructions@.len() as int),
{
    let mut c: usize = 0;
    let mut i: usize = 0;
    while i < instructions.len()
        invariant
            i <= instructions@.len(),
            c == call_count(instructions@, name@, i as int),
            c <= i,
        decreases instructions@.len() - i,
    {
        if let Instruction::Call(n) = &instructions[i] {
            if *n == *name {
                c = c + 1;
            }
        }
        i = i + 1;
    }
    c
}

/// Whether a list of strings holds one with the characters of `name`.
fn contains_string(v: &Vec<String>, name: &String) -> (r: bool)
    ensures
        r == exists|k: int| 0 <= k < v@.len() && (#[trigger] v@[k])@ == name@,
{
    let mut i: usize = 0;
    while i < v.len()
        invariant
            i <= v@.len(),
            forall|k: int| 0 <= k < i ==> (#[trigger] v@[k])@ != name@,
        decreases v@.len() - i,
    {
        if v[i] == *name {
            return true;
        }
        i = i + 1;
    }
    false
}

/// Number of cache lines (of `per` instructions) with at least four loads and stores.
fn count_utilized_lines(instructions: &[Instruction], per: usize) -> (r: usize)
    requires
        per >= 1,
    ensures
        r == utilized_lines(instructions@, per as int, line_total(instructions@.len() as int, per as int)),
{
    let ghost s = instructions@;
    let lines = if instructions.len() == 0 { 0 } else { (instructions.len() - 1) / per + 1 };
    assert(lines <= instructions@.len()) by (nonlinear_arith)
        requires per >= 1, lines == (if instructions@.len() == 0 { 0int } else { (instructions@.len() - 1) / (per as int) + 1 });
    let mut counts: Vec<usize> = Vec::new();
    let mut l: usize = 0;
    while l < lines
        invariant
            l <= lines,
            counts@.len() == l,
            forall|q: int| 0 <= q < l ==> counts@[q] == 0,
        decreases lines - l,
    {
        counts.push(0);
        l = l + 1;
    }
    let mut i: usize = 0;
    while i < instructions.len()
        invariant
            i <= s.len(),
            s == instructions@,
            per >= 1,
            lines == line_total(s.len() as int, per as int),
            counts@.len() == lines,
            forall|q: int| 0 <= q < lines ==> counts@[q] == line_count(s, per as int, q, i as int),
            forall|q: int| 0 <= q < lines ==> counts@[q] <= i,
        decreases s.len() - i,
    {
        let line = i / per;
        assert(line < lines) by (nonlinear_arith)
            requires line == i / per, i < s.len(), lines == (s.len() - 1) / (per as int) + 1, per >= 1;
        if matches!(&instructions[i], Instruction::Load | Instruction::Load8 | Instruction::Store | Instruction::Store8) {
            let c = counts[line];
            counts.set(line, c + 1);
        }
        i = i + 1;
    }
    let mut utilized: usize = 0;
    let mut q: usize = 0;
    while q < lines
        invariant
            q <= lines,
            counts@.len() == lines,
            forall|x: int| 0 <= x < lines ==> counts@[x] == line_count(s, per as int, x, s.len() as int),
            utilized == utilized_lines(s, per as int, q as int),
            utilized <= q,
        decreases lines - q,
    {
        if counts[q] >= 4 {
            utilized = utilized + 1;
        }
        q = q + 1;
    }
    utilized
}

/// The memory optimizer's phases, as enabled, take `s` through `t1` (after the
/// stack-discipline check) and `t3` (after prefetching) to `r`.
pub open spec fn memory_outcome_via(m: MemoryOptimizer, s: Seq<Instruction>, t1: Seq<Instruction>, t3: Seq<Instruction>, r: Seq<Instruction>) -> bool {
    let t2 = if m.enable_reordering { hoist_loads(t1, m.enable_alias_analysis, reorder_shift(m.max_reorder_window)) } else { t1 };
    &&& if m.enable_stack_discipline { carries(t1, discipline_plan(s)) } else { t1 == s }
    &&& if m.enable_prefetch { carries(t3, prefetch_plan(t2, m.prefetch_distance, t2.len() as int)) } else { t3 == t2 }
    &&& if m.enable_cache_opt { carries(r, cache_plan(t3, m.cache_line_size)) } else { r == t3 }
}

/// `r` is what the memory optimizer makes of `s` (up to the text of the comments
/// it adds, which is fixed, held in new strings).
pub open spec fn memory_outcome(m: MemoryOptimizer, s: Seq<Instruction>, r: Seq<Instruction>) -> bool {
    exists|t1: Seq<Instruction>, t3: Seq<Instruction>| #[trigger] memory_outcome_via(m, s, t1, t3, r)
}

impl MemoryOptimizer {
    /// Runs the enabled phases on a sequence: stack-discipline check, load hoisting,
    /// prefetch hints, cache hints.
    pub fn optimize_sequence(&self, instructions: &[Instruction]) -> (r: Result<Vec<Instruction>, OptimizerError>)
        requires
            instructions@.len() <= 0x1000_0000,
            self.enable_cache_opt ==> self.cache_line_size >= 8,
        ensures
            r matches Ok(v) && memory_outcome(*self, instructions@, v@),
    {
        let t1 = if self.enable_stack_discipline {
            match self.enforce_stack_discipline(instructions) {
                Ok(v) => v,
                Err(e) => {
                    return Err(e);
                },
            }
        } else {
            copy_instruction_slice(instructions)
        };
        let t2 = if self.enable_reordering {
            let flags = self.moveable_ops(&t1);
            self.reorder_memory_ops(&t1, &flags)
        } else {
            copy_instruction_slice(&t1)
        };
        let t3 = if self.enable_prefetch {
            match self.insert_prefetches_advanced(&t2) {
                Ok(v) => v,
                Err(e) => {
                    return Err(e);
                },
            }
        } else {
            t2
        };
        let r = if self.enable_cache_opt {
            match self.optimize_cache_usage(&t3) {
                Ok(v) => v,
                Err(e) => {
                    return Err(e);
                },
            }
        } else {
            copy_instruction_slice(&t3)
        };
        assert(memory_outcome_via(*self, instructions@, t1@, t3@, r@));
        Ok(r)
    }

    /// Runs the memory optimizer on the top-level sequence and every word,
    /// recomputing each word's stack effect and cost.
    pub fn optimize(&self, ir: &ForthIR) -> (r: Result<ForthIR, OptimizerError>)
        requires
            ir.main@.len() <= 0x1000_0000,
            forall|i: int| 0 <= i < ir.words@.len() ==> (#[trigger] ir.words@[i]).instructions@.len() <= 0x1000_0000,
            self.enable_cache_opt ==> self.cache_line_size >= 8,
        ensures
            r matches Ok(out) ==> {
                &&& memory_outcome(*self, ir.main@, out.main@)
                &&& out.words@.len() == ir.words@.len()
                &&& forall|i: int| 0 <= i < ir.words@.len() ==> {
                    &&& (#[trigger] out.words@[i]).name == ir.words@[i].name
                    &&& memory_outcome(*self, ir.words@[i].instructions@, out.words@[i].instructions@)
                    &&& out.words@[i].is_inline == ir.words@[i].is_inline
                    &&& out.words@[i].stack_effect == seq_effect(out.words@[i].instructions@)
                    &&& out.words@[i].cost == out.words@[i].instructions@.len()
                }
            },
            r matches Err(e) ==> e is InvalidStackEffect && exists|i: int, t: Seq<Instruction>| 0 <= i < ir.words@.len()
                && #[trigger] memory_outcome(*self, ir.words@[i].instructions@, t) && !effect_fits(t),
            (forall|i: int, t: Seq<Instruction>| 0 <= i < ir.words@.len()
                && #[trigger] memory_outcome(*self, ir.words@[i].instructions@, t) ==> effect_fits(t)) ==> r is Ok,
    {
        let main = match self.optimize_sequence(&ir.main) {
            Ok(v) => v,
            Err(e) => {
                return Err(e);
            },
        };
        let mut words: Vec<WordDef> = Vec::new();
        let mut i: usize = 0;
        while i < ir.words.len()
            invariant
                i <= ir.words@.len(),
                self.enable_cache_opt ==> self.cache_line_size >= 8,
                forall|k: int| 0 <= k < ir.words@.len() ==> (#[trigger] ir.words@[k]).instructions@.len() <= 0x1000_0000,
                memory_outcome(*self, ir.main@, main@),
                words@.len() == i,
                forall|k: int| 0 <= k < i ==> {
                    &&& (#[trigger] words@[k]).name == ir.words@[k].name
                    &&& memory_outcome(*self, ir.words@[k].instructions@, words@[k].instructions@)
                    &&& words@[k].is_inline == ir.words@[k].is_inline
                    &&& words@[k].stack_effect == seq_effect(words@[k].instructions@)
                    &&& words@[k].cost == words@[k].instructions@.len()
                },
            decreases ir.words@.len() - i,
        {
            let instructions = match self.optimize_sequence(&ir.words[i].instructions) {
                Ok(v) => v,
                Err(e) => {
                    return Err(e);
                },
            };
            let ghost t = instructions@;
            match rebuild_word(&ir.words[i], instructions) {
                Ok(w) => {
                    words.push(w);
                },
                Err(e) => {
                    assert(memory_outcome(*self, ir.words@[i as int].instructions@, t) && !effect_fits(t));
                    return Err(e);
                },
            }
            i = i + 1;
        }
        Ok(ForthIR { words, main })
    }
}

impl Default for MemoryOptimizer {
    fn default() -> (r: Self)
        ensures
            r.enable_alias_analysis && r.enable_reordering && r.enable_prefetch && r.enable_cache_opt && r.enable_stack_discipline,
            r.cache_line_size == 64,
            r.prefetch_distance == 8,
            r.max_reorder_window == 16,
    {
        MemoryOptimizer::new()
    }
}

/// The classification of an access at `i` from the context before it, from
/// position `k` on: the first stack shuffle makes it a stack access, the first
/// return-stack transfer a return-stack access, the first allocating call a
/// heap access.
pub open spec fn classify_from(s: Seq<Instruction>, k: int, i: int) -> MemoryAccessType
    decreases i - k,
{
    if k >= i || k < 0 {
        MemoryAccessType::Unknown
    } else {
        match s[k] {
            Instruction::Dup | Instruction::Drop | Instruction::Swap | Instruction::Over => MemoryAccessType::Stack,
            Instruction::ToR | Instruction::FromR => MemoryAccessType::ReturnStack,
            Instruction::Call(name) => if contains_seq(name@, "alloc"@) {
                MemoryAccessType::Heap
            } else {
                classify_from(s, k + 1, i)
            },
            _ => classify_from(s, k + 1, i),
        }
    }
}

/// The classification of the access at `i`: return-stack operations access the
/// return stack; other accesses are classified from the eight instructions before.
pub open spec fn access_class(s: Seq<Instruction>, i: int) -> MemoryAccessType {
    if s[i] is ToR || s[i] is FromR || s[i] is RFetch {
        MemoryAccessType::ReturnStack
    } else {
        classify_from(s, window_start(i, 8), i)
    }
}

/// The positions of the memory operations among the first `n` instructions.
pub open spec fn mem_positions(s: Seq<Instruction>, n: int) -> Seq<int>
    decreases n,
{
    if n <= 0 {
        seq![]
    } else if is_mem_op(s[n - 1]) {
        mem_positions(s, n - 1).push(n - 1)
    } else {
        mem_positions(s, n - 1)
    }
}

/// The alias result of the accesses at `i` and `j`.
pub open spec fn alias_of(s: Seq<Instruction>, i: int, j: int) -> AliasResult {
    if may_alias_at(s, i, j) { AliasResult::MayAlias } else { AliasResult::NoAlias }
}

/// The earlier operations among `ps` that the load or store at `i` depends
/// on: for a load, the stores it may read from (`true_dep`); for a store, the
/// loads it may overwrite (otherwise).
pub open spec fn deps_of(s: Seq<Instruction>, i: int, ps: Seq<int>, true_dep: bool) -> Seq<usize>
    decreases ps.len(),
{
    if ps.len() == 0 {
        seq![]
    } else {
        let j = ps.last();
        let hit = if true_dep {
            is_load(s[i]) && is_store(s[j]) && may_alias_at(s, i, j)
        } else {
            is_store(s[i]) && is_load(s[j]) && may_alias_at(s, i, j)
        };
        deps_of(s, i, ps.drop_last(), true_dep) + if hit { seq![j as usize] } else { seq![] }
    }
}

/// `op` is what the memory operation at position `ps[q]` is found to be,
/// given the positions `ps` of the memory operations.
pub open spec fn op_matches(s: Seq<Instruction>, ps: Seq<int>, q: int, op: MemoryOp) -> bool {
    let i = ps[q];
    &&& op.index == i
    &&& op.instruction == s[i]
    &&& op.access_type == access_class(s, i)
    &&& op.aliases@ == Seq::new(q as nat, |p: int| (ps[p] as usize, alias_of(s, i, ps[p])))
    &&& op.true_deps@ == deps_of(s, i, ps.take(q), true)
    &&& op.anti_deps@ == deps_of(s, i, ps.take(q), false)
    &&& op.output_deps@.len() == 0
    &&& !op.barrier_before && !op.barrier_after
}

proof fn lemma_op_matches_push(s: Seq<Instruction>, ps: Seq<int>, q: int, op: MemoryOp, x: int)
    requires
        0 <= q < ps.len(),
        op_matches(s, ps, q, op),
    ensures
        op_matches(s, ps.push(x), q, op),
{
    let ps2 = ps.push(x);
    assert(ps2.take(q) =~= ps.take(q));
    assert(Seq::new(q as nat, |p: int| (ps2[p] as usize, alias_of(s, ps2[q], ps2[p])))
        =~= Seq::new(q as nat, |p: int| (ps[p] as usize, alias_of(s, ps[q], ps[p]))));
}

/// A memory operation with its classification, aliasing and dependencies.
#[derive(Debug)]
pub struct MemoryOp {
    /// Position of the instruction in the sequence.
    pub index: usize,
    pub instruction: Instruction,
    pub access_type: MemoryAccessType,
    /// Alias result with each earlier memory operation, by its position.
    pub aliases: Vec<(usize, AliasResult)>,
    /// Stores an operation may read from.
    pub true_deps: Vec<usize>,
    /// Loads an operation may overwrite.
    pub anti_deps: Vec<usize>,
    /// Stores an operation may overwrite.
    pub output_deps: Vec<usize>,
    pub barrier_before: bool,
    pub barrier_after: bool,
}

impl MemoryOp {
    /// An operation with no aliasing, dependencies or barriers recorded.
    pub fn new(index: usize, instruction: Instruction, access_type: MemoryAccessType) -> (r: Self)
        ensures
            r.index == index,
            r.instruction == instruction,
            r.access_type == access_type,
            r.aliases@.len() == 0,
            r.true_deps@.len() == 0,
            r.anti_deps@.len() == 0,
            r.output_deps@.len() == 0,
            !r.barrier_before && !r.barrier_after,
    {
        MemoryOp {
            index,
            instruction,
            access_type,
            aliases: Vec::new(),
            true_deps: Vec::new(),
            anti_deps: Vec::new(),
            output_deps: Vec::new(),
            barrier_before: false,
            barrier_after: false,
        }
    }

    /// Whether something keeps the operation in place: a true dependency or a barrier.
    pub fn has_critical_deps(&self) -> (r: bool)
        ensures
            r == (self.true_deps@.len() > 0 || self.barrier_before || self.barrier_after),
    {
        self.true_deps.len() > 0 || self.barrier_before || self.barrier_after
    }

    /// Records a true dependency, once.
    pub fn add_true_dep(&mut self, dep: usize)
        ensures
            final(self).true_deps@ == if old(self).true_deps@.contains(dep) { old(self).true_deps@ } else { old(self).true_deps@.push(dep) },
            final(self).index == old(self).index,
            final(self).instruction == old(self).instruction,
            final(self).access_type == old(self).access_type,
            final(self).aliases@ == old(self).aliases@,
            final(self).anti_deps@ == old(self).anti_deps@,
            final(self).output_deps@ == old(self).output_deps@,
            final(self).barrier_before == old(self).barrier_before,
            final(self).barrier_after == old(self).barrier_after,
    {
        if !holds_index(&self.true_deps, dep) {
            self.true_deps.push(dep);
        }
    }

    /// Records an anti-dependency, once.
    pub fn add_anti_dep(&mut self, dep: usize)
        ensures
            final(self).anti_deps@ == if old(self).anti_deps@.contains(dep) { old(self).anti_deps@ } else { old(self).anti_deps@.push(dep) },
            final(self).index == old(self).index,
            final(self).instruction == old(self).instruction,
            final(self).access_type == old(self).access_type,
            final(self).aliases@ == old(self).aliases@,
            final(self).true_deps@ == old(self).true_deps@,
            final(self).output_deps@ == old(self).output_deps@,
            final(self).barrier_before == old(self).barrier_before,
            final(self).barrier_after == old(self).barrier_after,
    {
        if !holds_index(&self.anti_deps, dep) {
            self.anti_deps.push(dep);
        }
    }
}

/// Whether a list of positions holds `x`.
fn holds_index(v: &Vec<usize>, x: usize) -> (r: bool)
    ensures
        r == v@.contains(x),
{
    let mut i: usize = 0;
    while i < v.len()
        invariant
            i <= v.len(),
            forall|k: int| 0 <= k < i ==> v@[k] != x,
        decreases v.len() - i,
    {
        if v[i] == x {
            return true;
        }
        i = i + 1;
    }
    false
}

/// The classification of the access at `index` (see `access_class`).
pub fn classify_memory_access_formal(instructions: &[Instruction], index: usize) -> (r: MemoryAccessType)
    requires
        index < instructions@.len(),
    ensures
        r == access_class(instructions@, index as int),
{
    match &instructions[index] {
        Instruction::ToR | Instruction::FromR | Instruction::RFetch => {
            return MemoryAccessType::ReturnStack;
        },
        _ => {},
    }
    let start: usize = if 8 < index { index - 8 } else { 0 };
    let mut k: usize = start;
    while k < index
        invariant
            start <= k <= index,
            index < instructions@.len(),
            start == window_start(index as int, 8),
            !(instructions@[index as int] is ToR || instructions@[index as int] is FromR || instructions@[index as int] is RFetch),
            classify_from(instructions@, start as int, index as int) == classify_from(instructions@, k as int, index as int),
        decreases index - k,
    {
        match &instructions[k] {
            Instruction::Dup | Instruction::Drop | Instruction::Swap | Instruction::Over => {
                return MemoryAccessType::Stack;
            },
            Instruction::ToR | Instruction::FromR => {
                return MemoryAccessType::ReturnStack;
            },
            Instruction::Call(name) => {
                if contains_str(name.as_str(), "alloc") {
                    return MemoryAccessType::Heap;
                }
            },
            _ => {},
        }
        k = k + 1;
    }
    MemoryAccessType::Unknown
}

/// Whether the instruction is a memory operation.
fn is_memory_instruction(i: &Instruction) -> (r: bool)
    ensures
        r == is_mem_op(*i),
{
    matches!(i, Instruction::Load | Instruction::Load8 | Instruction::Store | Instruction::Store8
        | Instruction::ToR | Instruction::FromR | Instruction::RFetch)
}

impl MemoryOptimizer {
    /// The memory operations of a sequence, in order, each with its
    /// classification, its alias result with every earlier memory operation,
    /// and its dependencies on them.
    pub fn build_memory_ops(&self, instructions: &[Instruction]) -> (r: Result<Vec<MemoryOp>, OptimizerError>)
        ensures
            r matches Ok(ops) && {
                let s = instructions@;
                let ps = mem_positions(s, s.len() as int);
                &&& ops@.len() == ps.len()
                &&& forall|q: int| 0 <= q < ps.len() ==> {
                    let i = ps[q];
                    &&& (#[trigger] ops@[q]).index == i
                    &&& ops@[q].instruction == s[i]
                    &&& ops@[q].access_type == access_class(s, i)
                    &&& ops@[q].aliases@ == Seq::new(q as nat, |p: int| (ps[p] as usize, alias_of(s, i, ps[p])))
                    &&& ops@[q].true_deps@ == deps_of(s, i, ps.take(q), true)
                    &&& ops@[q].anti_deps@ == deps_of(s, i, ps.take(q), false)
                    &&& ops@[q].output_deps@.len() == 0
                    &&& !ops@[q].barrier_before && !ops@[q].barrier_after
                }
            },
    {
        let ghost s = instructions@;
        let mut pts: Vec<PointsToSet> = Vec::new();
        let mut k: usize = 0;
        while k < instructions.len()
            invariant
                k <= s.len(),
                s == instructions@,
                pts@.len() == k,
                forall|q: int| 0 <= q < k ==> {
                    &&& (#[trigger] pts@[q]).stack_set() == stack_names(s, q)
                    &&& pts@[q].heap_set() == heap_names(s, q)
                    &&& pts@[q].rstack_set() == rstack_names(s, q)
                },
            decreases s.len() - k,
        {
            pts.push(points_to_at(instructions, k));
            k = k + 1;
        }
        let mut ops: Vec<MemoryOp> = Vec::new();
        let mut i: usize = 0;
        while i < instructions.len()
            invariant
                i <= s.len(),
                s == instructions@,
                pts@.len() == s.len(),
                forall|q: int| 0 <= q < s.len() ==> {
                    &&& (#[trigger] pts@[q]).stack_set() == stack_names(s, q)
                    &&& pts@[q].heap_set() == heap_names(s, q)
                    &&& pts@[q].rstack_set() == rstack_names(s, q)
                },
                ops@.len() == mem_positions(s, i as int).len(),
                forall|q: int| 0 <= q < mem_positions(s, i as int).len() ==> 0 <= #[trigger] mem_positions(s, i as int)[q] < i,
                forall|q: int| 0 <= q < ops@.len() ==> op_matches(s, mem_positions(s, i as int), q, #[trigger] ops@[q]),
            decreases s.len() - i,
        {
            if is_memory_instruction(&instructions[i]) {
                let ghost ps = mem_positions(s, i as int);
                let access_type = classify_memory_access_formal(instructions, i);
                let mut op = MemoryOp::new(i, instructions[i].duplicate(), access_type);
                let load = matches!(instructions[i], Instruction::Load | Instruction::Load8);
                let store = matches!(instructions[i], Instruction::Store | Instruction::Store8);
                let mut q: usize = 0;
                while q < ops.len()
                    invariant
                        q <= ops@.len(),
                        i < s.len(),
                        s == instructions@,
                        ps == mem_positions(s, i as int),
                        ops@.len() == ps.len(),
                        load == is_load(s[i as int]),
                        store == is_store(s[i as int]),
                        pts@.len() == s.len(),
                        forall|x: int| 0 <= x < s.len() ==> {
                            &&& (#[trigger] pts@[x]).stack_set() == stack_names(s, x)
                            &&& pts@[x].heap_set() == heap_names(s, x)
                            &&& pts@[x].rstack_set() == rstack_names(s, x)
                        },
                        forall|x: int| 0 <= x < ps.len() ==> 0 <= #[trigger] ps[x] < i,
                        forall|x: int| 0 <= x < ops@.len() ==> op_matches(s, ps, x, #[trigger] ops@[x]),
                        op.index == i,
                        op.instruction == s[i as int],
                        op.access_type == access_class(s, i as int),
                        op.aliases@ == Seq::new(q as nat, |p: int| (ps[p] as usize, alias_of(s, i as int, ps[p]))),
                        op.true_deps@ == deps_of(s, i as int, ps.take(q as int), true),
                        op.anti_deps@ == deps_of(s, i as int, ps.take(q as int), false),
                        op.output_deps@.len() == 0,
                        !op.barrier_before && !op.barrier_after,
                    decreases ops@.len() - q,
                {
                    let j = ops[q].index;
                    let may = pts[i].may_alias(&pts[j]);
                    let res = if may { AliasResult::MayAlias } else { AliasResult::NoAlias };
                    op.aliases.push((j, res));
                    let prev_load = matches!(ops[q].instruction, Instruction::Load | Instruction::Load8);
                    let prev_store = matches!(ops[q].instruction, Instruction::Store | Instruction::Store8);
                    proof {
                        lemma_mem_positions(s, i as int);
                        assert forall|x: int| 0 <= x < ps.take(q as int).len() implies ps.take(q as int)[x] != j
                            && 0 <= ps.take(q as int)[x] <= usize::MAX by {
                            assert(ps[x] < ps[q as int]);
                        }
                        assert(ps.take(q + 1).drop_last() =~= ps.take(q as int));
                        assert(ps.take(q + 1).last() == ps[q as int]);
                        assert(op.aliases@ =~= Seq::new((q + 1) as nat, |p: int| (ps[p] as usize, alias_of(s, i as int, ps[p]))));
                        assert(!(op.true_deps@.contains(j))) by {
                            lemma_deps_below(s, i as int, ps.take(q as int), true, j);
                        }
                        assert(!(op.anti_deps@.contains(j))) by {
                            lemma_deps_below(s, i as int, ps.take(q as int), false, j);
                        }
                    }
                    if load && prev_store && may {
                        op.add_true_dep(j);
                    }
                    if store && prev_load && may {
                        op.add_anti_dep(j);
                    }
                    q = q + 1;
                }
                ops.push(op);
                proof {
                    assert(mem_positions(s, i + 1) == ps.push(i as int));
                    assert(ps.take(ps.len() as int) =~= ps);
                    let ps2 = ps.push(i as int);
                    assert forall|q: int| 0 <= q < ops@.len() implies op_matches(s, ps2, q, #[trigger] ops@[q]) by {
                        if q < ps.len() {
                            lemma_op_matches_push(s, ps, q, ops@[q], i as int);
                        } else {
                            assert(ps2.take(q) =~= ps);
                            assert(Seq::new(q as nat, |p: int| (ps2[p] as usize, alias_of(s, ps2[q], ps2[p])))
                                =~= Seq::new(q as nat, |p: int| (ps[p] as usize, alias_of(s, i as int, ps[p]))));
                        }
                    }
                }
            } else {
                proof {
                    assert(mem_positions(s, i + 1) == mem_positions(s, i as int));
                }
            }
            i = i + 1;
        }
        Ok(ops)
    }
}

/// The positions of the memory operations increase, and lie below `n`.
proof fn lemma_mem_positions(s: Seq<Instruction>, n: int)
    ensures
        forall|a: int, b: int| 0 <= a < b < mem_positions(s, n).len() ==> #[trigger] mem_positions(s, n)[a] < #[trigger] mem_positions(s, n)[b],
        forall|a: int| 0 <= a < mem_positions(s, n).len() ==> 0 <= #[trigger] mem_positions(s, n)[a] < n,
    decreases n,
{
    if n > 0 {
        lemma_mem_positions(s, n - 1);
        let prev = mem_positions(s, n - 1);
        let cur = mem_positions(s, n);
        if is_mem_op(s[n - 1]) {
            assert(cur == prev.push(n - 1));
            assert forall|a: int, b: int| 0 <= a < b < cur.len() implies #[trigger] cur[a] < #[trigger] cur[b] by {
                if b < prev.len() {
                    assert(prev[a] < prev[b]);
                } else {
                    assert(prev[a] < n - 1);
                }
            }
            assert forall|a: int| 0 <= a < cur.len() implies 0 <= #[trigger] cur[a] < n by {
                if a < prev.len() {
                    assert(prev[a] < n - 1);
                }
            }
        }
    }
}

/// The dependencies found among the positions `ps` are among them: a position
/// beyond each of them is not one.
proof fn lemma_deps_below(s: Seq<Instruction>, i: int, ps: Seq<int>, true_dep: bool, j: usize)
    requires
        forall|x: int| 0 <= x < ps.len() ==> ps[x] != j && 0 <= ps[x] <= usize::MAX,
    ensures
        !deps_of(s, i, ps, true_dep).contains(j),
    decreases ps.len(),
{
    if ps.len() > 0 {
        lemma_deps_below(s, i, ps.drop_last(), true_dep, j);
        let d = deps_of(s, i, ps.drop_last(), true_dep);
        let full = deps_of(s, i, ps, true_dep);
        if full.contains(j) {
            let k = choose|k: int| 0 <= k < full.len() && full[k] == j;
            if k < d.len() {
                assert(d[k] == j);
            } else {
                assert(ps.last() as usize == j);
                assert(ps[ps.len() - 1] != j);
            }
        }
    }
}

} // verus!
