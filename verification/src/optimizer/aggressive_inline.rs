//! Inlining directives for words, and the call graph that aggressive inlining
//! works on: which word calls which, how often, and in what order to visit them.
use vstd::prelude::*;
use crate::optimizer::ir::{ForthIR, Instruction, WordDef};
use crate::optimizer::whole_program::{CallEdge, callees_first, postorder, reach_plus, reach_iter, callees, only};
use crate::text::str_eq;

verus! {

/// How a word is to be treated by the inliner.
#[derive(Debug, Clone, Copy, PartialEq, Eq, Structural)]
pub enum InlineDirective {
    /// Inline regardless of cost.
    AlwaysInline,
    /// Never inline.
    NeverInline,
    /// Let the optimizer decide.
    Auto,
}

/// A word of the call graph: its name and its number of instructions.
pub struct CallGraphNode {
    pub name: String,
    pub instruction_count: usize,
}

/// A call relation: the caller, the callee (as node positions) and how many
/// times the caller calls the callee.
pub struct CallGraphEdge {
    pub caller: usize,
    pub callee: usize,
    pub call_count: usize,
}

/// The call graph of the words of a program (node `j` is word `j`).
pub struct CallGraph {
    pub nodes: Vec<CallGraphNode>,
    pub edges: Vec<CallGraphEdge>,
}

/// Number of calls of the word `name` in `s`.
pub open spec fn calls_to(s: Seq<Instruction>, name: Seq<char>) -> nat
    decreases s.len(),
{
    if s.len() == 0 {
        0
    } else {
        calls_to(s.drop_last(), name) + if s.last() matches Instruction::Call(n) && n@ == name { 1nat } else { 0nat }
    }
}

proof fn lemma_calls_to_len(s: Seq<Instruction>, name: Seq<char>)
    ensures
        calls_to(s, name) <= s.len(),
    decreases s.len(),
{
    if s.len() > 0 {
        lemma_calls_to_len(s.drop_last(), name);
    }
}

/// The edges from word `i` to the first `j` words of `ws`: one for each of
/// them that word `i` calls, with the number of calls.
pub open spec fn callee_edges(ws: Seq<WordDef>, i: int, j: int) -> Seq<(int, int, nat)>
    decreases j,
{
    if j <= 0 {
        Seq::empty()
    } else {
        let c = calls_to(ws[i].instructions@, ws[j - 1].name@);
        callee_edges(ws, i, j - 1) + if c > 0 { seq![(i, j - 1, c)] } else { Seq::empty() }
    }
}

/// The edges from the first `i` words of `ws`, caller by caller.
pub open spec fn word_edges(ws: Seq<WordDef>, i: int) -> Seq<(int, int, nat)>
    decreases i,
{
    if i <= 0 { Seq::empty() } else { word_edges(ws, i - 1) + callee_edges(ws, i - 1, ws.len() as int) }
}

/// The edges as triples.
pub open spec fn edges_view(es: Seq<CallGraphEdge>) -> Seq<(int, int, nat)> {
    es.map_values(|e: CallGraphEdge| (e.caller as int, e.callee as int, e.call_count as nat))
}

/// The edges as plain call edges (for visiting orders).
pub open spec fn plain_edges(es: Seq<CallGraphEdge>) -> Seq<(usize, usize, CallEdge)> {
    es.map_values(|e: CallGraphEdge| (e.caller, e.callee, CallEdge::Direct))
}

/// The first node named `n` among the first `k` nodes.
pub open spec fn first_named(nodes: Seq<CallGraphNode>, n: Seq<char>, k: int) -> Option<int>
    decreases k,
{
    if k <= 0 {
        None
    } else {
        match first_named(nodes, n, k - 1) {
            Some(j) => Some(j),
            None => if nodes[k - 1].name@ == n { Some(k - 1) } else { None },
        }
    }
}

/// The names of the callees of node `i` among the first `k` edges, in edge order.
pub open spec fn callee_names(g: CallGraph, i: int, k: int) -> Seq<Seq<char>>
    decreases k,
{
    if k <= 0 {
        Seq::empty()
    } else {
        let e = g.edges@[k - 1];
        callee_names(g, i, k - 1) + if e.caller == i && e.callee < g.nodes@.len() {
            seq![g.nodes@[e.callee as int].name@]
        } else {
            Seq::empty()
        }
    }
}

/// The call count of the first edge from `i` to `j` among the first `k` edges, if any.
pub open spec fn edge_count(g: CallGraph, i: int, j: int, k: int) -> Option<nat>
    decreases k,
{
    if k <= 0 {
        None
    } else {
        match edge_count(g, i, j, k - 1) {
            Some(c) => Some(c),
            None => {
                let e = g.edges@[k - 1];
                if e.caller == i && e.callee == j { Some(e.call_count as nat) } else { None }
            },
        }
    }
}

/// The number of calls of `name` in `s`.
fn count_calls_to(s: &Vec<Instruction>, name: &String) -> (r: usize)
    ensures
        r == calls_to(s@, name@),
{
    let mut c: usize = 0;
    let mut k: usize = 0;
    while k < s.len()
        invariant
            k <= s@.len(),
            c == calls_to(s@.take(k as int), name@),
        decreases s@.len() - k,
    {
        proof {
            assert(s@.take(k + 1).drop_last() =~= s@.take(k as int));
            lemma_calls_to_len(s@.take(k as int), name@);
        }
        if let Instruction::Call(n) = &s[k] {
            if str_eq(n.as_str(), name.as_str()) {
                c = c + 1;
            }
        }
        k = k + 1;
    }
    assert(s@.take(k as int) =~= s@);
    c
}

impl CallGraph {
    /// Builds the call graph: a node per word, in order, with its instruction
    /// count; an edge from each word to each word it calls, with the number of
    /// calls, callers in order and each caller's callees in word order.
    pub fn build(ir: &ForthIR) -> (g: CallGraph)
        ensures
            g.nodes@.len() == ir.words@.len(),
            forall|j: int| 0 <= j < ir.words@.len() ==> (#[trigger] g.nodes@[j]).name@ == ir.words@[j].name@
                && g.nodes@[j].instruction_count == ir.words@[j].instructions@.len(),
            edges_view(g.edges@) == word_edges(ir.words@, ir.words@.len() as int),
            forall|k: int| 0 <= k < g.edges@.len() ==> (#[trigger] g.edges@[k]).caller < g.nodes@.len()
                && g.edges@[k].callee < g.nodes@.len(),
    {
        let ws = &ir.words;
        let n = ws.len();
        let mut nodes: Vec<CallGraphNode> = Vec::new();
        let mut i: usize = 0;
        while i < n
            invariant
                i <= n,
                n == ws@.len(),
                nodes@.len() == i,
                forall|j: int| 0 <= j < i ==> (#[trigger] nodes@[j]).name@ == ws@[j].name@
                    && nodes@[j].instruction_count == ws@[j].instructions@.len(),
            decreases n - i,
        {
            nodes.push(CallGraphNode { name: ws[i].name.clone(), instruction_count: ws[i].instructions.len() });
            i = i + 1;
        }
        let mut edges: Vec<CallGraphEdge> = Vec::new();
        let mut a: usize = 0;
        while a < n
            invariant
                a <= n,
                n == ws@.len(),
                edges_view(edges@) == word_edges(ws@, a as int),
                forall|k: int| 0 <= k < edges@.len() ==> (#[trigger] edges@[k]).caller < n && edges@[k].callee < n,
            decreases n - a,
        {
            let ghost e0 = edges_view(edges@);
            let mut b: usize = 0;
            while b < n
                invariant
                    a < n,
                    b <= n,
                    n == ws@.len(),
                    edges_view(edges@) == e0 + callee_edges(ws@, a as int, b as int),
                    forall|k: int| 0 <= k < edges@.len() ==> (#[trigger] edges@[k]).caller < n && edges@[k].callee < n,
                decreases n - b,
            {
                let c = count_calls_to(&ws[a].instructions, &ws[b].name);
                let ghost before = edges_view(edges@);
                if c > 0 {
                    edges.push(CallGraphEdge { caller: a, callee: b, call_count: c });
                    assert(edges_view(edges@) =~= before.push((a as int, b as int, c as nat)));
                } else {
                    assert(edges_view(edges@) =~= before);
                }
                b = b + 1;
                assert(e0 + callee_edges(ws@, a as int, b as int) =~= before
                    + (if c > 0 { seq![(a as int, (b - 1) as int, c as nat)] } else { Seq::<(int, int, nat)>::empty() }));
            }
            a = a + 1;
        }
        CallGraph { nodes, edges }
    }

    /// The node named `n`, if any (the first one).
    fn lookup(&self, n: &str) -> (r: Option<usize>)
        ensures
            match r {
                Some(i) => first_named(self.nodes@, n@, self.nodes@.len() as int) == Some(i as int),
                None => first_named(self.nodes@, n@, self.nodes@.len() as int) is None,
            },
    {
        let mut k: usize = 0;
        while k < self.nodes.len()
            invariant
                k <= self.nodes@.len(),
                first_named(self.nodes@, n@, k as int) is None,
            decreases self.nodes@.len() - k,
        {
            if str_eq(self.nodes[k].name.as_str(), n) {
                proof { lemma_first_named_stable(self.nodes@, n@, k as int + 1, self.nodes@.len() as int); }
                return Some(k);
            }
            k = k + 1;
        }
        None
    }

    /// The names of the words that `word_name` calls, in edge order (none for
    /// a name that is not in the graph).
    pub fn get_callees(&self, word_name: &str) -> (r: Vec<String>)
        ensures
            match first_named(self.nodes@, word_name@, self.nodes@.len() as int) {
                Some(i) => r@.map_values(|s: String| s@) == callee_names(*self, i, self.edges@.len() as int),
                None => r@.len() == 0,
            },
    {
        match self.lookup(word_name) {
            None => Vec::new(),
            Some(i) => {
                let mut r: Vec<String> = Vec::new();
                let mut k: usize = 0;
                while k < self.edges.len()
                    invariant
                        k <= self.edges@.len(),
                        r@.map_values(|s: String| s@) == callee_names(*self, i as int, k as int),
                    decreases self.edges@.len() - k,
                {
                    let ghost before = r@.map_values(|s: String| s@);
                    let e = &self.edges[k];
                    if e.caller == i && e.callee < self.nodes.len() {
                        r.push(self.nodes[e.callee].name.clone());
                        assert(r@.map_values(|s: String| s@) =~= before.push(self.nodes@[e.callee as int].name@));
                    }
                    k = k + 1;
                    assert(callee_names(*self, i as int, k as int) =~= before + if e.caller == i && e.callee < self.nodes@.len() {
                        seq![self.nodes@[e.callee as int].name@]
                    } else {
                        Seq::<Seq<char>>::empty()
                    });
                }
                r
            },
        }
    }

    /// How many times `caller` calls `callee` (0 when either is not in the
    /// graph or there is no such call).
    pub fn get_call_count(&self, caller: &str, callee: &str) -> (r: usize)
        ensures
            match (first_named(self.nodes@, caller@, self.nodes@.len() as int), first_named(self.nodes@, callee@, self.nodes@.len() as int)) {
                (Some(i), Some(j)) => match edge_count(*self, i, j, self.edges@.len() as int) {
                    Some(c) => r == c,
                    None => r == 0,
                },
                _ => r == 0,
            },
    {
        let li = self.lookup(caller);
        let lj = self.lookup(callee);
        match (li, lj) {
            (Some(i), Some(j)) => {
                let mut k: usize = 0;
                while k < self.edges.len()
                    invariant
                        k <= self.edges@.len(),
                        edge_count(*self, i as int, j as int, k as int) is None,
                        first_named(self.nodes@, caller@, self.nodes@.len() as int) == Some(i as int),
                        first_named(self.nodes@, callee@, self.nodes@.len() as int) == Some(j as int),
                    decreases self.edges@.len() - k,
                {
                    if self.edges[k].caller == i && self.edges[k].callee == j {
                        proof {
                            assert(edge_count(*self, i as int, j as int, k as int + 1) == Some(self.edges@[k as int].call_count as nat));
                            lemma_edge_count_stable(*self, i as int, j as int, k as int + 1, self.edges@.len() as int);
                        }
                        return self.edges[k].call_count;
                    }
                    k = k + 1;
                }
                0
            },
            _ => 0,
        }
    }

    /// The words bottom-up: a depth-first visit from each word, in node
    /// order, lists each word after the words it calls; only a call that
    /// closes a cycle (the callee reaches the caller back) can point to a word
    /// listed later.
    pub fn topological_sort(&self) -> (r: Vec<String>)
        ensures
            exists|ord: Seq<usize>| #![trigger ord.len()] {
                &&& ord.len() == r@.len()
                &&& forall|i: int| 0 <= i < ord.len() ==> (#[trigger] ord[i]) < self.nodes@.len()
                    && r@[i]@ == self.nodes@[ord[i] as int].name@
                &&& forall|i: int, j: int| 0 <= i < j < ord.len() ==> #[trigger] ord[i] != #[trigger] ord[j]
                &&& forall|m: usize| m < self.nodes@.len() ==> #[trigger] ord.contains(m)
                &&& callees_first(plain_edges(self.edges@), ord, self.nodes@.len() as int)
            },
    {
        let mut plain: Vec<(usize, usize, CallEdge)> = Vec::new();
        let mut k: usize = 0;
        while k < self.edges.len()
            invariant
                k <= self.edges@.len(),
                plain@ == plain_edges(self.edges@).take(k as int),
            decreases self.edges@.len() - k,
        {
            plain.push((self.edges[k].caller, self.edges[k].callee, CallEdge::Direct));
            assert(plain@ =~= plain_edges(self.edges@).take(k + 1));
            k = k + 1;
        }
        assert(plain@ =~= plain_edges(self.edges@));
        let n = self.nodes.len();
        let order = postorder(&plain, n, 0);
        let mut r: Vec<String> = Vec::new();
        let mut i: usize = 0;
        while i < order.len()
            invariant
                i <= order@.len(),
                forall|x: int| 0 <= x < order@.len() ==> (#[trigger] order@[x]) < n,
                n == self.nodes@.len(),
                r@.len() == i,
                forall|x: int| 0 <= x < r@.len() ==> (#[trigger] r@[x])@ == self.nodes@[order@[x] as int].name@,
            decreases order@.len() - i,
        {
            r.push(self.nodes[order[i]].name.clone());
            i = i + 1;
        }
        let ghost ord = order@;
        assert(ord.len() == r@.len());
        r
    }
}

/// The words that word `v` reaches by one or more calls (following the
/// calls as many times as there are words).
pub open spec fn reach_row(g: CallGraph, v: int) -> Seq<bool> {
    reach_iter(plain_edges(g.edges@), callees(plain_edges(g.edges@), only(g.nodes@.len() as int, v)), g.nodes@.len() as nat)
}

/// Words `v` and `u` reach each other.
pub open spec fn mutual(g: CallGraph, v: int, u: int) -> bool {
    reach_row(g, v)[u] && reach_row(g, u)[v]
}

/// Word `v` reaches itself: it is on a cycle.
pub open spec fn cyclic(g: CallGraph, v: int) -> bool {
    reach_row(g, v)[v]
}

/// Word `v` is the first word of its cycle.
pub open spec fn cycle_leader(g: CallGraph, v: int) -> bool {
    cyclic(g, v) && forall|w: int| 0 <= w < v ==> !(cyclic(g, w) && #[trigger] mutual(g, w, v))
}

/// The names of the first `k` words that reach `v` and that `v` reaches, in order.
pub open spec fn cycle_names(g: CallGraph, v: int, k: int) -> Seq<Seq<char>>
    decreases k,
{
    if k <= 0 {
        Seq::empty()
    } else {
        cycle_names(g, v, k - 1) + if mutual(g, v, k - 1) { seq![g.nodes@[k - 1].name@] } else { Seq::empty() }
    }
}

/// The cycles led by the first `k` words, in order.
pub open spec fn cycles_upto(g: CallGraph, k: int) -> Seq<Seq<Seq<char>>>
    decreases k,
{
    if k <= 0 {
        Seq::empty()
    } else {
        cycles_upto(g, k - 1) + if cycle_leader(g, k - 1) {
            seq![cycle_names(g, k - 1, g.nodes@.len() as int)]
        } else {
            Seq::empty()
        }
    }
}

/// The names of a list of strings.
pub open spec fn names_of(v: Seq<String>) -> Seq<Seq<char>> {
    v.map_values(|s: String| s@)
}

impl CallGraph {
    /// The cycles of the graph: for each word that reaches itself and is the
    /// first word of its cycle, the names of the words it reaches and that
    /// reach it, in word order.
    pub fn find_cycles(&self) -> (r: Vec<Vec<String>>)
        ensures
            r@.map_values(|c: Vec<String>| names_of(c@)) == cycles_upto(*self, self.nodes@.len() as int),
    {
        let n = self.nodes.len();
        let mut plain: Vec<(usize, usize, CallEdge)> = Vec::new();
        let mut k: usize = 0;
        while k < self.edges.len()
            invariant
                k <= self.edges@.len(),
                plain@ == plain_edges(self.edges@).take(k as int),
            decreases self.edges@.len() - k,
        {
            plain.push((self.edges[k].caller, self.edges[k].callee, CallEdge::Direct));
            assert(plain@ =~= plain_edges(self.edges@).take(k + 1));
            k = k + 1;
        }
        assert(plain@ =~= plain_edges(self.edges@));
        let mut rows: Vec<Vec<bool>> = Vec::new();
        let mut v: usize = 0;
        while v < n
            invariant
                v <= n,
                n == self.nodes@.len(),
                plain@ == plain_edges(self.edges@),
                rows@.len() == v,
                forall|x: int| 0 <= x < v ==> (#[trigger] rows@[x])@ == reach_row(*self, x) && rows@[x]@.len() == n,
            decreases n - v,
        {
            rows.push(reach_plus(&plain, n, v));
            v = v + 1;
        }
        let mut r: Vec<Vec<String>> = Vec::new();
        let mut v: usize = 0;
        while v < n
            invariant
                v <= n,
                n == self.nodes@.len(),
                rows@.len() == n,
                forall|x: int| 0 <= x < n ==> (#[trigger] rows@[x])@ == reach_row(*self, x) && rows@[x]@.len() == n,
                r@.map_values(|c: Vec<String>| names_of(c@)) == cycles_upto(*self, v as int),
            decreases n - v,
        {
            let ghost before = r@.map_values(|c: Vec<String>| names_of(c@));
            let mut lead = rows[v][v];
            let mut w: usize = 0;
            while w < v
                invariant
                    w <= v < n,
                    n == self.nodes@.len(),
                    rows@.len() == n,
                    forall|x: int| 0 <= x < n ==> (#[trigger] rows@[x])@ == reach_row(*self, x) && rows@[x]@.len() == n,
                    lead == (cyclic(*self, v as int) && forall|y: int| 0 <= y < w ==> !(cyclic(*self, y) && #[trigger] mutual(*self, y, v as int))),
                decreases v - w,
            {
                let ghost lead0 = lead;
                let hit = rows[w][w] && rows[w][v] && rows[v][w];
                if hit {
                    lead = false;
                }
                proof {
                    assert(hit == (cyclic(*self, w as int) && mutual(*self, w as int, v as int)));
                    if !hit && lead0 {
                        assert forall|y: int| 0 <= y < w + 1 implies !(cyclic(*self, y) && #[trigger] mutual(*self, y, v as int)) by {
                            if y < w {
                                assert(!(cyclic(*self, y) && mutual(*self, y, v as int)));
                            }
                        }
                    }
                    if !hit && !lead0 && cyclic(*self, v as int) {
                        let y0 = choose|y: int| 0 <= y < w && (cyclic(*self, y) && #[trigger] mutual(*self, y, v as int));
                        assert(0 <= y0 < w + 1 && cyclic(*self, y0) && mutual(*self, y0, v as int));
                    }
                }
                w = w + 1;
            }
            if lead {
                let mut c: Vec<String> = Vec::new();
                let mut u: usize = 0;
                while u < n
                    invariant
                        u <= n,
                        v < n,
                        n == self.nodes@.len(),
                        rows@.len() == n,
                        forall|x: int| 0 <= x < n ==> (#[trigger] rows@[x])@ == reach_row(*self, x) && rows@[x]@.len() == n,
                        names_of(c@) == cycle_names(*self, v as int, u as int),
                    decreases n - u,
                {
                    let ghost cb = names_of(c@);
                    if rows[v][u] && rows[u][v] {
                        c.push(self.nodes[u].name.clone());
                        assert(names_of(c@) =~= cb.push(self.nodes@[u as int].name@));
                    }
                    u = u + 1;
                }
                r.push(c);
                assert(r@.map_values(|c: Vec<String>| names_of(c@)) =~= before.push(cycle_names(*self, v as int, n as int)));
            } else {
                assert(r@.map_values(|c: Vec<String>| names_of(c@)) =~= before);
            }
            v = v + 1;
        }
        r
    }
}

proof fn lemma_first_named_stable(nodes: Seq<CallGraphNode>, n: Seq<char>, k: int, m: int)
    requires
        0 < k <= m,
        first_named(nodes, n, k) == Some(k - 1),
    ensures
        first_named(nodes, n, m) == Some(k - 1),
    decreases m - k,
{
    if m > k {
        lemma_first_named_stable(nodes, n, k, m - 1);
    }
}

proof fn lemma_edge_count_stable(g: CallGraph, i: int, j: int, k: int, m: int)
    requires
        0 < k <= m,
        edge_count(g, i, j, k) is Some,
    ensures
        edge_count(g, i, j, m) == edge_count(g, i, j, k),
    decreases m - k,
{
    if m > k {
        lemma_edge_count_stable(g, i, j, k, m - 1);
    }
}

} // verus!
