//! Type inference for stack code: each word's inputs and outputs get types,
//! type variables standing for the polymorphic ones, and unification relates
//! what a word expects with what the stack holds.
use vstd::prelude::*;
use crate::frontend::ast::{StackType, TypeVar, Word, Definition, Program, StackEffect, stack_type_text,
    joined_type_texts, copy_stack_types};
use crate::frontend::ssa::{word_size, words_size, lemma_words_size_prefix};
use crate::frontend::error::ForthError;
use crate::text::{str_eq, push_str, usize_text, decimal_text};

verus! {

/// Names bound to types, and the counter of fresh type variables.
#[derive(Debug)]
pub struct TypeEnv {
    bindings: Vec<(String, StackType)>,
    next_var_id: usize,
}

/// The first place where `name` is bound.
pub open spec fn name_pos(b: Seq<(String, StackType)>, name: Seq<char>, i: int) -> Option<int>
    decreases b.len() - i,
{
    if i >= b.len() || i < 0 {
        None
    } else if b[i].0@ == name {
        Some(i)
    } else {
        name_pos(b, name, i + 1)
    }
}

/// The variable with number `id`.
pub open spec fn var_type(id: int) -> StackType {
    StackType::Var(TypeVar { id: id as usize, name: None })
}

impl TypeEnv {
    /// The bindings, in the order they were made.
    pub closed spec fn bindings_view(&self) -> Seq<(String, StackType)> {
        self.bindings@
    }

    /// The number the next fresh variable gets.
    pub closed spec fn next_id(&self) -> usize {
        self.next_var_id
    }

    pub fn new() -> (r: Self)
        ensures
            r.bindings_view().len() == 0,
            r.next_id() == 0,
    {
        TypeEnv { bindings: Vec::new(), next_var_id: 0 }
    }

    /// A new type variable, numbered by the counter, which then grows.
    pub fn fresh_var(&mut self) -> (r: StackType)
        requires
            old(self).next_id() < usize::MAX,
        ensures
            r == var_type(old(self).next_id() as int),
            final(self).next_id() == old(self).next_id() + 1,
            final(self).bindings_view() == old(self).bindings_view(),
    {
        let v = StackType::Var(TypeVar { id: self.next_var_id, name: None });
        self.next_var_id = self.next_var_id + 1;
        v
    }

    /// Binds `name` to `ty`, replacing an earlier binding of the name.
    pub fn bind(&mut self, name: String, ty: StackType)
        ensures
            final(self).next_id() == old(self).next_id(),
            final(self).bindings_view() == match name_pos(old(self).bindings_view(), name@, 0) {
                Some(k) => old(self).bindings_view().update(k, (name, ty)),
                None => old(self).bindings_view().push((name, ty)),
            },
    {
        let mut k: usize = 0;
        while k < self.bindings.len()
            invariant
                k <= self.bindings.len(),
                self.bindings@ == old(self).bindings@,
                self.next_var_id == old(self).next_var_id,
                name_pos(self.bindings@, name@, 0) == name_pos(self.bindings@, name@, k as int),
            decreases self.bindings.len() - k,
        {
            if str_eq(self.bindings[k].0.as_str(), name.as_str()) {
                self.bindings.set(k, (name, ty));
                return;
            }
            k = k + 1;
        }
        self.bindings.push((name, ty));
    }

    /// The type bound to `name`.
    pub fn lookup(&self, name: &str) -> (r: Option<&StackType>)
        ensures
            r == match name_pos(self.bindings_view(), name@, 0) {
                Some(k) => Some(&self.bindings_view()[k].1),
                None => None,
            },
    {
        let mut k: usize = 0;
        while k < self.bindings.len()
            invariant
                k <= self.bindings.len(),
                name_pos(self.bindings@, name@, 0) == name_pos(self.bindings@, name@, k as int),
            decreases self.bindings.len() - k,
        {
            if str_eq(self.bindings[k].0.as_str(), name) {
                return Some(&self.bindings[k].1);
            }
            k = k + 1;
        }
        None
    }
}

impl Default for TypeEnv {
    fn default() -> (r: Self)
        ensures
            r.bindings_view().len() == 0,
            r.next_id() == 0,
    {
        TypeEnv::new()
    }
}

/// The first place where variable `id` is bound.
pub open spec fn var_pos(m: Seq<(usize, StackType)>, id: usize, i: int) -> Option<int>
    decreases m.len() - i,
{
    if i >= m.len() || i < 0 {
        None
    } else if m[i].0 == id {
        Some(i)
    } else {
        var_pos(m, id, i + 1)
    }
}

/// `m` with variable `id` bound to `t` (in place of an earlier binding).
pub open spec fn put(m: Seq<(usize, StackType)>, id: usize, t: StackType) -> Seq<(usize, StackType)> {
    match var_pos(m, id, 0) {
        Some(k) => m.update(k, (id, t)),
        None => m.push((id, t)),
    }
}

/// `t` with bound variables replaced by what they are bound to, following at
/// most `n` bindings.
pub open spec fn resolve(m: Seq<(usize, StackType)>, t: StackType, n: nat) -> StackType
    decreases n,
{
    if n == 0 {
        t
    } else {
        match t {
            StackType::Var(v) => match var_pos(m, v.id, 0) {
                Some(k) => resolve(m, m[k].1, (n - 1) as nat),
                None => t,
            },
            _ => t,
        }
    }
}

/// What a substitution makes of `t`: its bindings followed as far as they go
/// (a chain of bindings without a cycle visits each binding at most once).
pub open spec fn apply_subst(m: Seq<(usize, StackType)>, t: StackType) -> StackType {
    resolve(m, t, m.len())
}

/// Each type of `ts` as the substitution makes it.
pub open spec fn apply_all(m: Seq<(usize, StackType)>, ts: Seq<StackType>) -> Seq<StackType> {
    ts.map_values(|t: StackType| apply_subst(m, t))
}

/// Bindings of type variables to types.
#[derive(Debug)]
pub struct Substitution {
    mappings: Vec<(usize, StackType)>,
}

proof fn lemma_var_pos_found(m: Seq<(usize, StackType)>, id: usize, i: int)
    requires
        var_pos(m, id, i) is Some,
    ensures
        i <= var_pos(m, id, i)->Some_0 < m.len(),
        m[var_pos(m, id, i)->Some_0].0 == id,
    decreases m.len() - i,
{
    if i < m.len() && i >= 0 && m[i].0 != id {
        lemma_var_pos_found(m, id, i + 1);
    }
}

/// The place where `id` is bound, found by a search.
fn find_var(m: &Vec<(usize, StackType)>, id: usize) -> (r: Option<usize>)
    ensures
        r matches Some(k) ==> var_pos(m@, id, 0) == Some(k as int),
        r is None ==> var_pos(m@, id, 0) is None,
{
    let mut k: usize = 0;
    while k < m.len()
        invariant
            k <= m.len(),
            var_pos(m@, id, 0) == var_pos(m@, id, k as int),
        decreases m.len() - k,
    {
        if m[k].0 == id {
            return Some(k);
        }
        k = k + 1;
    }
    None
}

impl Substitution {
    /// The bindings, in the order they were made.
    pub closed spec fn view_bindings(&self) -> Seq<(usize, StackType)> {
        self.mappings@
    }

    pub fn new() -> (r: Self)
        ensures
            r.view_bindings().len() == 0,
    {
        Substitution { mappings: Vec::new() }
    }

    /// Binds variable `var_id` to `ty`, replacing an earlier binding.
    pub fn bind(&mut self, var_id: usize, ty: StackType)
        ensures
            final(self).view_bindings() == put(old(self).view_bindings(), var_id, ty),
    {
        match find_var(&self.mappings, var_id) {
            Some(k) => {
                proof { lemma_var_pos_found(self.mappings@, var_id, 0); }
                self.mappings.set(k, (var_id, ty));
            },
            None => {
                self.mappings.push((var_id, ty));
            },
        }
    }

    /// What this substitution makes of `ty`.
    pub fn apply(&self, ty: &StackType) -> (r: StackType)
        ensures
            r == apply_subst(self.view_bindings(), *ty),
    {
        let ghost m = self.mappings@;
        let mut cur = ty.duplicate();
        let mut n: usize = self.mappings.len();
        assert(resolve(m, *ty, m.len()) == resolve(m, cur, n as nat));
        while n > 0
            invariant
                m == self.mappings@,
                resolve(m, *ty, m.len()) == resolve(m, cur, n as nat),
            decreases n,
        {
            let next = match &cur {
                StackType::Var(v) => match find_var(&self.mappings, v.id) {
                    Some(k) => {
                        proof { lemma_var_pos_found(m, v.id, 0); }
                        self.mappings[k].1.duplicate()
                    },
                    None => {
                        return cur;
                    },
                },
                _ => {
                    return cur;
                },
            };
            cur = next;
            n = n - 1;
        }
        cur
    }

    /// Adds the bindings of `other`, in its order, each to its type as this
    /// substitution makes it at that moment.
    pub fn compose(&mut self, other: &Substitution)
        ensures
            final(self).view_bindings() == compose_all(old(self).view_bindings(), other.view_bindings(), 0),
    {
        let mut i: usize = 0;
        while i < other.mappings.len()
            invariant
                i <= other.mappings.len(),
                compose_all(old(self).view_bindings(), other.mappings@, 0)
                    == compose_all(self.mappings@, other.mappings@, i as int),
            decreases other.mappings.len() - i,
        {
            let applied = self.apply(&other.mappings[i].1);
            self.bind(other.mappings[i].0, applied);
            i = i + 1;
        }
    }
}

/// `m` with the bindings of `o` from `i` on added in order, each to its type
/// as the bindings so far make it.
pub open spec fn compose_all(m: Seq<(usize, StackType)>, o: Seq<(usize, StackType)>, i: int) -> Seq<(usize, StackType)>
    decreases o.len() - i,
{
    if i >= o.len() || i < 0 {
        m
    } else {
        compose_all(put(m, o[i].0, apply_subst(m, o[i].1)), o, i + 1)
    }
}

impl Default for Substitution {
    fn default() -> (r: Self)
        ensures
            r.view_bindings().len() == 0,
    {
        Substitution::new()
    }
}

/// Bindings of type variables, in the order they were made.
pub type Subst = Seq<(usize, StackType)>;

/// Why inference failed: two types that do not unify (as texts, with where it
/// happened), or more type variables than the counter can number.
pub enum InferFault {
    Mismatch { expected: Seq<char>, found: Seq<char>, location: Option<Seq<char>> },
    Overflow,
}

/// The message when the type variable counter would overflow.
pub open spec fn overflow_message() -> Seq<char> {
    "type variable counter overflow"@
}

/// The error `e` is the fault `f`.
pub open spec fn fault_is(e: ForthError, f: InferFault) -> bool {
    match f {
        InferFault::Mismatch { expected, found, location } => match e {
            ForthError::TypeError { expected: x, found: y, location: l } =>
                x@ == expected && y@ == found && match l {
                    Some(t) => location == Some(t@),
                    None => location is None,
                },
            _ => false,
        },
        InferFault::Overflow => e matches ForthError::InternalError { message } && message@ == overflow_message(),
    }
}

/// `a` and `b` unify as they are: equal base types, a flag with an integer
/// (flags are integers in Forth), or an unknown type on either side.
pub open spec fn compatible(a: StackType, b: StackType) -> bool {
    ||| (a is Int && b is Int) || (a is Float && b is Float) || (a is Bool && b is Bool)
    ||| (a is Char && b is Char) || (a is Addr && b is Addr) || (a is String && b is String)
    ||| (a is Bool && b is Int) || (a is Int && b is Bool)
    ||| a is Unknown || b is Unknown
}

/// Variable `id` occurs in `t`.
pub open spec fn occurs(id: usize, t: StackType) -> bool {
    match t {
        StackType::Var(v) => v.id == id,
        _ => false,
    }
}

/// The mismatch of two (resolved) types.
pub open spec fn mismatch(a: StackType, b: StackType) -> InferFault {
    InferFault::Mismatch { expected: stack_type_text(a), found: stack_type_text(b), location: None }
}

/// Unification of `t1` and `t2` under `m`: both are resolved; compatible
/// types, or the same variable, unify as they are; a variable is bound to the
/// other side (unless it occurs in it); anything else is a mismatch.
pub open spec fn unify_spec(m: Subst, t1: StackType, t2: StackType) -> Result<Subst, InferFault> {
    let a = apply_subst(m, t1);
    let b = apply_subst(m, t2);
    if compatible(a, b) {
        Ok(m)
    } else if a is Var && b is Var && a->Var_0.id == b->Var_0.id {
        Ok(m)
    } else if a is Var {
        if occurs(a->Var_0.id, b) { Err(mismatch(a, b)) } else { Ok(put(m, a->Var_0.id, b)) }
    } else if b is Var {
        if occurs(b->Var_0.id, a) { Err(mismatch(a, b)) } else { Ok(put(m, b->Var_0.id, a)) }
    } else {
        Err(mismatch(a, b))
    }
}

/// Unifies `xs[k]` with `ys[k]` for each `k` from `k` on, in order.
pub open spec fn unify_pairs(m: Subst, xs: Seq<StackType>, ys: Seq<StackType>, k: int) -> Result<Subst, InferFault>
    decreases xs.len() - k,
{
    if k >= xs.len() || k >= ys.len() || k < 0 {
        Ok(m)
    } else {
        match unify_spec(m, xs[k], ys[k]) {
            Err(e) => Err(e),
            Ok(m2) => unify_pairs(m2, xs, ys, k + 1),
        }
    }
}

/// Unifies each input `ins[k]` with the stack item `k` places below the top,
/// for `k` from `k` down to 0.
pub open spec fn unify_down(m: Subst, ins: Seq<StackType>, stk: Seq<StackType>, k: int) -> Result<Subst, InferFault>
    decreases k + 1,
{
    if k < 0 {
        Ok(m)
    } else {
        match unify_spec(m, ins[k], stk[stk.len() - 1 - k]) {
            Err(e) => Err(e),
            Ok(m2) => unify_down(m2, ins, stk, k - 1),
        }
    }
}

/// `k` fresh variables numbered from `n`, with the counter after them.
pub open spec fn fresh_vars(n: int, k: int) -> Seq<StackType> {
    Seq::new(k as nat, |i: int| var_type(n + i))
}

/// The inputs and outputs of a word called by name, with the counter of fresh
/// variables: fixed types for arithmetic, comparison, logic, memory and output
/// words; fresh variables for the stack words and for any other word
/// (`( a -- a )`).
pub open spec fn builtin_spec(name: Seq<char>, n: int) -> Result<(int, Seq<StackType>, Seq<StackType>), InferFault> {
    let v0 = var_type(n);
    let v1 = var_type(n + 1);
    let v2 = var_type(n + 2);
    let i = StackType::Int;
    let flag = StackType::Bool;
    if name == "+"@ || name == "-"@ || name == "*"@ || name == "/"@ || name == "mod"@ {
        Ok((n, seq![i, i], seq![i]))
    } else if name == "/mod"@ {
        Ok((n, seq![i, i], seq![i, i]))
    } else if name == "dup"@ {
        if n + 1 > usize::MAX { Err(InferFault::Overflow) } else { Ok((n + 1, seq![v0], seq![v0, v0])) }
    } else if name == "drop"@ {
        if n + 1 > usize::MAX { Err(InferFault::Overflow) } else { Ok((n + 1, seq![v0], seq![])) }
    } else if name == "swap"@ {
        if n + 2 > usize::MAX { Err(InferFault::Overflow) } else { Ok((n + 2, seq![v0, v1], seq![v1, v0])) }
    } else if name == "over"@ {
        if n + 2 > usize::MAX { Err(InferFault::Overflow) } else { Ok((n + 2, seq![v0, v1], seq![v0, v1, v0])) }
    } else if name == "rot"@ {
        if n + 3 > usize::MAX { Err(InferFault::Overflow) } else { Ok((n + 3, seq![v0, v1, v2], seq![v1, v2, v0])) }
    } else if name == "<"@ || name == ">"@ || name == "="@ || name == "<="@ || name == ">="@ || name == "<>"@ {
        Ok((n, seq![i, i], seq![flag]))
    } else if name == "and"@ || name == "or"@ {
        Ok((n, seq![flag, flag], seq![flag]))
    } else if name == "not"@ {
        Ok((n, seq![flag], seq![flag]))
    } else if name == "invert"@ {
        Ok((n, seq![i], seq![i]))
    } else if name == "@"@ {
        Ok((n, seq![StackType::Addr], seq![i]))
    } else if name == "!"@ {
        Ok((n, seq![i, StackType::Addr], seq![]))
    } else if name == "c@"@ {
        Ok((n, seq![StackType::Addr], seq![StackType::Char]))
    } else if name == "c!"@ {
        Ok((n, seq![StackType::Char, StackType::Addr], seq![]))
    } else if name == "."@ {
        Ok((n, seq![i], seq![]))
    } else if name == "emit"@ {
        Ok((n, seq![StackType::Char], seq![]))
    } else if name == "cr"@ {
        Ok((n, seq![], seq![]))
    } else if name == "negate"@ || name == "abs"@ {
        Ok((n, seq![i], seq![i]))
    } else if name == "min"@ || name == "max"@ {
        Ok((n, seq![i, i], seq![i]))
    } else {
        if n + 1 > usize::MAX { Err(InferFault::Overflow) } else { Ok((n + 1, seq![v0], seq![v0])) }
    }
}

/// The mismatch of the numbers of outputs of the two branches of an `IF`.
pub open spec fn branch_mismatch(a: int, b: int) -> InferFault {
    InferFault::Mismatch {
        expected: decimal_text(a) + " outputs"@,
        found: decimal_text(b) + " outputs"@,
        location: Some("IF branches"@),
    }
}

/// The inputs and outputs of a word, from the counter `n` and the
/// substitution `m`, with the counter and substitution after it.
pub open spec fn infer_word_spec(n: int, m: Subst, w: Word) -> Result<(int, Subst, Seq<StackType>, Seq<StackType>), InferFault>
    decreases word_size(w), 0int,
{
    match w {
        Word::IntLiteral(_) => Ok((n, m, seq![], seq![StackType::Int])),
        Word::FloatLiteral(_) => Ok((n, m, seq![], seq![StackType::Float])),
        Word::StringLiteral(_) => Ok((n, m, seq![], seq![StackType::String])),
        Word::WordRef { name, .. } => match builtin_spec(name@, n) {
            Ok((n2, i, o)) => Ok((n2, m, i, o)),
            Err(e) => Err(e),
        },
        Word::If { then_branch, else_branch } => match infer_seq_spec(n, m, then_branch@) {
            Err(e) => Err(e),
            Ok((n1, m1, ti, to)) => {
                let er = match else_branch {
                    Some(eb) => infer_seq_spec(n1, m1, eb@),
                    None => Ok((n1, m1, Seq::<StackType>::empty(), Seq::<StackType>::empty())),
                };
                match er {
                    Err(e) => Err(e),
                    Ok((n2, m2, _ei, eo)) => if to.len() != eo.len() {
                        Err(branch_mismatch(to.len() as int, eo.len() as int))
                    } else {
                        match unify_pairs(m2, to, eo, 0) {
                            Err(e) => Err(e),
                            Ok(m3) => Ok((n2, m3, seq![StackType::Bool] + ti, to)),
                        }
                    },
                }
            },
        },
        Word::BeginUntil { body } => match infer_seq_spec(n, m, body@) {
            Err(e) => Err(e),
            Ok((n1, m1, i, o)) => Ok((n1, m1, i.push(StackType::Bool), o)),
        },
        Word::BeginWhileRepeat { condition, body } => match infer_seq_spec(n, m, condition@) {
            Err(e) => Err(e),
            Ok((n1, m1, ci, co)) => match infer_seq_spec(n1, m1, body@) {
                Err(e) => Err(e),
                Ok((n2, m2, bi, bo)) => {
                    let u = if co.len() > 0 { unify_spec(m2, co.last(), StackType::Bool) } else { Ok(m2) };
                    match u {
                        Err(e) => Err(e),
                        Ok(m3) => Ok((n2, m3, ci + bi, bo)),
                    }
                },
            },
        },
        Word::DoLoop { body, .. } => match infer_seq_spec(n, m, body@) {
            Err(e) => Err(e),
            Ok((n1, m1, i, o)) => Ok((n1, m1, seq![StackType::Int, StackType::Int] + i, o)),
        },
        Word::Variable { .. } => Ok((n, m, seq![], seq![StackType::Addr])),
        Word::Constant { .. } => Ok((n, m, seq![], seq![StackType::Int])),
        Word::Comment(_) => Ok((n, m, seq![], seq![])),
    }
}

/// The walk over a sequence from word `i` on, with the stack of types so far
/// and the inputs taken from below the sequence's start: each word's inputs,
/// where the stack is short, are first pushed as fresh variables (and
/// recorded as inputs); they are unified with the stack's top, deepest input
/// first; then they are popped and the word's outputs pushed.
pub open spec fn infer_loop(n: int, m: Subst, stack: Seq<StackType>, total: Seq<StackType>, ws: Seq<Word>, i: int)
    -> Result<(int, Subst, Seq<StackType>, Seq<StackType>), InferFault>
    decreases words_size(ws) - words_size(ws.take(i)), 1int,
{
    if i >= ws.len() || i < 0 {
        Ok((n, m, stack, total))
    } else {
        proof {
            lemma_words_size_prefix(ws, i);
            assert(ws.take(i + 1).drop_last() =~= ws.take(i));
        }
        match infer_word_spec(n, m, ws[i]) {
            Err(e) => Err(e),
            Ok((n1, m1, ins, outs)) => {
                let needed = if stack.len() < ins.len() { ins.len() - stack.len() } else { 0 };
                if n1 + needed > usize::MAX {
                    Err(InferFault::Overflow)
                } else {
                    let vars = fresh_vars(n1, needed);
                    let s2 = stack + vars;
                    match unify_down(m1, ins, s2, ins.len() - 1) {
                        Err(e) => Err(e),
                        Ok(m2) => infer_loop(n1 + needed, m2, s2.take(s2.len() - ins.len()) + outs, total + vars, ws, i + 1),
                    }
                }
            },
        }
    }
}

/// The inputs and outputs of a sequence, each as the final substitution makes it.
pub open spec fn infer_seq_spec(n: int, m: Subst, ws: Seq<Word>) -> Result<(int, Subst, Seq<StackType>, Seq<StackType>), InferFault>
    decreases words_size(ws), 2int,
{
    match infer_loop(n, m, seq![], seq![], ws, 0) {
        Err(e) => Err(e),
        Ok((n1, m1, stack, total)) => Ok((n1, m1, apply_all(m1, total), apply_all(m1, stack))),
    }
}

/// The result of a sequence's walk, each type as the final substitution makes it.
pub open spec fn finish(r: Result<(int, Subst, Seq<StackType>, Seq<StackType>), InferFault>)
    -> Result<(int, Subst, Seq<StackType>, Seq<StackType>), InferFault>
{
    match r {
        Err(e) => Err(e),
        Ok((n1, m1, stack, total)) => Ok((n1, m1, apply_all(m1, total), apply_all(m1, stack))),
    }
}

/// The effect declared by `def`, checked against and unified with the body's.
pub open spec fn infer_def_spec(n: int, m: Subst, def: Definition) -> Result<(int, Subst, Seq<StackType>, Seq<StackType>), InferFault> {
    match def.stack_effect {
        Some(eff) => if def.body@.len() == 0 {
            Ok((n, m, eff.inputs@, eff.outputs@))
        } else {
            match infer_seq_spec(n, m, def.body@) {
                Err(e) => Err(e),
                Ok((n1, m1, ii, io)) => if ii.len() != eff.inputs@.len() || io.len() != eff.outputs@.len() {
                    Err(InferFault::Mismatch {
                        expected: "( "@ + joined_type_texts(eff.inputs@) + " -- "@ + joined_type_texts(eff.outputs@) + " )"@,
                        found: "( "@ + joined_type_texts(ii) + " -- "@ + joined_type_texts(io) + " )"@,
                        location: Some(def.name@),
                    })
                } else {
                    match unify_pairs(m1, eff.inputs@, ii, 0) {
                        Err(e) => Err(e),
                        Ok(m2) => match unify_pairs(m2, eff.outputs@, io, 0) {
                            Err(e) => Err(e),
                            Ok(m3) => Ok((n1, m3, apply_all(m3, eff.inputs@), apply_all(m3, eff.outputs@))),
                        },
                    }
                },
            }
        },
        None => infer_seq_spec(n, m, def.body@),
    }
}

/// The types of each definition by name (a later definition of a name
/// replacing the earlier one in its place), from definition `i` on.
pub open spec fn analyze_spec(n: int, m: Subst, defs: Seq<Definition>, i: int, acc: Seq<(Seq<char>, Seq<StackType>, Seq<StackType>)>)
    -> Result<(int, Subst, Seq<(Seq<char>, Seq<StackType>, Seq<StackType>)>), InferFault>
    decreases defs.len() - i,
{
    if i >= defs.len() || i < 0 {
        Ok((n, m, acc))
    } else {
        match infer_def_spec(n, m, defs[i]) {
            Err(e) => Err(e),
            Ok((n1, m1, ins, outs)) => analyze_spec(n1, m1, defs, i + 1, put_named(acc, defs[i].name@, ins, outs)),
        }
    }
}

/// The first place of `name` in `acc`.
pub open spec fn named_pos(acc: Seq<(Seq<char>, Seq<StackType>, Seq<StackType>)>, name: Seq<char>, i: int) -> Option<int>
    decreases acc.len() - i,
{
    if i >= acc.len() || i < 0 {
        None
    } else if acc[i].0 == name {
        Some(i)
    } else {
        named_pos(acc, name, i + 1)
    }
}

/// `acc` with `name` given the types `ins` and `outs`.
pub open spec fn put_named(acc: Seq<(Seq<char>, Seq<StackType>, Seq<StackType>)>, name: Seq<char>, ins: Seq<StackType>, outs: Seq<StackType>)
    -> Seq<(Seq<char>, Seq<StackType>, Seq<StackType>)>
{
    match named_pos(acc, name, 0) {
        Some(k) => acc.update(k, (name, ins, outs)),
        None => acc.push((name, ins, outs)),
    }
}

/// The types by name, as plain values.
pub open spec fn types_view(v: Seq<(String, (Vec<StackType>, Vec<StackType>))>) -> Seq<(Seq<char>, Seq<StackType>, Seq<StackType>)> {
    v.map_values(|e: (String, (Vec<StackType>, Vec<StackType>))| (e.0@, e.1.0@, e.1.1@))
}

/// Whether two types unify as they are.
fn types_compatible(a: &StackType, b: &StackType) -> (r: bool)
    ensures
        r == compatible(*a, *b),
{
    (matches!(a, StackType::Int) && matches!(b, StackType::Int))
        || (matches!(a, StackType::Float) && matches!(b, StackType::Float))
        || (matches!(a, StackType::Bool) && matches!(b, StackType::Bool))
        || (matches!(a, StackType::Char) && matches!(b, StackType::Char))
        || (matches!(a, StackType::Addr) && matches!(b, StackType::Addr))
        || (matches!(a, StackType::String) && matches!(b, StackType::String))
        || (matches!(a, StackType::Bool) && matches!(b, StackType::Int))
        || (matches!(a, StackType::Int) && matches!(b, StackType::Bool))
        || matches!(a, StackType::Unknown) || matches!(b, StackType::Unknown)
}

/// The type error for two types that do not unify.
fn mismatch_error(a: &StackType, b: &StackType) -> (r: ForthError)
    ensures
        fault_is(r, mismatch(*a, *b)),
{
    ForthError::TypeError { expected: a.display_text(), found: b.display_text(), location: None }
}

/// The error for a type variable counter that would overflow.
fn overflow_error() -> (r: ForthError)
    ensures
        fault_is(r, InferFault::Overflow),
{
    ForthError::InternalError { message: "type variable counter overflow".to_owned() }
}

/// The place where `name` has types.
fn find_named(types: &Vec<(String, (Vec<StackType>, Vec<StackType>))>, name: &String) -> (r: Option<usize>)
    ensures
        r matches Some(k) ==> named_pos(types_view(types@), name@, 0) == Some(k as int) && k < types@.len(),
        r is None ==> named_pos(types_view(types@), name@, 0) is None,
{
    let ghost acc = types_view(types@);
    let mut k: usize = 0;
    while k < types.len()
        invariant
            k <= types.len(),
            acc == types_view(types@),
            named_pos(acc, name@, 0) == named_pos(acc, name@, k as int),
        decreases types.len() - k,
    {
        if str_eq(types[k].0.as_str(), name.as_str()) {
            assert(acc[k as int].0 == name@);
            return Some(k);
        }
        k = k + 1;
    }
    None
}

/// Gives `name` the types `ins` and `outs`, in place of earlier ones.
fn put_types(types: &mut Vec<(String, (Vec<StackType>, Vec<StackType>))>, name: String, ins: Vec<StackType>, outs: Vec<StackType>)
    ensures
        types_view(final(types)@) == put_named(types_view(old(types)@), name@, ins@, outs@),
{
    let ghost acc = types_view(types@);
    let ghost vi = ins@;
    let ghost vo = outs@;
    let ghost nm = name@;
    match find_named(types, &name) {
        Some(k) => {
            types.set(k, (name, (ins, outs)));
            assert(types_view(types@) =~= put_named(acc, nm, vi, vo));
        },
        None => {
            types.push((name, (ins, outs)));
            assert(types_view(types@) =~= put_named(acc, nm, vi, vo));
        },
    }
}

/// Infers the types of stack code.
pub struct TypeInference {
    env: TypeEnv,
    substitution: Substitution,
}

impl TypeInference {
    /// The number the next fresh type variable gets.
    pub closed spec fn counter(&self) -> int {
        self.env.next_var_id as int
    }

    /// The bindings of type variables made so far.
    pub closed spec fn subst(&self) -> Subst {
        self.substitution.mappings@
    }

    /// The names bound in the environment.
    pub closed spec fn env_bindings(&self) -> Seq<(String, StackType)> {
        self.env.bindings@
    }

    /// An engine with no variables yet, and `+ - * /` bound to `int`.
    pub fn new() -> (r: Self)
        ensures
            r.counter() == 0,
            r.subst().len() == 0,
            r.env_bindings().len() == 4,
            r.env_bindings()[0].0@ == "+"@ && r.env_bindings()[1].0@ == "-"@,
            r.env_bindings()[2].0@ == "*"@ && r.env_bindings()[3].0@ == "/"@,
            forall|k: int| 0 <= k < 4 ==> (#[trigger] r.env_bindings()[k]).1 == StackType::Int,
    {
        let mut env = TypeEnv::new();
        env.bindings.push(("+".to_owned(), StackType::Int));
        env.bindings.push(("-".to_owned(), StackType::Int));
        env.bindings.push(("*".to_owned(), StackType::Int));
        env.bindings.push(("/".to_owned(), StackType::Int));
        TypeInference { env, substitution: Substitution::new() }
    }

    /// Unifies two types (see `unify_spec`).
    fn unify(&mut self, t1: &StackType, t2: &StackType) -> (r: Result<(), ForthError>)
        ensures
            final(self).counter() == old(self).counter(),
            final(self).env_bindings() == old(self).env_bindings(),
            match unify_spec(old(self).subst(), *t1, *t2) {
                Ok(m) => r is Ok && final(self).subst() == m,
                Err(f) => r matches Err(e) && fault_is(e, f),
            },
    {
        let a = self.substitution.apply(t1);
        let b = self.substitution.apply(t2);
        if types_compatible(&a, &b) {
            return Ok(());
        }
        if let StackType::Var(v1) = &a {
            if let StackType::Var(v2) = &b {
                if v1.id == v2.id {
                    return Ok(());
                }
            }
        }
        if let StackType::Var(v) = &a {
            if self.occurs_check(v.id, &b) {
                return Err(mismatch_error(&a, &b));
            }
            self.substitution.bind(v.id, b.duplicate());
            return Ok(());
        }
        if let StackType::Var(v) = &b {
            if self.occurs_check(v.id, &a) {
                return Err(mismatch_error(&a, &b));
            }
            self.substitution.bind(v.id, a.duplicate());
            return Ok(());
        }
        Err(mismatch_error(&a, &b))
    }

    /// Whether variable `var_id` occurs in `ty`.
    fn occurs_check(&self, var_id: usize, ty: &StackType) -> (r: bool)
        ensures
            r == occurs(var_id, *ty),
    {
        match ty {
            StackType::Var(v) => v.id == var_id,
            _ => false,
        }
    }

    /// `k` fresh variables, numbered from the counter.
    fn fresh_list(&mut self, k: usize) -> (r: Vec<StackType>)
        requires
            old(self).counter() + k <= usize::MAX,
        ensures
            r@ == fresh_vars(old(self).counter(), k as int),
            final(self).counter() == old(self).counter() + k,
            final(self).subst() == old(self).subst(),
            final(self).env_bindings() == old(self).env_bindings(),
    {
        let mut out: Vec<StackType> = Vec::new();
        let mut j: usize = 0;
        while j < k
            invariant
                j <= k,
                self.counter() == old(self).counter() + j,
                old(self).counter() + k <= usize::MAX,
                self.subst() == old(self).subst(),
                self.env_bindings() == old(self).env_bindings(),
                out@ == fresh_vars(old(self).counter(), j as int),
            decreases k - j,
        {
            let v = self.env.fresh_var();
            out.push(v);
            j = j + 1;
            assert(out@ =~= fresh_vars(old(self).counter(), j as int));
        }
        out
    }

    /// The inputs and outputs of a word called by name (see `builtin_spec`).
    fn infer_builtin_word(&mut self, name: &str) -> (r: Result<(Vec<StackType>, Vec<StackType>), ForthError>)
        ensures
            final(self).subst() == old(self).subst(),
            final(self).env_bindings() == old(self).env_bindings(),
            match builtin_spec(name@, old(self).counter()) {
                Ok((n2, i, o)) => r matches Ok((ri, ro)) && ri@ == i && ro@ == o && final(self).counter() == n2,
                Err(f) => r matches Err(e) && fault_is(e, f),
            },
    {
        let n = self.env.next_var_id;
        if str_eq(name, "+") || str_eq(name, "-") || str_eq(name, "*") || str_eq(name, "/") || str_eq(name, "mod") {
            return Ok((vec![StackType::Int, StackType::Int], vec![StackType::Int]));
        }
        if str_eq(name, "/mod") {
            return Ok((vec![StackType::Int, StackType::Int], vec![StackType::Int, StackType::Int]));
        }
        if str_eq(name, "dup") {
            if n > usize::MAX - 1 {
                return Err(overflow_error());
            }
            let var = self.env.fresh_var();
            return Ok((vec![var.duplicate()], vec![var.duplicate(), var]));
        }
        if str_eq(name, "drop") {
            if n > usize::MAX - 1 {
                return Err(overflow_error());
            }
            let var = self.env.fresh_var();
            return Ok((vec![var], Vec::new()));
        }
        if str_eq(name, "swap") {
            if n > usize::MAX - 2 {
                return Err(overflow_error());
            }
            let var1 = self.env.fresh_var();
            let var2 = self.env.fresh_var();
            return Ok((vec![var1.duplicate(), var2.duplicate()], vec![var2, var1]));
        }
        if str_eq(name, "over") {
            if n > usize::MAX - 2 {
                return Err(overflow_error());
            }
            let var1 = self.env.fresh_var();
            let var2 = self.env.fresh_var();
            return Ok((vec![var1.duplicate(), var2.duplicate()], vec![var1.duplicate(), var2, var1]));
        }
        if str_eq(name, "rot") {
            if n > usize::MAX - 3 {
                return Err(overflow_error());
            }
            let var1 = self.env.fresh_var();
            let var2 = self.env.fresh_var();
            let var3 = self.env.fresh_var();
            return Ok((vec![var1.duplicate(), var2.duplicate(), var3.duplicate()], vec![var2, var3, var1]));
        }
        if str_eq(name, "<") || str_eq(name, ">") || str_eq(name, "=") || str_eq(name, "<=") || str_eq(name, ">=") || str_eq(name, "<>") {
            return Ok((vec![StackType::Int, StackType::Int], vec![StackType::Bool]));
        }
        if str_eq(name, "and") || str_eq(name, "or") {
            return Ok((vec![StackType::Bool, StackType::Bool], vec![StackType::Bool]));
        }
        if str_eq(name, "not") {
            return Ok((vec![StackType::Bool], vec![StackType::Bool]));
        }
        if str_eq(name, "invert") {
            return Ok((vec![StackType::Int], vec![StackType::Int]));
        }
        if str_eq(name, "@") {
            return Ok((vec![StackType::Addr], vec![StackType::Int]));
        }
        if str_eq(name, "!") {
            return Ok((vec![StackType::Int, StackType::Addr], Vec::new()));
        }
        if str_eq(name, "c@") {
            return Ok((vec![StackType::Addr], vec![StackType::Char]));
        }
        if str_eq(name, "c!") {
            return Ok((vec![StackType::Char, StackType::Addr], Vec::new()));
        }
        if str_eq(name, ".") {
            return Ok((vec![StackType::Int], Vec::new()));
        }
        if str_eq(name, "emit") {
            return Ok((vec![StackType::Char], Vec::new()));
        }
        if str_eq(name, "cr") {
            return Ok((Vec::new(), Vec::new()));
        }
        if str_eq(name, "negate") || str_eq(name, "abs") {
            return Ok((vec![StackType::Int], vec![StackType::Int]));
        }
        if str_eq(name, "min") || str_eq(name, "max") {
            return Ok((vec![StackType::Int, StackType::Int], vec![StackType::Int]));
        }
        if n > usize::MAX - 1 {
            return Err(overflow_error());
        }
        let var = self.env.fresh_var();
        Ok((vec![var.duplicate()], vec![var]))
    }
}

impl TypeInference {
    /// Unifies `xs[k]` with `ys[k]` for each `k`, in order.
    fn unify_list(&mut self, xs: &Vec<StackType>, ys: &Vec<StackType>) -> (r: Result<(), ForthError>)
        ensures
            final(self).counter() == old(self).counter(),
            final(self).env_bindings() == old(self).env_bindings(),
            match unify_pairs(old(self).subst(), xs@, ys@, 0) {
                Ok(m) => r is Ok && final(self).subst() == m,
                Err(f) => r matches Err(e) && fault_is(e, f),
            },
    {
        let mut k: usize = 0;
        while k < xs.len() && k < ys.len()
            invariant
                k <= xs.len(),
                self.counter() == old(self).counter(),
                self.env_bindings() == old(self).env_bindings(),
                unify_pairs(old(self).subst(), xs@, ys@, 0) == unify_pairs(self.subst(), xs@, ys@, k as int),
            decreases xs.len() - k,
        {
            match self.unify(&xs[k], &ys[k]) {
                Ok(()) => {},
                Err(e) => {
                    return Err(e);
                },
            }
            k = k + 1;
        }
        Ok(())
    }

    /// Each type as the substitution makes it.
    fn apply_list(&self, ts: &Vec<StackType>) -> (r: Vec<StackType>)
        ensures
            r@ == apply_all(self.subst(), ts@),
    {
        let mut out: Vec<StackType> = Vec::new();
        let mut i: usize = 0;
        while i < ts.len()
            invariant
                i <= ts.len(),
                out@ == apply_all(self.subst(), ts@.take(i as int)),
            decreases ts.len() - i,
        {
            out.push(self.substitution.apply(&ts[i]));
            i = i + 1;
            assert(out@ =~= apply_all(self.subst(), ts@.take(i as int)));
        }
        assert(ts@.take(i as int) =~= ts@);
        out
    }

    /// The inputs and outputs of a word (see `infer_word_spec`).
    pub fn infer_word(&mut self, word: &Word) -> (r: Result<(Vec<StackType>, Vec<StackType>), ForthError>)
        ensures
            final(self).env_bindings() == old(self).env_bindings(),
            match infer_word_spec(old(self).counter(), old(self).subst(), *word) {
                Ok((n2, m2, i, o)) => r matches Ok((ri, ro)) && ri@ == i && ro@ == o
                    && final(self).counter() == n2 && final(self).subst() == m2,
                Err(f) => r matches Err(e) && fault_is(e, f),
            },
        decreases word_size(*word), 0int,
    {
        match word {
            Word::IntLiteral(_) => Ok((Vec::new(), vec![StackType::Int])),
            Word::FloatLiteral(_) => Ok((Vec::new(), vec![StackType::Float])),
            Word::StringLiteral(_) => Ok((Vec::new(), vec![StackType::String])),
            Word::WordRef { name, .. } => self.infer_builtin_word(name.as_str()),
            Word::If { then_branch, else_branch } => {
                let (ti, to) = match self.infer_sequence(then_branch.as_slice()) {
                    Ok(x) => x,
                    Err(e) => {
                        return Err(e);
                    },
                };
                let (_ei, eo) = match else_branch {
                    Some(eb) => match self.infer_sequence(eb.as_slice()) {
                        Ok(x) => x,
                        Err(e) => {
                            return Err(e);
                        },
                    },
                    None => (Vec::new(), Vec::new()),
                };
                if to.len() != eo.len() {
                    let mut ex = usize_text(to.len());
                    push_str(&mut ex, " outputs");
                    let mut fo = usize_text(eo.len());
                    push_str(&mut fo, " outputs");
                    return Err(ForthError::TypeError { expected: ex, found: fo, location: Some("IF branches".to_owned()) });
                }
                match self.unify_list(&to, &eo) {
                    Ok(()) => {},
                    Err(e) => {
                        return Err(e);
                    },
                }
                let mut inputs: Vec<StackType> = vec![StackType::Bool];
                let mut k: usize = 0;
                while k < ti.len()
                    invariant
                        k <= ti.len(),
                        inputs@ == seq![StackType::Bool] + ti@.take(k as int),
                    decreases ti.len() - k,
                {
                    inputs.push(ti[k].duplicate());
                    k = k + 1;
                    assert(inputs@ =~= seq![StackType::Bool] + ti@.take(k as int));
                }
                assert(ti@.take(k as int) =~= ti@);
                Ok((inputs, to))
            },
            Word::BeginUntil { body } => {
                let (inputs, outputs) = match self.infer_sequence(body.as_slice()) {
                    Ok(x) => x,
                    Err(e) => {
                        return Err(e);
                    },
                };
                let mut all_inputs = inputs;
                all_inputs.push(StackType::Bool);
                Ok((all_inputs, outputs))
            },
            Word::BeginWhileRepeat { condition, body } => {
                let (ci, co) = match self.infer_sequence(condition.as_slice()) {
                    Ok(x) => x,
                    Err(e) => {
                        return Err(e);
                    },
                };
                let (bi, bo) = match self.infer_sequence(body.as_slice()) {
                    Ok(x) => x,
                    Err(e) => {
                        return Err(e);
                    },
                };
                if co.len() > 0 {
                    match self.unify(&co[co.len() - 1], &StackType::Bool) {
                        Ok(()) => {},
                        Err(e) => {
                            return Err(e);
                        },
                    }
                }
                let mut inputs = ci;
                let ghost ci0 = inputs@;
                let mut k: usize = 0;
                while k < bi.len()
                    invariant
                        k <= bi.len(),
                        inputs@ == ci0 + bi@.take(k as int),
                    decreases bi.len() - k,
                {
                    inputs.push(bi[k].duplicate());
                    k = k + 1;
                    assert(inputs@ =~= ci0 + bi@.take(k as int));
                }
                assert(bi@.take(k as int) =~= bi@);
                Ok((inputs, bo))
            },
            Word::DoLoop { body, .. } => {
                let (bi, bo) = match self.infer_sequence(body.as_slice()) {
                    Ok(x) => x,
                    Err(e) => {
                        return Err(e);
                    },
                };
                let mut inputs: Vec<StackType> = vec![StackType::Int, StackType::Int];
                let mut k: usize = 0;
                while k < bi.len()
                    invariant
                        k <= bi.len(),
                        inputs@ == seq![StackType::Int, StackType::Int] + bi@.take(k as int),
                    decreases bi.len() - k,
                {
                    inputs.push(bi[k].duplicate());
                    k = k + 1;
                    assert(inputs@ =~= seq![StackType::Int, StackType::Int] + bi@.take(k as int));
                }
                assert(bi@.take(k as int) =~= bi@);
                Ok((inputs, bo))
            },
            Word::Variable { .. } => Ok((Vec::new(), vec![StackType::Addr])),
            Word::Constant { .. } => Ok((Vec::new(), vec![StackType::Int])),
            Word::Comment(_) => Ok((Vec::new(), Vec::new())),
        }
    }

    /// The inputs and outputs of a sequence (see `infer_seq_spec`).
    pub fn infer_sequence(&mut self, words: &[Word]) -> (r: Result<(Vec<StackType>, Vec<StackType>), ForthError>)
        ensures
            final(self).env_bindings() == old(self).env_bindings(),
            match infer_seq_spec(old(self).counter(), old(self).subst(), words@) {
                Ok((n2, m2, i, o)) => r matches Ok((ri, ro)) && ri@ == i && ro@ == o
                    && final(self).counter() == n2 && final(self).subst() == m2,
                Err(f) => r matches Err(e) && fault_is(e, f),
            },
        decreases words_size(words@), 2int,
    {
        let ghost n0 = self.counter();
        let ghost m0 = self.subst();
        let mut stack: Vec<StackType> = Vec::new();
        let mut total: Vec<StackType> = Vec::new();
        let mut i: usize = 0;
        while i < words.len()
            invariant
                i <= words.len(),
                n0 == old(self).counter(),
                m0 == old(self).subst(),
                self.env_bindings() == old(self).env_bindings(),
                infer_seq_spec(n0, m0, words@) == finish(infer_loop(self.counter(), self.subst(), stack@, total@, words@, i as int)),
            decreases words.len() - i,
        {
            proof {
                lemma_words_size_prefix(words@, i as int);
            }
            let ghost n = self.counter();
            let ghost m = self.subst();
            let (ins, outs) = match self.infer_word(&words[i]) {
                Ok(x) => x,
                Err(e) => {
                    return Err(e);
                },
            };
            let ghost n1 = self.counter();
            let ghost m1 = self.subst();
            let needed: usize = if stack.len() < ins.len() { ins.len() - stack.len() } else { 0 };
            if self.env.next_var_id > usize::MAX - needed {
                return Err(overflow_error());
            }
            let vars = self.fresh_list(needed);
            let ghost s0 = stack@;
            let ghost t0 = total@;
            let mut j: usize = 0;
            while j < vars.len()
                invariant
                    j <= vars.len(),
                    stack@ == s0 + vars@.take(j as int),
                    total@ == t0 + vars@.take(j as int),
                decreases vars.len() - j,
            {
                stack.push(vars[j].duplicate());
                total.push(vars[j].duplicate());
                j = j + 1;
                assert(stack@ =~= s0 + vars@.take(j as int));
                assert(total@ =~= t0 + vars@.take(j as int));
            }
            assert(vars@.take(j as int) =~= vars@);
            let ghost s2 = stack@;
            proof {
                assert(s0 + vars@ == s2);
                assert(infer_seq_spec(n0, m0, words@) == match unify_down(m1, ins@, s2, ins@.len() - 1) {
                    Err(e) => Err(e),
                    Ok(m2) => finish(infer_loop(n1 + needed, m2, s2.take(s2.len() - ins@.len()) + outs@, total@, words@, i + 1)),
                });
            }
            let mut k: usize = ins.len();
            while k > 0
                invariant
                    k <= ins.len(),
                    stack@ == s2,
                    s2.len() >= ins@.len(),
                    n0 == old(self).counter(),
                    m0 == old(self).subst(),
                    self.env_bindings() == old(self).env_bindings(),
                    self.counter() == n1 + needed,
                    infer_seq_spec(n0, m0, words@) == match unify_down(self.subst(), ins@, s2, k - 1) {
                        Err(e) => Err(e),
                        Ok(m2) => finish(infer_loop(n1 + needed, m2, s2.take(s2.len() - ins@.len()) + outs@, total@, words@, i + 1)),
                    },
                decreases k,
            {
                match self.unify(&ins[k - 1], &stack[stack.len() - k]) {
                    Ok(()) => {},
                    Err(e) => {
                        return Err(e);
                    },
                }
                k = k - 1;
            }
            let keep = stack.len() - ins.len();
            stack.truncate(keep);
            let mut q: usize = 0;
            let ghost s3 = stack@;
            while q < outs.len()
                invariant
                    q <= outs.len(),
                    stack@ == s3 + outs@.take(q as int),
                decreases outs.len() - q,
            {
                stack.push(outs[q].duplicate());
                q = q + 1;
                assert(stack@ =~= s3 + outs@.take(q as int));
            }
            assert(outs@.take(q as int) =~= outs@);
            i = i + 1;
        }
        let ri = self.apply_list(&total);
        let ro = self.apply_list(&stack);
        Ok((ri, ro))
    }

    /// The inputs and outputs of a definition (see `infer_def_spec`).
    pub fn infer_definition(&mut self, def: &Definition) -> (r: Result<(Vec<StackType>, Vec<StackType>), ForthError>)
        ensures
            final(self).env_bindings() == old(self).env_bindings(),
            match infer_def_spec(old(self).counter(), old(self).subst(), *def) {
                Ok((n2, m2, i, o)) => r matches Ok((ri, ro)) && ri@ == i && ro@ == o
                    && final(self).counter() == n2 && final(self).subst() == m2,
                Err(f) => r matches Err(e) && fault_is(e, f),
            },
    {
        match &def.stack_effect {
            Some(effect) => {
                if def.body.len() == 0 {
                    return Ok((copy_stack_types(&effect.inputs), copy_stack_types(&effect.outputs)));
                }
                let (ii, io) = match self.infer_sequence(def.body.as_slice()) {
                    Ok(x) => x,
                    Err(e) => {
                        return Err(e);
                    },
                };
                if ii.len() != effect.inputs.len() || io.len() != effect.outputs.len() {
                    let expected = effect.display_text();
                    let found = StackEffect::new(ii, io).display_text();
                    return Err(ForthError::TypeError { expected, found, location: Some(def.name.clone()) });
                }
                match self.unify_list(&effect.inputs, &ii) {
                    Ok(()) => {},
                    Err(e) => {
                        return Err(e);
                    },
                }
                match self.unify_list(&effect.outputs, &io) {
                    Ok(()) => {},
                    Err(e) => {
                        return Err(e);
                    },
                }
                Ok((self.apply_list(&effect.inputs), self.apply_list(&effect.outputs)))
            },
            None => self.infer_sequence(def.body.as_slice()),
        }
    }

    /// The types of every definition of the program, by name, in the order the
    /// names first appear (see `analyze_spec`).
    pub fn analyze_program(&mut self, program: &Program) -> (r: Result<Vec<(String, (Vec<StackType>, Vec<StackType>))>, ForthError>)
        ensures
            final(self).env_bindings() == old(self).env_bindings(),
            match analyze_spec(old(self).counter(), old(self).subst(), program.definitions@, 0, seq![]) {
                Ok((n2, m2, acc)) => r matches Ok(v) && types_view(v@) == acc
                    && final(self).counter() == n2 && final(self).subst() == m2,
                Err(f) => r matches Err(e) && fault_is(e, f),
            },
    {
        let defs = &program.definitions;
        let mut types: Vec<(String, (Vec<StackType>, Vec<StackType>))> = Vec::new();
        let mut i: usize = 0;
        assert(types_view(types@) =~= seq![]);
        while i < defs.len()
            invariant
                i <= defs.len(),
                defs@ == program.definitions@,
                self.env_bindings() == old(self).env_bindings(),
                analyze_spec(old(self).counter(), old(self).subst(), defs@, 0, seq![])
                    == analyze_spec(self.counter(), self.subst(), defs@, i as int, types_view(types@)),
            decreases defs.len() - i,
        {
            let (ins, outs) = match self.infer_definition(&defs[i]) {
                Ok(x) => x,
                Err(e) => {
                    return Err(e);
                },
            };
            put_types(&mut types, defs[i].name.clone(), ins, outs);
            i = i + 1;
        }
        Ok(types)
    }
}

impl Default for TypeInference {
    fn default() -> (r: Self)
        ensures
            r.counter() == 0,
            r.subst().len() == 0,
            r.env_bindings().len() == 4,
    {
        TypeInference::new()
    }
}

} // verus!


