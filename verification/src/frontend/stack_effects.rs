//! Stack-effect inference: how many items a sequence of words takes from
//! the stack and how many it leaves.
use vstd::prelude::*;
use crate::text::chars_of;
use crate::frontend::ast::{Word, Definition, Program, StackEffect, StackType, TypeVar};
use crate::frontend::error::ForthError;
use crate::frontend::ssa::{word_size, words_size, lemma_words_size_prefix, word_stack_effect};
use crate::frontend::type_inference::builtin_spec;
use crate::optimizer::ir::{keyword_instruction, instr_effect};
use crate::optimizer::type_specialization::{assoc_map, distinct_keys, lemma_assoc_map_dom, lemma_assoc_map_at,
    lemma_assoc_map_update, lemma_distinct_push};

verus! {

/// A stack type taken by its contents.
pub enum TypeV {
    Int,
    Float,
    Addr,
    Bool,
    Char,
    Str,
    Var(usize, Option<Seq<char>>),
    Unknown,
}

pub open spec fn type_v(t: StackType) -> TypeV {
    match t {
        StackType::Int => TypeV::Int,
        StackType::Float => TypeV::Float,
        StackType::Addr => TypeV::Addr,
        StackType::Bool => TypeV::Bool,
        StackType::Char => TypeV::Char,
        StackType::String => TypeV::Str,
        StackType::Var(v) => TypeV::Var(v.id, match v.name { Some(n) => Some(n@), None => None }),
        StackType::Unknown => TypeV::Unknown,
    }
}

pub open spec fn types_v(s: Seq<StackType>) -> Seq<TypeV> {
    s.map_values(|t: StackType| type_v(t))
}

/// An effect taken by its contents: input and output types.
pub type EffectV = (Seq<TypeV>, Seq<TypeV>);

pub open spec fn effect_v(e: StackEffect) -> EffectV {
    (types_v(e.inputs@), types_v(e.outputs@))
}

/// Named effects taken by their contents.
pub open spec fn effects_view(v: Seq<(String, StackEffect)>) -> Map<Seq<char>, EffectV> {
    assoc_map(entries(v))
}

pub open spec fn entries(v: Seq<(String, StackEffect)>) -> Seq<(Seq<char>, EffectV)> {
    v.map_values(|e: (String, StackEffect)| (e.0@, effect_v(e.1)))
}

/// The type variable `'name` with number `id`.
pub open spec fn tvar(id: usize, name: Seq<char>) -> TypeV {
    TypeV::Var(id, Some(name))
}

/// The effects of the builtin words.
pub open spec fn builtin_table() -> Seq<(Seq<char>, EffectV)> {
    let i = TypeV::Int;
    let b = TypeV::Bool;
    let a = tvar(0, "a"@);
    let bv = tvar(1, "b"@);
    let c = tvar(2, "c"@);
    seq![
        ("+"@, (seq![i, i], seq![i])),
        ("-"@, (seq![i, i], seq![i])),
        ("*"@, (seq![i, i], seq![i])),
        ("/"@, (seq![i, i], seq![i])),
        ("mod"@, (seq![i, i], seq![i])),
        ("/mod"@, (seq![i, i], seq![i, i])),
        ("dup"@, (seq![a], seq![a, a])),
        ("drop"@, (seq![a], seq![])),
        ("swap"@, (seq![a, bv], seq![bv, a])),
        ("over"@, (seq![a, bv], seq![a, bv, a])),
        ("rot"@, (seq![a, bv, c], seq![bv, c, a])),
        ("<"@, (seq![i, i], seq![b])),
        (">"@, (seq![i, i], seq![b])),
        ("="@, (seq![i, i], seq![b])),
        ("<="@, (seq![i, i], seq![b])),
        (">="@, (seq![i, i], seq![b])),
        ("<>"@, (seq![i, i], seq![b])),
        ("and"@, (seq![b, b], seq![b])),
        ("or"@, (seq![b, b], seq![b])),
        ("not"@, (seq![b], seq![b])),
        ("invert"@, (seq![i], seq![i])),
        ("."@, (seq![i], seq![])),
        ("emit"@, (seq![TypeV::Char], seq![])),
        ("cr"@, (seq![], seq![])),
        ("@"@, (seq![TypeV::Addr], seq![i])),
        ("!"@, (seq![i, TypeV::Addr], seq![])),
        ("c@"@, (seq![TypeV::Addr], seq![TypeV::Char])),
        ("c!"@, (seq![TypeV::Char, TypeV::Addr], seq![])),
        ("negate"@, (seq![i], seq![i])),
        ("abs"@, (seq![i], seq![i])),
        ("min"@, (seq![i, i], seq![i])),
        ("max"@, (seq![i, i], seq![i])),
    ]
}

/// The first effect recorded for `n` in `t`.
pub open spec fn table_lookup(t: Seq<(Seq<char>, EffectV)>, n: Seq<char>) -> Option<EffectV>
    decreases t.len(),
{
    if t.len() == 0 {
        None
    } else if t[0].0 == n {
        Some(t[0].1)
    } else {
        table_lookup(t.drop_first(), n)
    }
}

/// `n` items of unknown type.
pub open spec fn unknowns(n: int) -> Seq<TypeV> {
    Seq::new(n as nat, |i: int| TypeV::Unknown)
}

/// The effect of a word: builtins first, then user words, else no effect.
pub open spec fn ref_effect(b: Seq<(Seq<char>, EffectV)>, u: Map<Seq<char>, EffectV>, n: Seq<char>) -> EffectV {
    match table_lookup(b, n) {
        Some(e) => e,
        None => if u.dom().contains(n) { u[n] } else { (seq![], seq![]) },
    }
}

/// The inferred effect of one word.
pub open spec fn word_effect_v(w: Word, b: Seq<(Seq<char>, EffectV)>, u: Map<Seq<char>, EffectV>) -> EffectV
    decreases w,
{
    match w {
        Word::IntLiteral(_) | Word::FloatLiteral(_) | Word::StringLiteral(_) => (seq![], seq![TypeV::Unknown]),
        Word::WordRef { name, .. } => ref_effect(b, u, name@),
        Word::If { then_branch, else_branch } => {
            let t = seq_counts_v(then_branch@, b, u);
            let e = match else_branch { Some(x) => seq_counts_v(x@, b, u), None => (0, 0) };
            let m = if t.0 >= e.0 { t.0 } else { e.0 };
            (seq![TypeV::Bool] + unknowns(m), unknowns(t.1))
        },
        Word::BeginUntil { body } => {
            let c = seq_counts_v(body@, b, u);
            (unknowns(c.0).push(TypeV::Bool), unknowns(c.1))
        },
        Word::BeginWhileRepeat { condition, body } => {
            let c = seq_counts_v(condition@, b, u);
            let d = seq_counts_v(body@, b, u);
            (unknowns(c.0) + unknowns(d.0), unknowns(d.1))
        },
        Word::DoLoop { body, .. } => {
            let c = seq_counts_v(body@, b, u);
            (seq![TypeV::Int, TypeV::Int] + unknowns(c.0), unknowns(c.1))
        },
        Word::Variable { .. } | Word::Constant { .. } => (seq![], seq![TypeV::Addr]),
        Word::Comment(_) => (seq![], seq![]),
    }
}

/// Items a sequence needs below its start, and the items it leaves.
pub open spec fn seq_counts_v(ws: Seq<Word>, b: Seq<(Seq<char>, EffectV)>, u: Map<Seq<char>, EffectV>) -> (int, int)
    decreases ws,
{
    if ws.len() == 0 {
        (0, 0)
    } else {
        let (needed, depth) = seq_counts_v(ws.drop_last(), b, u);
        let e = word_effect_v(ws.last(), b, u);
        let i = e.0.len() as int;
        let o = e.1.len() as int;
        if depth < i { (needed + i - depth, o) } else { (needed, depth - i + o) }
    }
}

/// Items moved by a word and by all the words nested in it.
pub open spec fn word_budget(w: Word, b: Seq<(Seq<char>, EffectV)>, u: Map<Seq<char>, EffectV>) -> int
    decreases w,
{
    let e = word_effect_v(w, b, u);
    e.0.len() + e.1.len() + match w {
        Word::If { then_branch, else_branch } => seq_budget(then_branch@, b, u)
            + match else_branch { Some(x) => seq_budget(x@, b, u), None => 0 },
        Word::BeginUntil { body } => seq_budget(body@, b, u),
        Word::BeginWhileRepeat { condition, body } => seq_budget(condition@, b, u) + seq_budget(body@, b, u),
        Word::DoLoop { body, .. } => seq_budget(body@, b, u),
        _ => 0,
    }
}

/// Items moved by a sequence, nested words included.
pub open spec fn seq_budget(ws: Seq<Word>, b: Seq<(Seq<char>, EffectV)>, u: Map<Seq<char>, EffectV>) -> int
    decreases ws,
{
    if ws.len() == 0 { 0 } else { seq_budget(ws.drop_last(), b, u) + word_budget(ws.last(), b, u) }
}

pub proof fn lemma_budget_nonneg_word(w: Word, b: Seq<(Seq<char>, EffectV)>, u: Map<Seq<char>, EffectV>)
    ensures
        word_budget(w, b, u) >= word_effect_v(w, b, u).0.len() + word_effect_v(w, b, u).1.len(),
    decreases w,
{
    match w {
        Word::If { then_branch, else_branch } => {
            lemma_budget_nonneg_seq(then_branch@, b, u);
            match else_branch { Some(x) => lemma_budget_nonneg_seq(x@, b, u), None => {} }
        },
        Word::BeginUntil { body } => lemma_budget_nonneg_seq(body@, b, u),
        Word::BeginWhileRepeat { condition, body } => {
            lemma_budget_nonneg_seq(condition@, b, u);
            lemma_budget_nonneg_seq(body@, b, u);
        },
        Word::DoLoop { body, .. } => lemma_budget_nonneg_seq(body@, b, u),
        _ => {},
    }
}

pub proof fn lemma_budget_nonneg_seq(ws: Seq<Word>, b: Seq<(Seq<char>, EffectV)>, u: Map<Seq<char>, EffectV>)
    ensures
        seq_budget(ws, b, u) >= 0,
        0 <= seq_counts_v(ws, b, u).0,
        0 <= seq_counts_v(ws, b, u).1,
        seq_counts_v(ws, b, u).0 + seq_counts_v(ws, b, u).1 <= seq_budget(ws, b, u),
    decreases ws,
{
    if ws.len() > 0 {
        lemma_budget_nonneg_seq(ws.drop_last(), b, u);
        lemma_budget_nonneg_word(ws.last(), b, u);
    }
}

pub proof fn lemma_budget_prefix(ws: Seq<Word>, i: int, b: Seq<(Seq<char>, EffectV)>, u: Map<Seq<char>, EffectV>)
    requires
        0 <= i < ws.len(),
    ensures
        seq_budget(ws.take(i + 1), b, u) == seq_budget(ws.take(i), b, u) + word_budget(ws[i], b, u),
        seq_budget(ws.take(i + 1), b, u) <= seq_budget(ws, b, u),
        word_budget(ws[i], b, u) <= seq_budget(ws, b, u),
    decreases ws.len() - i,
{
    assert(ws.take(i + 1).drop_last() =~= ws.take(i));
    lemma_budget_nonneg_seq(ws.take(i), b, u);
    if i + 1 < ws.len() {
        lemma_budget_prefix(ws, i + 1, b, u);
        lemma_budget_nonneg_word(ws[i + 1], b, u);
        assert(ws.take(i + 2).drop_last() =~= ws.take(i + 1));
    } else {
        assert(ws.take(i + 1) =~= ws);
    }
}

/// A type variable `'name` with number `id`.
fn type_var(id: usize, name: &str) -> (r: StackType)
    ensures
        type_v(r) == tvar(id, name@),
{
    StackType::Var(TypeVar { id, name: Some(name.to_owned()) })
}

/// `n` items of unknown type.
fn unknown_types(n: usize) -> (r: Vec<StackType>)
    ensures
        types_v(r@) == unknowns(n as int),
{
    let mut r: Vec<StackType> = Vec::new();
    let mut i: usize = 0;
    while i < n
        invariant
            i <= n,
            types_v(r@) == unknowns(i as int),
        decreases n - i,
    {
        let ghost before = r@;
        r.push(StackType::Unknown);
        assert(types_v(r@) =~= types_v(before).push(TypeV::Unknown));
        assert(unknowns(i + 1) =~= unknowns(i as int).push(TypeV::Unknown));
        i = i + 1;
    }
    r
}

/// Appends a named effect.
fn push_entry(v: &mut Vec<(String, StackEffect)>, name: &str, inputs: Vec<StackType>, outputs: Vec<StackType>)
    ensures
        entries(final(v)@) == entries(old(v)@).push((name@, (types_v(inputs@), types_v(outputs@)))),
{
    v.push((name.to_owned(), StackEffect { inputs, outputs }));
    assert(entries(v@) =~= entries(old(v)@).push((name@, (types_v(inputs@), types_v(outputs@)))));
}

/// The stack-effect inference engine: the effects of the builtin words and
/// of the user's words.
pub struct StackEffectInference {
    pub builtins: Vec<(String, StackEffect)>,
    pub user_words: Vec<(String, StackEffect)>,
}

impl StackEffectInference {
    /// The builtin table is the standard one and user words are keyed by distinct names.
    pub open spec fn wf(&self) -> bool {
        &&& entries(self.builtins@) == builtin_table()
        &&& distinct_keys(entries(self.user_words@))
    }

    /// User word effects by name.
    pub open spec fn users(&self) -> Map<Seq<char>, EffectV> {
        effects_view(self.user_words@)
    }

    #[verifier::rlimit(60)]
    pub fn new() -> (r: Self)
        ensures
            r.wf(),
            r.user_words@.len() == 0,
    {
        let mut b: Vec<(String, StackEffect)> = Vec::new();
        push_entry(&mut b, "+", vec![StackType::Int, StackType::Int], vec![StackType::Int]);
        push_entry(&mut b, "-", vec![StackType::Int, StackType::Int], vec![StackType::Int]);
        push_entry(&mut b, "*", vec![StackType::Int, StackType::Int], vec![StackType::Int]);
        push_entry(&mut b, "/", vec![StackType::Int, StackType::Int], vec![StackType::Int]);
        push_entry(&mut b, "mod", vec![StackType::Int, StackType::Int], vec![StackType::Int]);
        push_entry(&mut b, "/mod", vec![StackType::Int, StackType::Int], vec![StackType::Int, StackType::Int]);
        push_entry(&mut b, "dup", vec![type_var(0, "a")], vec![type_var(0, "a"), type_var(0, "a")]);
        push_entry(&mut b, "drop", vec![type_var(0, "a")], vec![]);
        push_entry(&mut b, "swap", vec![type_var(0, "a"), type_var(1, "b")], vec![type_var(1, "b"), type_var(0, "a")]);
        push_entry(&mut b, "over", vec![type_var(0, "a"), type_var(1, "b")],
            vec![type_var(0, "a"), type_var(1, "b"), type_var(0, "a")]);
        push_entry(&mut b, "rot", vec![type_var(0, "a"), type_var(1, "b"), type_var(2, "c")],
            vec![type_var(1, "b"), type_var(2, "c"), type_var(0, "a")]);
        push_entry(&mut b, "<", vec![StackType::Int, StackType::Int], vec![StackType::Bool]);
        push_entry(&mut b, ">", vec![StackType::Int, StackType::Int], vec![StackType::Bool]);
        push_entry(&mut b, "=", vec![StackType::Int, StackType::Int], vec![StackType::Bool]);
        push_entry(&mut b, "<=", vec![StackType::Int, StackType::Int], vec![StackType::Bool]);
        push_entry(&mut b, ">=", vec![StackType::Int, StackType::Int], vec![StackType::Bool]);
        push_entry(&mut b, "<>", vec![StackType::Int, StackType::Int], vec![StackType::Bool]);
        push_entry(&mut b, "and", vec![StackType::Bool, StackType::Bool], vec![StackType::Bool]);
        push_entry(&mut b, "or", vec![StackType::Bool, StackType::Bool], vec![StackType::Bool]);
        push_entry(&mut b, "not", vec![StackType::Bool], vec![StackType::Bool]);
        push_entry(&mut b, "invert", vec![StackType::Int], vec![StackType::Int]);
        push_entry(&mut b, ".", vec![StackType::Int], vec![]);
        push_entry(&mut b, "emit", vec![StackType::Char], vec![]);
        push_entry(&mut b, "cr", vec![], vec![]);
        push_entry(&mut b, "@", vec![StackType::Addr], vec![StackType::Int]);
        push_entry(&mut b, "!", vec![StackType::Int, StackType::Addr], vec![]);
        push_entry(&mut b, "c@", vec![StackType::Addr], vec![StackType::Char]);
        push_entry(&mut b, "c!", vec![StackType::Char, StackType::Addr], vec![]);
        push_entry(&mut b, "negate", vec![StackType::Int], vec![StackType::Int]);
        push_entry(&mut b, "abs", vec![StackType::Int], vec![StackType::Int]);
        push_entry(&mut b, "min", vec![StackType::Int, StackType::Int], vec![StackType::Int]);
        push_entry(&mut b, "max", vec![StackType::Int, StackType::Int], vec![StackType::Int]);
        assert(entries(b@) =~~= builtin_table());
        let r = StackEffectInference { builtins: b, user_words: Vec::new() };
        assert(entries(r.user_words@).len() == 0);
        r
    }
}

/// The effect of the word `n`: a builtin, else a user word.
pub open spec fn lookup_effect(b: Seq<(Seq<char>, EffectV)>, u: Map<Seq<char>, EffectV>, n: Seq<char>) -> Option<EffectV> {
    match table_lookup(b, n) {
        Some(e) => Some(e),
        None => if u.dom().contains(n) { Some(u[n]) } else { None },
    }
}

/// The error for effects too large to count.
fn too_large() -> (r: ForthError)
    ensures
        r is InternalError,
{
    ForthError::InternalError { message: "stack effect too large".to_owned() }
}

impl StackEffectInference {
    /// The effect recorded for `name`: a builtin, else a user word.
    pub fn get_effect(&self, name: &str) -> (r: Option<&StackEffect>)
        requires
            self.wf(),
        ensures
            match lookup_effect(builtin_table(), self.users(), name@) {
                Some(e) => r matches Some(x) && effect_v(*x) == e,
                None => r is None,
            },
    {
        let key = name.to_owned();
        let ghost t = builtin_table();
        let mut i: usize = 0;
        assert(t.skip(0) =~= t);
        while i < self.builtins.len()
            invariant
                i <= self.builtins.len(),
                self.wf(),
                t == builtin_table(),
                key@ == name@,
                table_lookup(t, name@) == table_lookup(t.skip(i as int), name@),
            decreases self.builtins.len() - i,
        {
            assert(t.skip(i as int).drop_first() =~= t.skip(i + 1));
            assert(t.skip(i as int)[0] == entries(self.builtins@)[i as int]);
            if self.builtins[i].0 == key {
                return Some(&self.builtins[i].1);
            }
            i = i + 1;
        }
        let ghost e = entries(self.user_words@);
        proof { lemma_assoc_map_dom(e, name@); }
        let mut j: usize = 0;
        while j < self.user_words.len()
            invariant
                j <= self.user_words.len(),
                self.wf(),
                t == builtin_table(),
                table_lookup(t, name@) is None,
                key@ == name@,
                e == entries(self.user_words@),
                forall|k: int| 0 <= k < j ==> self.user_words@[k].0@ != name@,
            decreases self.user_words.len() - j,
        {
            if self.user_words[j].0 == key {
                proof {
                    lemma_assoc_map_at(e, j as int);
                    assert(e[j as int].0 == name@);
                }
                return Some(&self.user_words[j].1);
            }
            j = j + 1;
        }
        proof {
            assert forall|k: int| 0 <= k < e.len() implies e[k].0 != name@ by {
                assert(e[k].0 == self.user_words@[k].0@);
            }
        }
        None
    }

    /// The effect of a sequence: how many items it needs below its start
    /// and how many it leaves, all of unknown type. It fails only when the
    /// counts do not fit in `usize`.
    pub fn infer_sequence(&self, words: &Vec<Word>) -> (r: Result<StackEffect, ForthError>)
        requires
            self.wf(),
        ensures
            r matches Ok(e) ==> effect_v(e) == ({
                let c = seq_counts_v(words@, builtin_table(), self.users());
                (unknowns(c.0), unknowns(c.1))
            }),
            r matches Err(e) ==> e is InternalError,
            seq_budget(words@, builtin_table(), self.users()) <= usize::MAX ==> r is Ok,
        decreases words_size(words@), 1int,
    {
        let ghost b = builtin_table();
        let ghost u = self.users();
        let mut depth: usize = 0;
        let mut needed: usize = 0;
        let mut i: usize = 0;
        proof {
            lemma_budget_nonneg_seq(words@, b, u);
            assert(words@.take(0) =~= Seq::<Word>::empty());
        }
        while i < words.len()
            invariant
                i <= words.len(),
                self.wf(),
                b == builtin_table(),
                u == self.users(),
                (needed as int, depth as int) == seq_counts_v(words@.take(i as int), b, u),
                needed + depth <= seq_budget(words@.take(i as int), b, u),
                seq_budget(words@.take(i as int), b, u) <= seq_budget(words@, b, u),
            decreases words.len() - i,
        {
            proof {
                lemma_words_size_prefix(words@, i as int);
                lemma_budget_prefix(words@, i as int, b, u);
                lemma_budget_nonneg_word(words@[i as int], b, u);
                assert(words@.take(i + 1).drop_last() =~= words@.take(i as int));
            }
            let effect = match self.infer_word_effect(&words[i]) {
                Ok(e) => e,
                Err(e) => return Err(e),
            };
            let ins = effect.inputs.len();
            let outs = effect.outputs.len();
            if depth < ins {
                needed = match needed.checked_add(ins - depth) {
                    Some(x) => x,
                    None => return Err(too_large()),
                };
                depth = 0;
            } else {
                depth = depth - ins;
            }
            depth = match depth.checked_add(outs) {
                Some(x) => x,
                None => return Err(too_large()),
            };
            if needed > usize::MAX - depth {
                return Err(too_large());
            }
            i = i + 1;
        }
        assert(words@.take(words.len() as int) =~= words@);
        let inputs = unknown_types(needed);
        let outputs = unknown_types(depth);
        Ok(StackEffect { inputs, outputs })
    }

    /// The effect of one word.
    #[verifier::spinoff_prover]
    #[verifier::rlimit(40)]
    pub fn infer_word_effect(&self, word: &Word) -> (r: Result<StackEffect, ForthError>)
        requires
            self.wf(),
        ensures
            r matches Ok(e) ==> effect_v(e) == word_effect_v(*word, builtin_table(), self.users()),
            r matches Err(e) ==> e is InternalError,
            word_budget(*word, builtin_table(), self.users()) <= usize::MAX ==> r is Ok,
        decreases word_size(*word), 0int,
    {
        let ghost b = builtin_table();
        let ghost u = self.users();
        proof { lemma_budget_nonneg_word(*word, b, u); }
        match word {
            Word::IntLiteral(_) | Word::FloatLiteral(_) | Word::StringLiteral(_) => {
                let mut outputs: Vec<StackType> = Vec::new();
                outputs.push(StackType::Unknown);
                let e = StackEffect { inputs: Vec::new(), outputs };
                assert(effect_v(e).0 =~= seq![]);
                assert(effect_v(e).1 =~= seq![TypeV::Unknown]);
                Ok(e)
            }
            Word::WordRef { name, .. } => {
                match self.get_effect(name.as_str()) {
                    Some(e) => Ok(e.duplicate()),
                    None => {
                        let e = StackEffect { inputs: Vec::new(), outputs: Vec::new() };
                        assert(effect_v(e).0 =~= seq![]);
                        assert(effect_v(e).1 =~= seq![]);
                        Ok(e)
                    }
                }
            }
            Word::If { then_branch, else_branch } => {
                proof {
                    lemma_budget_nonneg_seq(then_branch@, b, u);
                    match else_branch { Some(x) => lemma_budget_nonneg_seq(x@, b, u), None => {} }
                }
                let then_effect = match self.infer_sequence(then_branch) {
                    Ok(e) => e,
                    Err(e) => return Err(e),
                };
                let else_inputs: usize = match else_branch {
                    Some(else_words) => match self.infer_sequence(else_words) {
                        Ok(e) => {
                            assert(types_v(e.inputs@).len() == e.inputs@.len());
                            e.inputs.len()
                        },
                        Err(e) => return Err(e),
                    },
                    None => 0,
                };
                let ti = then_effect.inputs.len();
                proof {
                    assert(types_v(then_effect.inputs@).len() == then_effect.inputs@.len());
                    assert(ti == seq_counts_v(then_branch@, b, u).0);
                    match else_branch {
                        Some(x) => assert(else_inputs == seq_counts_v(x@, b, u).0),
                        None => assert(else_inputs == 0),
                    }
                }
                let m = if ti >= else_inputs { ti } else { else_inputs };
                let mut inputs = unknown_types(m);
                let ghost rest = inputs@;
                inputs.insert(0, StackType::Bool);
                assert(types_v(inputs@) =~= seq![TypeV::Bool] + types_v(rest));
                let outputs = unknown_types(then_effect.outputs.len());
                proof {
                    assert(types_v(then_effect.inputs@).len() == then_effect.inputs@.len());
                    assert(types_v(then_effect.outputs@).len() == then_effect.outputs@.len());
                }
                Ok(StackEffect { inputs, outputs })
            }
            Word::BeginUntil { body } => {
                proof { lemma_budget_nonneg_seq(body@, b, u); }
                let body_effect = match self.infer_sequence(body) {
                    Ok(e) => e,
                    Err(e) => return Err(e),
                };
                let mut inputs = unknown_types(body_effect.inputs.len());
                let ghost before = inputs@;
                inputs.push(StackType::Bool);
                assert(types_v(inputs@) =~= types_v(before).push(TypeV::Bool));
                let outputs = unknown_types(body_effect.outputs.len());
                Ok(StackEffect { inputs, outputs })
            }
            Word::BeginWhileRepeat { condition, body } => {
                proof {
                    lemma_budget_nonneg_seq(condition@, b, u);
                    lemma_budget_nonneg_seq(body@, b, u);
                }
                let cond_effect = match self.infer_sequence(condition) {
                    Ok(e) => e,
                    Err(e) => return Err(e),
                };
                let body_effect = match self.infer_sequence(body) {
                    Ok(e) => e,
                    Err(e) => return Err(e),
                };
                let ci = cond_effect.inputs.len();
                let bi = body_effect.inputs.len();
                if ci > usize::MAX - bi {
                    return Err(too_large());
                }
                let inputs = unknown_types(ci + bi);
                assert(unknowns((ci + bi) as int) =~= unknowns(ci as int) + unknowns(bi as int));
                let outputs = unknown_types(body_effect.outputs.len());
                Ok(StackEffect { inputs, outputs })
            }
            Word::DoLoop { body, .. } => {
                proof { lemma_budget_nonneg_seq(body@, b, u); }
                let body_effect = match self.infer_sequence(body) {
                    Ok(e) => e,
                    Err(e) => return Err(e),
                };
                let bi = body_effect.inputs.len();
                let mut inputs = unknown_types(bi);
                let ghost rest = inputs@;
                inputs.insert(0, StackType::Int);
                inputs.insert(0, StackType::Int);
                assert(types_v(inputs@) =~= seq![TypeV::Int, TypeV::Int] + types_v(rest));
                let outputs = unknown_types(body_effect.outputs.len());
                Ok(StackEffect { inputs, outputs })
            }
            Word::Variable { .. } | Word::Constant { .. } => {
                let mut outputs: Vec<StackType> = Vec::new();
                outputs.push(StackType::Addr);
                let e = StackEffect { inputs: Vec::new(), outputs };
                assert(effect_v(e).0 =~= seq![]);
                assert(effect_v(e).1 =~= seq![TypeV::Addr]);
                Ok(e)
            }
            Word::Comment(_) => {
                let e = StackEffect { inputs: Vec::new(), outputs: Vec::new() };
                assert(effect_v(e).0 =~= seq![]);
                assert(effect_v(e).1 =~= seq![]);
                Ok(e)
            }
        }
    }
}

/// Records `e` as the effect of `name`, replacing an earlier one.
fn insert_effect(v: &mut Vec<(String, StackEffect)>, name: String, e: StackEffect)
    requires
        distinct_keys(entries(old(v)@)),
    ensures
        distinct_keys(entries(final(v)@)),
        effects_view(final(v)@) == effects_view(old(v)@).insert(name@, effect_v(e)),
{
    let ghost e0 = entries(v@);
    let ghost en = (name@, effect_v(e));
    let mut i: usize = 0;
    while i < v.len()
        invariant
            i <= v.len(),
            v@ == old(v)@,
            e0 == entries(v@),
            en == (name@, effect_v(e)),
            distinct_keys(e0),
            forall|j: int| 0 <= j < i ==> v@[j].0@ != name@,
        decreases v.len() - i,
    {
        if v[i].0 == name {
            assert(e0[i as int].0 == name@);
            let ghost ev = effect_v(e);
            v.set(i, (name, e));
            proof {
                assert(en == (v@[i as int].0@, ev));
                lemma_assoc_map_update(e0, i as int, en);
                assert(entries(v@) =~= e0.update(i as int, en));
            }
            return;
        }
        i = i + 1;
    }
    v.push((name, e));
    proof {
        let e1 = entries(v@);
        assert(e1 =~= e0.push(en));
        assert(e1.drop_last() =~= e0);
        assert forall|j: int| 0 <= j < e0.len() implies e0[j].0 != en.0 by {
            assert(e0[j].0 == old(v)@[j].0@);
        }
        lemma_distinct_push(e0, en);
    }
}

/// The effect recorded for a definition: its declared effect, or the one
/// inferred from its body with the user effects `u`.
pub open spec fn definition_effect(d: Definition, u: Map<Seq<char>, EffectV>) -> EffectV {
    match d.stack_effect {
        Some(e) => effect_v(e),
        None => {
            let c = seq_counts_v(d.body@, builtin_table(), u);
            (unknowns(c.0), unknowns(c.1))
        },
    }
}

/// The user word effects after recording the first `n` definitions of `defs`
/// into `u`, each by `definition_effect`.
pub open spec fn users_after(u: Map<Seq<char>, EffectV>, defs: Seq<Definition>, n: int) -> Map<Seq<char>, EffectV>
    decreases n,
{
    if n <= 0 {
        u
    } else {
        let prev = users_after(u, defs, n - 1);
        prev.insert(defs[n - 1].name@, definition_effect(defs[n - 1], prev))
    }
}

/// Definition `i` has a declared effect or a body whose inference fits the budget.
pub open spec fn def_fits(u: Map<Seq<char>, EffectV>, defs: Seq<Definition>, i: int) -> bool {
    defs[i].stack_effect is Some || seq_budget(defs[i].body@, builtin_table(), users_after(u, defs, i)) <= usize::MAX
}

impl StackEffectInference {
    /// Records the effect of a user definition: the declared one, or else
    /// the one inferred from its body.
    pub fn add_definition(&mut self, def: &Definition) -> (r: Result<(), ForthError>)
        requires
            old(self).wf(),
        ensures
            final(self).wf(),
            r is Ok ==> final(self).users() == old(self).users().insert(def.name@, definition_effect(*def, old(self).users())),
            r is Err ==> final(self).users() == old(self).users(),
            r matches Err(e) ==> e is InternalError,
            (def.stack_effect is Some || seq_budget(def.body@, builtin_table(), old(self).users()) <= usize::MAX) ==> r is Ok,
    {
        let effect = match &def.stack_effect {
            Some(declared) => declared.duplicate(),
            None => match self.infer_sequence(&def.body) {
                Ok(e) => e,
                Err(e) => return Err(e),
            },
        };
        proof {
            if def.stack_effect is Some {
                let d = def.stack_effect->0;
                assert(effect_v(effect).0 =~= effect_v(d).0);
                assert(effect_v(effect).1 =~= effect_v(d).1);
            }
        }
        insert_effect(&mut self.user_words, def.name.clone(), effect);
        Ok(())
    }

    /// Records the effects of every definition of a program, in order, and
    /// returns the effect recorded for each definition's name.
    pub fn analyze_program(&mut self, program: &Program) -> (r: Result<Vec<(String, StackEffect)>, ForthError>)
        requires
            old(self).wf(),
        ensures
            final(self).wf(),
            r matches Ok(v) ==> {
                &&& distinct_keys(entries(v@))
                &&& forall|n: Seq<char>| #[trigger] effects_view(v@).dom().contains(n)
                    <==> exists|i: int| 0 <= i < program.definitions@.len() && program.definitions@[i].name@ == n
                &&& forall|n: Seq<char>| #[trigger] effects_view(v@).dom().contains(n)
                    ==> final(self).users().dom().contains(n) && effects_view(v@)[n] == final(self).users()[n]
                &&& final(self).users() == users_after(old(self).users(), program.definitions@, program.definitions@.len() as int)
            },
            r matches Err(e) ==> e is InternalError
                && exists|i: int| 0 <= i < program.definitions@.len() && !#[trigger] def_fits(old(self).users(), program.definitions@, i),
            (forall|i: int| 0 <= i < program.definitions@.len() ==> #[trigger] def_fits(old(self).users(), program.definitions@, i)) ==> r is Ok,
    {
        let ghost u0 = self.users();
        let mut effects: Vec<(String, StackEffect)> = Vec::new();
        assert(entries(effects@).len() == 0);
        let mut i: usize = 0;
        while i < program.definitions.len()
            invariant
                i <= program.definitions.len(),
                self.wf(),
                distinct_keys(entries(effects@)),
                forall|n: Seq<char>| #[trigger] effects_view(effects@).dom().contains(n)
                    <==> exists|k: int| 0 <= k < i && program.definitions@[k].name@ == n,
                forall|n: Seq<char>| #[trigger] effects_view(effects@).dom().contains(n)
                    ==> self.users().dom().contains(n) && effects_view(effects@)[n] == self.users()[n],
                u0 == old(self).users(),
                self.users() == users_after(u0, program.definitions@, i as int),
            decreases program.definitions.len() - i,
        {
            let def = &program.definitions[i];
            match self.add_definition(def) {
                Ok(()) => {}
                Err(e) => {
                    assert(!def_fits(u0, program.definitions@, i as int));
                    return Err(e);
                },
            }
            let ghost before = effects_view(effects@);
            match self.get_user_effect(&def.name) {
                Some(e) => {
                    let copy = e.duplicate();
                    assert(effect_v(copy).0 =~= effect_v(*e).0);
                    assert(effect_v(copy).1 =~= effect_v(*e).1);
                    insert_effect(&mut effects, def.name.clone(), copy);
                }
                None => {}
            }
            proof {
                assert forall|n: Seq<char>| #[trigger] effects_view(effects@).dom().contains(n)
                    <==> exists|k: int| 0 <= k < i + 1 && program.definitions@[k].name@ == n by {
                    if n == def.name@ {
                        assert(program.definitions@[i as int].name@ == n);
                    } else if exists|k: int| 0 <= k < i + 1 && program.definitions@[k].name@ == n {
                        let k = choose|k: int| 0 <= k < i + 1 && program.definitions@[k].name@ == n;
                        assert(k < i);
                    }
                }
            }
            i = i + 1;
        }
        Ok(effects)
    }

    /// The effect recorded for the user word `name`.
    fn get_user_effect(&self, name: &String) -> (r: Option<&StackEffect>)
        requires
            self.wf(),
        ensures
            match r {
                Some(x) => self.users().dom().contains(name@) && effect_v(*x) == self.users()[name@],
                None => !self.users().dom().contains(name@),
            },
    {
        let ghost e = entries(self.user_words@);
        proof { lemma_assoc_map_dom(e, name@); }
        let mut j: usize = 0;
        while j < self.user_words.len()
            invariant
                j <= self.user_words.len(),
                self.wf(),
                e == entries(self.user_words@),
                forall|k: int| 0 <= k < j ==> self.user_words@[k].0@ != name@,
            decreases self.user_words.len() - j,
        {
            if self.user_words[j].0 == *name {
                proof {
                    lemma_assoc_map_at(e, j as int);
                    assert(e[j as int].0 == name@);
                }
                return Some(&self.user_words[j].1);
            }
            j = j + 1;
        }
        proof {
            assert forall|k: int| 0 <= k < e.len() implies e[k].0 != name@ by {
                assert(e[k].0 == self.user_words@[k].0@);
            }
        }
        None
    }
}

impl Default for StackEffectInference {
    fn default() -> (r: Self)
        ensures
            r.wf(),
            r.user_words@.len() == 0,
    {
        StackEffectInference::new()
    }
}


/// The builtin words and the words they are told apart from, by their
/// lengths and first characters.
proof fn lemma_builtin_word_chars()
    ensures
        "+"@.len() == 1 && "+"@[0] == '+',
        "-"@.len() == 1 && "-"@[0] == '-',
        "*"@.len() == 1 && "*"@[0] == '*',
        "/"@.len() == 1 && "/"@[0] == '/',
        "mod"@.len() == 3 && "mod"@[0] == 'm' && "mod"@[1] == 'o',
        "/mod"@.len() == 4 && "/mod"@[0] == '/' && "/mod"@[1] == 'm',
        "dup"@.len() == 3 && "dup"@[0] == 'd' && "dup"@[1] == 'u',
        "drop"@.len() == 4 && "drop"@[0] == 'd' && "drop"@[1] == 'r',
        "swap"@.len() == 4 && "swap"@[0] == 's' && "swap"@[1] == 'w',
        "over"@.len() == 4 && "over"@[0] == 'o' && "over"@[1] == 'v',
        "rot"@.len() == 3 && "rot"@[0] == 'r' && "rot"@[1] == 'o',
        "<"@.len() == 1 && "<"@[0] == '<',
        ">"@.len() == 1 && ">"@[0] == '>',
        "="@.len() == 1 && "="@[0] == '=',
        "<="@.len() == 2 && "<="@[0] == '<' && "<="@[1] == '=',
        ">="@.len() == 2 && ">="@[0] == '>' && ">="@[1] == '=',
        "<>"@.len() == 2 && "<>"@[0] == '<' && "<>"@[1] == '>',
        "and"@.len() == 3 && "and"@[0] == 'a' && "and"@[1] == 'n',
        "or"@.len() == 2 && "or"@[0] == 'o' && "or"@[1] == 'r',
        "not"@.len() == 3 && "not"@[0] == 'n' && "not"@[1] == 'o',
        "invert"@.len() == 6 && "invert"@[0] == 'i' && "invert"@[1] == 'n',
        "."@.len() == 1 && "."@[0] == '.',
        "emit"@.len() == 4 && "emit"@[0] == 'e' && "emit"@[1] == 'm',
        "cr"@.len() == 2 && "cr"@[0] == 'c' && "cr"@[1] == 'r',
        "@"@.len() == 1 && "@"@[0] == '@',
        "!"@.len() == 1 && "!"@[0] == '!',
        "c@"@.len() == 2 && "c@"@[0] == 'c' && "c@"@[1] == '@',
        "c!"@.len() == 2 && "c!"@[0] == 'c' && "c!"@[1] == '!',
        "negate"@.len() == 6 && "negate"@[0] == 'n' && "negate"@[1] == 'e',
        "abs"@.len() == 3 && "abs"@[0] == 'a' && "abs"@[1] == 'b',
        "min"@.len() == 3 && "min"@[0] == 'm' && "min"@[1] == 'i',
        "max"@.len() == 3 && "max"@[0] == 'm' && "max"@[1] == 'a',
        "1+"@.len() == 2 && "1+"@[0] == '1' && "1+"@[1] == '+',
        "1-"@.len() == 2 && "1-"@[0] == '1' && "1-"@[1] == '-',
        "2*"@.len() == 2 && "2*"@[0] == '2' && "2*"@[1] == '*',
        "2/"@.len() == 2 && "2/"@[0] == '2' && "2/"@[1] == '/',
{
    reveal_strlit("+");
    reveal_strlit("-");
    reveal_strlit("*");
    reveal_strlit("/");
    reveal_strlit("mod");
    reveal_strlit("/mod");
    reveal_strlit("dup");
    reveal_strlit("drop");
    reveal_strlit("swap");
    reveal_strlit("over");
    reveal_strlit("rot");
    reveal_strlit("<");
    reveal_strlit(">");
    reveal_strlit("=");
    reveal_strlit("<=");
    reveal_strlit(">=");
    reveal_strlit("<>");
    reveal_strlit("and");
    reveal_strlit("or");
    reveal_strlit("not");
    reveal_strlit("invert");
    reveal_strlit(".");
    reveal_strlit("emit");
    reveal_strlit("cr");
    reveal_strlit("@");
    reveal_strlit("!");
    reveal_strlit("c@");
    reveal_strlit("c!");
    reveal_strlit("negate");
    reveal_strlit("abs");
    reveal_strlit("min");
    reveal_strlit("max");
    reveal_strlit("1+");
    reveal_strlit("1-");
    reveal_strlit("2*");
    reveal_strlit("2/");
}

/// A type of the table and a type of type inference are of one kind: both
/// type variables, or the same fixed type.
pub open spec fn same_kind(tv: TypeV, st: StackType) -> bool {
    match st {
        StackType::Var(_) => tv is Var,
        _ => tv == type_v(st),
    }
}

/// Two lists of types have the same shape: the same length, types of one
/// kind at each position, and equal types at exactly the same pairs of
/// positions.
pub open spec fn same_shape(tvs: Seq<TypeV>, sts: Seq<StackType>) -> bool {
    &&& tvs.len() == sts.len()
    &&& forall|j: int| 0 <= j < tvs.len() ==> same_kind(#[trigger] tvs[j], sts[j])
    &&& forall|j1: int, j2: int| 0 <= j1 < tvs.len() && 0 <= j2 < tvs.len() ==>
            ((#[trigger] tvs[j1] == #[trigger] tvs[j2]) <==> (sts[j1] == sts[j2]))
}

/// The builtin effects agree with the types that type inference gives the
/// same words: as many inputs and as many outputs, with the same fixed types
/// and the same pattern of type variables.
pub proof fn law_builtins_agree_with_type_inference(k: int, n: int)
    requires
        0 <= k < builtin_table().len(),
        0 <= n,
        n + 3 <= usize::MAX,
    ensures
        builtin_spec(builtin_table()[k].0, n) matches Ok((_, ins, outs))
            && ins.len() == builtin_table()[k].1.0.len()
            && outs.len() == builtin_table()[k].1.1.len()
            && same_shape(builtin_table()[k].1.0 + builtin_table()[k].1.1, ins + outs),
{
    lemma_builtin_word_chars();
    if k == 0 {
    }
    else if k == 1 {
    }
    else if k == 2 {
    }
    else if k == 3 {
    }
    else if k == 4 {
    }
    else if k == 5 {
    }
    else if k == 6 {
    }
    else if k == 7 {
    }
    else if k == 8 {
    }
    else if k == 9 {
    }
    else if k == 10 {
    }
    else if k == 11 {
    }
    else if k == 12 {
    }
    else if k == 13 {
    }
    else if k == 14 {
    }
    else if k == 15 {
    }
    else if k == 16 {
    }
    else if k == 17 {
    }
    else if k == 18 {
    }
    else if k == 19 {
    }
    else if k == 20 {
    }
    else if k == 21 {
    }
    else if k == 22 {
    }
    else if k == 23 {
    }
    else if k == 24 {
    }
    else if k == 25 {
    }
    else if k == 26 {
    }
    else if k == 27 {
    }
    else if k == 28 {
    }
    else if k == 29 {
    }
    else if k == 30 {
    }
    else if k == 31 {
    }
}

/// SSA conversion, where it counts the parameters of a builtin word, counts
/// the inputs and outputs that the table gives it.
pub proof fn law_builtins_agree_with_ssa_counts(k: int)
    requires
        0 <= k < builtin_table().len(),
        word_stack_effect(builtin_table()[k].0) != (0int, 0int),
    ensures
        word_stack_effect(builtin_table()[k].0)
            == (builtin_table()[k].1.0.len() as int, builtin_table()[k].1.1.len() as int),
{
    lemma_builtin_word_chars();
    if k == 0 {
    }
    else if k == 1 {
    }
    else if k == 2 {
    }
    else if k == 3 {
    }
    else if k == 4 {
    }
    else if k == 5 {
    }
    else if k == 6 {
    }
    else if k == 7 {
    }
    else if k == 8 {
    }
    else if k == 9 {
    }
    else if k == 10 {
    }
    else if k == 11 {
    }
    else if k == 12 {
    }
    else if k == 13 {
    }
    else if k == 14 {
    }
    else if k == 15 {
    }
    else if k == 16 {
    }
    else if k == 17 {
    }
    else if k == 18 {
    }
    else if k == 19 {
    }
    else if k == 20 {
    }
    else if k == 21 {
    }
    else if k == 22 {
    }
    else if k == 23 {
    }
    else if k == 24 {
    }
    else if k == 25 {
    }
    else if k == 26 {
    }
    else if k == 27 {
    }
    else if k == 28 {
    }
    else if k == 29 {
    }
    else if k == 30 {
    }
    else if k == 31 {
    }
}


/// The builtin words and the IR keywords, told apart by their lengths and
/// first characters.
proof fn lemma_keyword_chars()
    ensures
        "+"@.len() == 1 && "+"@[0] == '+',
        "-"@.len() == 1 && "-"@[0] == '-',
        "*"@.len() == 1 && "*"@[0] == '*',
        "/"@.len() == 1 && "/"@[0] == '/',
        "mod"@.len() == 3 && "mod"@[0] == 'm' && "mod"@[1] == 'o',
        "/mod"@.len() == 4 && "/mod"@[0] == '/' && "/mod"@[1] == 'm',
        "dup"@.len() == 3 && "dup"@[0] == 'd' && "dup"@[1] == 'u',
        "drop"@.len() == 4 && "drop"@[0] == 'd' && "drop"@[1] == 'r',
        "swap"@.len() == 4 && "swap"@[0] == 's' && "swap"@[1] == 'w',
        "over"@.len() == 4 && "over"@[0] == 'o' && "over"@[1] == 'v',
        "rot"@.len() == 3 && "rot"@[0] == 'r' && "rot"@[1] == 'o',
        "<"@.len() == 1 && "<"@[0] == '<',
        ">"@.len() == 1 && ">"@[0] == '>',
        "="@.len() == 1 && "="@[0] == '=',
        "<="@.len() == 2 && "<="@[0] == '<' && "<="@[1] == '=',
        ">="@.len() == 2 && ">="@[0] == '>' && ">="@[1] == '=',
        "<>"@.len() == 2 && "<>"@[0] == '<' && "<>"@[1] == '>',
        "and"@.len() == 3 && "and"@[0] == 'a' && "and"@[1] == 'n',
        "or"@.len() == 2 && "or"@[0] == 'o' && "or"@[1] == 'r',
        "not"@.len() == 3 && "not"@[0] == 'n' && "not"@[1] == 'o',
        "invert"@.len() == 6 && "invert"@[0] == 'i' && "invert"@[1] == 'n',
        "."@.len() == 1 && "."@[0] == '.',
        "emit"@.len() == 4 && "emit"@[0] == 'e' && "emit"@[1] == 'm',
        "cr"@.len() == 2 && "cr"@[0] == 'c' && "cr"@[1] == 'r',
        "@"@.len() == 1 && "@"@[0] == '@',
        "!"@.len() == 1 && "!"@[0] == '!',
        "c@"@.len() == 2 && "c@"@[0] == 'c' && "c@"@[1] == '@',
        "c!"@.len() == 2 && "c!"@[0] == 'c' && "c!"@[1] == '!',
        "negate"@.len() == 6 && "negate"@[0] == 'n' && "negate"@[1] == 'e',
        "abs"@.len() == 3 && "abs"@[0] == 'a' && "abs"@[1] == 'b',
        "min"@.len() == 3 && "min"@[0] == 'm' && "min"@[1] == 'i',
        "max"@.len() == 3 && "max"@[0] == 'm' && "max"@[1] == 'a',
        "nip"@.len() == 3 && "nip"@[0] == 'n' && "nip"@[1] == 'i',
        "tuck"@.len() == 4 && "tuck"@[0] == 't' && "tuck"@[1] == 'u',
        "&"@.len() == 1 && "&"@[0] == '&',
        "|"@.len() == 1 && "|"@[0] == '|',
        "^"@.len() == 1 && "^"@[0] == '^',
        "xor"@.len() == 3 && "xor"@[0] == 'x' && "xor"@[1] == 'o',
        "~"@.len() == 1 && "~"@[0] == '~',
        "<<"@.len() == 2 && "<<"@[0] == '<' && "<<"@[1] == '<',
        "lshift"@.len() == 6 && "lshift"@[0] == 'l' && "lshift"@[1] == 's',
        ">>"@.len() == 2 && ">>"@[0] == '>' && ">>"@[1] == '>',
        "rshift"@.len() == 6 && "rshift"@[0] == 'r' && "rshift"@[1] == 's',
        "0="@.len() == 2 && "0="@[0] == '0' && "0="@[1] == '=',
        "0<"@.len() == 2 && "0<"@[0] == '0' && "0<"@[1] == '<',
        "0>"@.len() == 2 && "0>"@[0] == '0' && "0>"@[1] == '>',
        "return"@.len() == 6 && "return"@[0] == 'r' && "return"@[1] == 'e',
        "fetch"@.len() == 5 && "fetch"@[0] == 'f' && "fetch"@[1] == 'e',
        "store"@.len() == 5 && "store"@[0] == 's' && "store"@[1] == 't',
{
    reveal_strlit("+");
    reveal_strlit("-");
    reveal_strlit("*");
    reveal_strlit("/");
    reveal_strlit("mod");
    reveal_strlit("/mod");
    reveal_strlit("dup");
    reveal_strlit("drop");
    reveal_strlit("swap");
    reveal_strlit("over");
    reveal_strlit("rot");
    reveal_strlit("<");
    reveal_strlit(">");
    reveal_strlit("=");
    reveal_strlit("<=");
    reveal_strlit(">=");
    reveal_strlit("<>");
    reveal_strlit("and");
    reveal_strlit("or");
    reveal_strlit("not");
    reveal_strlit("invert");
    reveal_strlit(".");
    reveal_strlit("emit");
    reveal_strlit("cr");
    reveal_strlit("@");
    reveal_strlit("!");
    reveal_strlit("c@");
    reveal_strlit("c!");
    reveal_strlit("negate");
    reveal_strlit("abs");
    reveal_strlit("min");
    reveal_strlit("max");
    reveal_strlit("nip");
    reveal_strlit("tuck");
    reveal_strlit("&");
    reveal_strlit("|");
    reveal_strlit("^");
    reveal_strlit("xor");
    reveal_strlit("~");
    reveal_strlit("<<");
    reveal_strlit("lshift");
    reveal_strlit(">>");
    reveal_strlit("rshift");
    reveal_strlit("0=");
    reveal_strlit("0<");
    reveal_strlit("0>");
    reveal_strlit("return");
    reveal_strlit("fetch");
    reveal_strlit("store");
}

/// The builtin effects agree in their counts with the stack effects of the
/// IR instructions that the same words read as.
pub proof fn law_builtins_agree_with_instruction_effects(k: int)
    requires
        0 <= k < builtin_table().len(),
        keyword_instruction(builtin_table()[k].0) is Some,
    ensures
        instr_effect(keyword_instruction(builtin_table()[k].0)->0).consumed == builtin_table()[k].1.0.len(),
        instr_effect(keyword_instruction(builtin_table()[k].0)->0).produced == builtin_table()[k].1.1.len(),
{
    lemma_keyword_chars();
    if k == 0 {
    }
    else if k == 1 {
    }
    else if k == 2 {
    }
    else if k == 3 {
    }
    else if k == 4 {
    }
    else if k == 5 {
    }
    else if k == 6 {
    }
    else if k == 7 {
    }
    else if k == 8 {
    }
    else if k == 9 {
    }
    else if k == 10 {
    }
    else if k == 11 {
    }
    else if k == 12 {
    }
    else if k == 13 {
    }
    else if k == 14 {
    }
    else if k == 15 {
    }
    else if k == 16 {
    }
    else if k == 17 {
    }
    else if k == 18 {
    }
    else if k == 19 {
    }
    else if k == 20 {
    }
    else if k == 21 {
    }
    else if k == 22 {
    }
    else if k == 23 {
    }
    else if k == 24 {
    }
    else if k == 25 {
    }
    else if k == 26 {
    }
    else if k == 27 {
    }
    else if k == 28 {
    }
    else if k == 29 {
    }
    else if k == 30 {
    }
    else if k == 31 {
    }
}

} // verus!
