//! The type specializer: it profiles how each word is used with concrete
//! types, builds one specialized copy of a word per signature, and rewrites
//! call sites to the specialized copies.
use vstd::prelude::*;
use crate::text::push_str;
use crate::optimizer::error::OptimizerError;
use crate::optimizer::ir::{Instruction, WordDef, ForthIR, copy_instructions, names_distinct, word_index};
use crate::optimizer::type_specialization::{
    ConcreteType, TypeSignature, TypeInferenceResults, mangled, copy_types,
};

verus! {

/// A signature taken by its contents.
pub type SigView = (Seq<ConcreteType>, Seq<ConcreteType>);

pub open spec fn sig_view(s: TypeSignature) -> SigView {
    (s.inputs@, s.outputs@)
}

pub open spec fn is_numeric(t: ConcreteType) -> bool {
    t == ConcreteType::Int || t == ConcreteType::Float
}

/// The first numeric type of `ts`, if any.
pub open spec fn first_numeric(ts: Seq<ConcreteType>) -> Option<ConcreteType>
    decreases ts.len(),
{
    if ts.len() == 0 {
        None
    } else if is_numeric(ts[0]) {
        Some(ts[0])
    } else {
        first_numeric(ts.drop_first())
    }
}

/// The type that drives specialization: the first numeric input, else the
/// first numeric output, else `Int`.
pub open spec fn primary_type(s: SigView) -> ConcreteType {
    match first_numeric(s.0) {
        Some(t) => t,
        None => match first_numeric(s.1) {
            Some(t) => t,
            None => ConcreteType::Int,
        },
    }
}

/// Some input or output type is numeric.
pub open spec fn has_numeric(s: SigView) -> bool {
    first_numeric(s.0) is Some || first_numeric(s.1) is Some
}

/// `r` is `i` specialized for the primary type `p`: every instruction keeps
/// its form (the back end picks integer or floating-point machine
/// instructions from the type), so the specialized word computes what the
/// original does.
pub open spec fn specialized_as(i: Instruction, p: ConcreteType, r: Instruction) -> bool {
    r == i
}

/// The first numeric type of a list.
fn first_numeric_of(ts: &Vec<ConcreteType>) -> (r: Option<ConcreteType>)
    ensures
        r == first_numeric(ts@),
{
    let mut i: usize = 0;
    assert(ts@.skip(0) =~= ts@);
    while i < ts.len()
        invariant
            i <= ts.len(),
            first_numeric(ts@) == first_numeric(ts@.skip(i as int)),
        decreases ts.len() - i,
    {
        assert(ts@.skip(i as int).drop_first() =~= ts@.skip(i + 1));
        if ts[i].needs_specialization() {
            return Some(ts[i]);
        }
        i = i + 1;
    }
    None
}

/// The type that drives the specialization of a signature.
pub fn get_primary_type(signature: &TypeSignature) -> (r: ConcreteType)
    ensures
        r == primary_type(sig_view(*signature)),
{
    match first_numeric_of(&signature.inputs) {
        Some(t) => t,
        None => match first_numeric_of(&signature.outputs) {
            Some(t) => t,
            None => ConcreteType::Int,
        },
    }
}

/// Specializes one instruction for a signature. Every operation keeps its
/// form: arithmetic, comparison, stack, memory and fused operations alike are
/// typed by the signature's primary type at code generation.
pub fn specialize_instruction(inst: &Instruction, signature: &TypeSignature) -> (r: Instruction)
    ensures
        specialized_as(*inst, primary_type(sig_view(*signature)), r),
        r == *inst,
{
    inst.duplicate()
}

/// The two signatures have the same inputs and outputs.
pub fn same_signature(a: &TypeSignature, b: &TypeSignature) -> (r: bool)
    ensures
        r == (sig_view(*a) == sig_view(*b)),
{
    same_types(&a.inputs, &b.inputs) && same_types(&a.outputs, &b.outputs)
}

/// The list holds the type `t`.
fn types_contain(v: &Vec<ConcreteType>, t: ConcreteType) -> (r: bool)
    ensures
        r == v@.contains(t),
{
    let mut i: usize = 0;
    while i < v.len()
        invariant
            i <= v.len(),
            forall|j: int| 0 <= j < i ==> v@[j] != t,
        decreases v.len() - i,
    {
        if v[i] == t {
            assert(v@[i as int] == t);
            return true;
        }
        i = i + 1;
    }
    false
}

/// The two lists hold the same types in the same order.
fn same_types(a: &Vec<ConcreteType>, b: &Vec<ConcreteType>) -> (r: bool)
    ensures
        r == (a@ == b@),
{
    if a.len() != b.len() {
        return false;
    }
    let mut i: usize = 0;
    while i < a.len()
        invariant
            i <= a.len(),
            a.len() == b.len(),
            forall|j: int| 0 <= j < i ==> a@[j] == b@[j],
        decreases a.len() - i,
    {
        if a[i] != b[i] {
            return false;
        }
        i = i + 1;
    }
    assert(a@ =~= b@);
    true
}

/// The signatures of a list, taken by their contents.
pub open spec fn sig_views(sigs: Seq<TypeSignature>) -> Seq<SigView> {
    sigs.map_values(|s: TypeSignature| sig_view(s))
}

/// `sigs` with `s` added unless it is already there.
pub open spec fn add_sig(sigs: Seq<SigView>, s: SigView) -> Seq<SigView> {
    if sigs.contains(s) { sigs } else { sigs.push(s) }
}

/// Some signature of the list has a numeric type.
pub open spec fn any_numeric(sigs: Seq<SigView>) -> bool {
    exists|i: int| 0 <= i < sigs.len() && has_numeric(#[trigger] sigs[i])
}

/// How a word is used: the distinct signatures it was seen with and the
/// number of uses.
#[derive(Debug, Clone)]
pub struct UsageProfile {
    pub word_name: String,
    pub signatures: Vec<TypeSignature>,
    pub call_count: usize,
    pub is_polymorphic: bool,
}

impl UsageProfile {
    /// The signatures are distinct, and the word is polymorphic exactly when
    /// it was seen with more than one.
    pub open spec fn consistent(&self) -> bool {
        &&& sig_views(self.signatures@).no_duplicates()
        &&& self.is_polymorphic == (self.signatures@.len() > 1)
    }

    pub fn new(word_name: String) -> (r: Self)
        ensures
            r.word_name == word_name,
            r.signatures@.len() == 0,
            r.call_count == 0,
            !r.is_polymorphic,
            r.consistent(),
    {
        let r = UsageProfile { word_name, signatures: Vec::new(), call_count: 0, is_polymorphic: false };
        assert(sig_views(r.signatures@) =~= Seq::<SigView>::empty());
        r
    }

    /// Records one use with `sig`.
    pub fn add_signature(&mut self, sig: TypeSignature)
        requires
            old(self).consistent(),
            old(self).call_count < usize::MAX,
        ensures
            final(self).consistent(),
            final(self).word_name == old(self).word_name,
            sig_views(final(self).signatures@) == add_sig(sig_views(old(self).signatures@), sig_view(sig)),
            final(self).call_count == old(self).call_count + 1,
    {
        let ghost old_views = sig_views(self.signatures@);
        let mut found = false;
        let mut i: usize = 0;
        while i < self.signatures.len()
            invariant
                i <= self.signatures.len(),
                sig_views(self.signatures@) == old_views,
                !found ==> forall|j: int| 0 <= j < i ==> old_views[j] != sig_view(sig),
                found ==> old_views.contains(sig_view(sig)),
            decreases self.signatures.len() - i,
        {
            if !found && same_signature(&self.signatures[i], &sig) {
                found = true;
                assert(old_views[i as int] == sig_view(sig));
            }
            i = i + 1;
        }
        if !found {
            let ghost before = self.signatures@;
            self.signatures.push(sig);
            assert(sig_views(self.signatures@) =~= old_views.push(sig_view(sig)));
            assert(!old_views.contains(sig_view(sig))) by {
                if old_views.contains(sig_view(sig)) {
                    let j = choose|j: int| 0 <= j < old_views.len() && old_views[j] == sig_view(sig);
                    assert(old_views[j] != sig_view(sig));
                }
            }
        }
        self.call_count = self.call_count + 1;
        if self.signatures.len() > 1 {
            self.is_polymorphic = true;
        }
    }

    /// A word is specialized when it is used more than once, with at least one
    /// signature, and either with several signatures or with a numeric type.
    pub fn should_specialize(&self) -> (r: bool)
        requires
            self.consistent(),
        ensures
            r == (self.call_count > 1 && self.signatures@.len() > 0
                && (self.is_polymorphic || any_numeric(sig_views(self.signatures@)))),
    {
        if self.call_count <= 1 || self.signatures.len() == 0 {
            return false;
        }
        if self.is_polymorphic {
            return true;
        }
        let mut i: usize = 0;
        while i < self.signatures.len()
            invariant
                i <= self.signatures.len(),
                self.call_count > 1,
                self.signatures@.len() > 0,
                !self.is_polymorphic,
                forall|j: int| 0 <= j < i ==> !has_numeric(#[trigger] sig_views(self.signatures@)[j]),
            decreases self.signatures.len() - i,
        {
            let s = &self.signatures[i];
            let numeric = first_numeric_of(&s.inputs).is_some() || first_numeric_of(&s.outputs).is_some();
            assert(sig_views(self.signatures@)[i as int] == sig_view(*s));
            if numeric {
                assert(sig_views(self.signatures@)[i as int] == sig_view(*s));
                assert(has_numeric(sig_views(self.signatures@)[i as int]));
                assert(any_numeric(sig_views(self.signatures@)));
                return true;
            }
            i = i + 1;
        }
        false
    }
}

/// The instructions of a word specialized for the primary type `p`.
pub open spec fn specialized_body(body: Seq<Instruction>, p: ConcreteType, r: Seq<Instruction>) -> bool {
    &&& r.len() == body.len()
    &&& forall|k: int| 0 <= k < body.len() ==> specialized_as(body[k], p, #[trigger] r[k])
}

/// `r` is `word` specialized for `sig`.
pub open spec fn specialized_word(word: WordDef, sig: SigView, r: WordDef) -> bool {
    &&& r.name@ == mangled(word.name@, sig.0)
    &&& specialized_body(word.instructions@, primary_type(sig), r.instructions@)
    &&& r.stack_effect == word.stack_effect
    &&& r.is_inline == word.is_inline
    &&& r.cost == word.cost
}

/// The copy of `word` specialized for `signature`, under its mangled name.
pub fn specialize_word(word: &WordDef, signature: &TypeSignature) -> (r: WordDef)
    ensures
        specialized_word(*word, sig_view(*signature), r),
{
    let name = signature.mangle_name(word.name.as_str());
    let mut instructions: Vec<Instruction> = Vec::new();
    let mut i: usize = 0;
    while i < word.instructions.len()
        invariant
            i <= word.instructions.len(),
            specialized_body(word.instructions@.take(i as int), primary_type(sig_view(*signature)), instructions@),
        decreases word.instructions.len() - i,
    {
        let inst = specialize_instruction(&word.instructions[i], signature);
        instructions.push(inst);
        i = i + 1;
    }
    assert(word.instructions@.take(word.instructions.len() as int) =~= word.instructions@);
    WordDef {
        name,
        instructions,
        stack_effect: word.stack_effect,
        is_inline: word.is_inline,
        cost: word.cost,
    }
}

pub proof fn lemma_pos_from_none(ps: Seq<ProfileView>, name: Seq<char>, i: int, a: int)
    requires
        0 <= i <= a < ps.len(),
        ps[a].0 == name,
    ensures
        profile_pos_from(ps, name, i) is Some,
    decreases a - i,
{
    if ps[i].0 != name {
        lemma_pos_from_none(ps, name, i + 1, a);
    }
}

/// A profile taken by its contents: name, distinct signatures, uses.
pub type ProfileView = (Seq<char>, Seq<SigView>, int);

/// One use of a word with a signature.
pub type UseEvent = (Seq<char>, SigView);

pub open spec fn profile_view(p: UsageProfile) -> ProfileView {
    (p.word_name@, sig_views(p.signatures@), p.call_count as int)
}

pub open spec fn profile_views(ps: Seq<UsageProfile>) -> Seq<ProfileView> {
    ps.map_values(|p: UsageProfile| profile_view(p))
}

/// The first position at or after `i` of the profile named `name`.
pub open spec fn profile_pos_from(ps: Seq<ProfileView>, name: Seq<char>, i: int) -> Option<int>
    decreases ps.len() - i,
{
    if i < 0 || i >= ps.len() {
        None
    } else if ps[i].0 == name {
        Some(i)
    } else {
        profile_pos_from(ps, name, i + 1)
    }
}

pub open spec fn profile_pos(ps: Seq<ProfileView>, name: Seq<char>) -> Option<int> {
    profile_pos_from(ps, name, 0)
}

/// The profiles after one more use.
pub open spec fn record(ps: Seq<ProfileView>, e: UseEvent) -> Seq<ProfileView> {
    match profile_pos(ps, e.0) {
        Some(i) => ps.update(i, (e.0, add_sig(ps[i].1, e.1), ps[i].2 + 1)),
        None => ps.push((e.0, seq![e.1], 1)),
    }
}

/// The profiles after the uses `es`, in order.
pub open spec fn record_all(ps: Seq<ProfileView>, es: Seq<UseEvent>) -> Seq<ProfileView>
    decreases es.len(),
{
    if es.len() == 0 {
        ps
    } else {
        record(record_all(ps, es.drop_last()), es.last())
    }
}

pub proof fn lemma_record_all_concat(ps: Seq<ProfileView>, a: Seq<UseEvent>, b: Seq<UseEvent>)
    ensures
        record_all(ps, a + b) == record_all(record_all(ps, a), b),
    decreases b.len(),
{
    if b.len() == 0 {
        assert(a + b =~= a);
    } else {
        assert((a + b).drop_last() =~= a + b.drop_last());
        lemma_record_all_concat(ps, a, b.drop_last());
    }
}

/// The typed call sites of a sequence, as uses: each `Call` at an index with
/// a recorded call-site signature.
pub open spec fn site_events(s: Seq<Instruction>, ti: TypeInferenceResults) -> Seq<UseEvent>
    decreases s.len(),
{
    if s.len() == 0 {
        Seq::empty()
    } else {
        let k = (s.len() - 1) as usize;
        site_events(s.drop_last(), ti) + match s.last() {
            Instruction::Call(n) => if ti.sites_view().dom().contains(k) {
                seq![(n@, sig_view(ti.sites_view()[k]))]
            } else {
                Seq::empty()
            },
            _ => Seq::empty(),
        }
    }
}

/// The uses recorded for the word `n` among the word signatures `e`, in order.
pub open spec fn name_events(e: Seq<(Seq<char>, TypeSignature)>, n: Seq<char>) -> Seq<UseEvent>
    decreases e.len(),
{
    if e.len() == 0 {
        Seq::empty()
    } else {
        name_events(e.drop_last(), n) + if e.last().0 == n {
            seq![(n, sig_view(e.last().1))]
        } else {
            Seq::empty()
        }
    }
}

/// The uses found in the words `ws`: for each word, the signatures recorded
/// for it, then its typed call sites.
pub open spec fn word_events(ws: Seq<WordDef>, ti: TypeInferenceResults) -> Seq<UseEvent>
    decreases ws.len(),
{
    if ws.len() == 0 {
        Seq::empty()
    } else {
        let w = ws.last();
        word_events(ws.drop_last(), ti)
            + name_events(ti.words_view(), w.name@)
            + site_events(w.instructions@, ti)
    }
}

/// Call-site types recorded by the specializer, by instruction index.
pub open spec fn site_type_view(v: Seq<(usize, TypeSignature)>) -> Map<usize, SigView> {
    crate::optimizer::type_specialization::assoc_map(
        v.map_values(|e: (usize, TypeSignature)| (e.0, sig_view(e.1))))
}

/// The typed call sites of `s`, by index.
pub open spec fn typed_sites(s: Seq<Instruction>, ti: TypeInferenceResults) -> Map<usize, SigView> {
    Map::new(
        |k: usize| k < s.len() && s[k as int] is Call && ti.sites_view().dom().contains(k),
        |k: usize| sig_view(ti.sites_view()[k]),
    )
}

/// Number of uses the analysis of the words `ws` can record at most, where
/// `m` word signatures are recorded.
pub open spec fn analysis_size(ws: Seq<WordDef>, m: nat) -> int
    decreases ws.len(),
{
    if ws.len() == 0 {
        0
    } else {
        analysis_size(ws.drop_last(), m) + m + ws.last().instructions@.len()
    }
}

pub proof fn lemma_analysis_size_nonneg(ws: Seq<WordDef>, m: nat)
    ensures
        analysis_size(ws, m) >= 0,
    decreases ws.len(),
{
    if ws.len() > 0 {
        lemma_analysis_size_nonneg(ws.drop_last(), m);
    }
}

pub proof fn lemma_analysis_size_prefix(ws: Seq<WordDef>, m: nat, i: int)
    requires
        0 <= i < ws.len(),
    ensures
        analysis_size(ws.take(i), m) + m + ws[i].instructions@.len() == analysis_size(ws.take(i + 1), m),
        analysis_size(ws.take(i + 1), m) <= analysis_size(ws, m),
    decreases ws.len() - i,
{
    assert(ws.take(i + 1).drop_last() =~= ws.take(i));
    if i + 1 < ws.len() {
        lemma_analysis_size_prefix(ws, m, i + 1);
    } else {
        assert(ws.take(i + 1) =~= ws);
    }
}

/// The call-site types after profiling the bodies of `ws`, in order.
pub open spec fn apply_sites(c: Map<usize, SigView>, ws: Seq<WordDef>, ti: TypeInferenceResults) -> Map<usize, SigView>
    decreases ws.len(),
{
    if ws.len() == 0 {
        c
    } else {
        apply_sites(c, ws.drop_last(), ti).union_prefer_right(typed_sites(ws.last().instructions@, ti))
    }
}

/// Number of polymorphic profiles.
pub open spec fn polymorphic_count(ps: Seq<ProfileView>) -> int
    decreases ps.len(),
{
    if ps.len() == 0 {
        0
    } else {
        polymorphic_count(ps.drop_last()) + if ps.last().1.len() > 1 { 1int } else { 0int }
    }
}

/// The profile is one whose word gets specialized (see `should_specialize`).
pub open spec fn pv_should(p: ProfileView) -> bool {
    p.2 > 1 && p.1.len() > 0 && (p.1.len() > 1 || any_numeric(p.1))
}

/// The first profile at or after `i` that must be specialized but names no word of `ws`.
pub open spec fn first_missing_from(ps: Seq<ProfileView>, ws: Seq<WordDef>, i: int) -> Option<int>
    decreases ps.len() - i,
{
    if i < 0 || i >= ps.len() {
        None
    } else if pv_should(ps[i]) && word_index(ws, ps[i].0) is None {
        Some(i)
    } else {
        first_missing_from(ps, ws, i + 1)
    }
}

pub open spec fn first_missing(ps: Seq<ProfileView>, ws: Seq<WordDef>) -> Option<int> {
    first_missing_from(ps, ws, 0)
}

/// The signature mentions the type `t`.
pub open spec fn sig_has(s: SigView, t: ConcreteType) -> bool {
    s.0.contains(t) || s.1.contains(t)
}

/// Number of signatures mentioning `t`.
pub open spec fn count_with(sigs: Seq<SigView>, t: ConcreteType) -> int
    decreases sigs.len(),
{
    if sigs.len() == 0 {
        0
    } else {
        count_with(sigs.drop_last(), t) + if sig_has(sigs.last(), t) { 1int } else { 0int }
    }
}

/// Counts over the profiles that get specialized: specializations, those
/// mentioning `Int`, those mentioning `Float`, and those of polymorphic words.
pub open spec fn gen_counts(ps: Seq<ProfileView>) -> (int, int, int, int)
    decreases ps.len(),
{
    if ps.len() == 0 {
        (0, 0, 0, 0)
    } else {
        let c = gen_counts(ps.drop_last());
        let p = ps.last();
        if pv_should(p) {
            (c.0 + p.1.len(), c.1 + count_with(p.1, ConcreteType::Int), c.2 + count_with(p.1, ConcreteType::Float),
                c.3 + if p.1.len() > 1 { p.1.len() as int } else { 0int })
        } else {
            c
        }
    }
}

/// The position of the list of specializations of `n`, at or after `i`.
pub open spec fn list_pos_from(v: Seq<(String, Vec<(TypeSignature, WordDef)>)>, n: Seq<char>, i: int) -> Option<int>
    decreases v.len() - i,
{
    if i < 0 || i >= v.len() {
        None
    } else if v[i].0@ == n {
        Some(i)
    } else {
        list_pos_from(v, n, i + 1)
    }
}

/// The specializations recorded for the word `n`.
pub open spec fn spec_list(v: Seq<(String, Vec<(TypeSignature, WordDef)>)>, n: Seq<char>) -> Seq<(TypeSignature, WordDef)> {
    match list_pos_from(v, n, 0) {
        Some(i) => v[i].1@,
        None => Seq::empty(),
    }
}

pub proof fn lemma_list_pos_found(v: Seq<(String, Vec<(TypeSignature, WordDef)>)>, n: Seq<char>, i: int, a: int)
    requires
        0 <= i <= a < v.len(),
        v[a].0@ == n,
        forall|x: int, y: int| 0 <= x < v.len() && 0 <= y < v.len() && x != y ==> v[x].0@ != v[y].0@,
    ensures
        list_pos_from(v, n, i) == Some(a),
    decreases a - i,
{
    if i < a {
        assert(v[i].0@ != v[a].0@);
        lemma_list_pos_found(v, n, i + 1, a);
    }
}

pub proof fn lemma_list_pos_absent(v: Seq<(String, Vec<(TypeSignature, WordDef)>)>, n: Seq<char>, i: int)
    requires
        0 <= i <= v.len(),
        forall|x: int| i <= x < v.len() ==> v[x].0@ != n,
    ensures
        list_pos_from(v, n, i) is None,
    decreases v.len() - i,
{
    if i < v.len() {
        lemma_list_pos_absent(v, n, i + 1);
    }
}

pub proof fn lemma_profile_pos_found(ps: Seq<ProfileView>, n: Seq<char>, i: int, a: int)
    requires
        0 <= i <= a < ps.len(),
        ps[a].0 == n,
        forall|x: int, y: int| 0 <= x < ps.len() && 0 <= y < ps.len() && x != y ==> ps[x].0 != ps[y].0,
    ensures
        profile_pos_from(ps, n, i) == Some(a),
    decreases a - i,
{
    if i < a {
        assert(ps[i].0 != ps[a].0);
        lemma_profile_pos_found(ps, n, i + 1, a);
    }
}

pub proof fn lemma_list_pos_prefix(v: Seq<(String, Vec<(TypeSignature, WordDef)>)>,
    w: Seq<(String, Vec<(TypeSignature, WordDef)>)>, n: Seq<char>, i: int)
    requires
        0 <= i,
        w.len() >= v.len(),
        forall|x: int| 0 <= x < v.len() ==> #[trigger] w[x].0@ == v[x].0@,
        list_pos_from(v, n, i) is Some || forall|x: int| v.len() <= x < w.len() ==> #[trigger] w[x].0@ != n,
    ensures
        list_pos_from(w, n, i) == list_pos_from(v, n, i),
    decreases w.len() - i,
{
    if i < v.len() {
        assert(w[i].0@ == v[i].0@);
        if v[i].0@ != n {
            lemma_list_pos_prefix(v, w, n, i + 1);
        }
    } else if i < w.len() {
        assert(w[i].0@ != n);
        lemma_list_pos_prefix(v, w, n, i + 1);
    }
}

pub proof fn lemma_list_pos_in_range(v: Seq<(String, Vec<(TypeSignature, WordDef)>)>, n: Seq<char>, i: int)
    ensures
        list_pos_from(v, n, i) matches Some(a) ==> i <= a < v.len(),
    decreases v.len() - i,
{
    if 0 <= i < v.len() && v[i].0@ != n {
        lemma_list_pos_in_range(v, n, i + 1);
    }
}

pub proof fn lemma_list_pos_name(v: Seq<(String, Vec<(TypeSignature, WordDef)>)>, n: Seq<char>, i: int)
    ensures
        list_pos_from(v, n, i) matches Some(a) ==> v[a].0@ == n,
    decreases v.len() - i,
{
    if 0 <= i < v.len() && v[i].0@ != n {
        lemma_list_pos_name(v, n, i + 1);
    }
}

/// The last profile, among the first `ps.len()`, whose word gets specialized.
pub open spec fn last_should(ps: Seq<ProfileView>) -> Option<int>
    decreases ps.len(),
{
    if ps.len() == 0 {
        None
    } else if pv_should(ps.last()) {
        Some(ps.len() - 1)
    } else {
        last_should(ps.drop_last())
    }
}

/// Total cost of a list of specializations.
pub open spec fn cost_total(l: Seq<(TypeSignature, WordDef)>) -> int
    decreases l.len(),
{
    if l.len() == 0 {
        0
    } else {
        cost_total(l.drop_last()) + l.last().1.cost
    }
}

/// The word named `n` in `ws`.
pub open spec fn word_named(ws: Seq<WordDef>, n: Seq<char>) -> WordDef {
    ws[word_index(ws, n)->0]
}

/// The specializations of each profiled word after generation: the words
/// whose profile calls for it get one specialization per signature.
pub open spec fn lists_after(old_v: Seq<(String, Vec<(TypeSignature, WordDef)>)>,
    new_v: Seq<(String, Vec<(TypeSignature, WordDef)>)>, ps: Seq<ProfileView>, upto: int, ws: Seq<WordDef>) -> bool
{
    forall|n: Seq<char>| #![trigger spec_list(new_v, n)]
        match profile_pos(ps, n) {
            Some(k) => if k < upto && pv_should(ps[k]) {
                extends_with(spec_list(new_v, n), spec_list(old_v, n), word_named(ws, n), ps[k].1)
            } else {
                spec_list(new_v, n) == spec_list(old_v, n)
            },
            None => spec_list(new_v, n) == spec_list(old_v, n),
        }
}

pub proof fn lemma_profile_pos_name(ps: Seq<ProfileView>, n: Seq<char>, i: int)
    ensures
        profile_pos_from(ps, n, i) matches Some(a) ==> 0 <= a < ps.len() && ps[a].0 == n,
    decreases ps.len() - i,
{
    if 0 <= i < ps.len() && ps[i].0 != n {
        lemma_profile_pos_name(ps, n, i + 1);
    }
}

pub proof fn lemma_count_with_prefix(sigs: Seq<SigView>, j: int, t: ConcreteType)
    requires
        0 <= j < sigs.len(),
    ensures
        count_with(sigs.take(j + 1), t) == count_with(sigs.take(j), t) + if sig_has(sigs[j], t) { 1int } else { 0int },
        count_with(sigs.take(j + 1), t) <= count_with(sigs, t),
    decreases sigs.len() - j,
{
    assert(sigs.take(j + 1).drop_last() =~= sigs.take(j));
    if j + 1 < sigs.len() {
        lemma_count_with_prefix(sigs, j + 1, t);
        lemma_count_with_nonneg(sigs.take(j + 1), t);
    } else {
        assert(sigs.take(j + 1) =~= sigs);
    }
}

pub proof fn lemma_count_with_nonneg(sigs: Seq<SigView>, t: ConcreteType)
    ensures
        0 <= count_with(sigs, t) <= sigs.len(),
    decreases sigs.len(),
{
    if sigs.len() > 0 {
        lemma_count_with_nonneg(sigs.drop_last(), t);
    }
}

pub proof fn lemma_gen_counts_prefix(ps: Seq<ProfileView>, i: int)
    requires
        0 <= i < ps.len(),
    ensures
        gen_counts(ps.take(i + 1)) == ({
            let c = gen_counts(ps.take(i));
            let p = ps[i];
            if pv_should(p) {
                (c.0 + p.1.len(), c.1 + count_with(p.1, ConcreteType::Int), c.2 + count_with(p.1, ConcreteType::Float),
                    c.3 + if p.1.len() > 1 { p.1.len() as int } else { 0int })
            } else {
                c
            }
        }),
{
    assert(ps.take(i + 1).drop_last() =~= ps.take(i));
}

pub proof fn lemma_gen_counts_nonneg(ps: Seq<ProfileView>)
    ensures
        gen_counts(ps).0 >= 0 && gen_counts(ps).1 >= 0 && gen_counts(ps).2 >= 0 && gen_counts(ps).3 >= 0,
    decreases ps.len(),
{
    if ps.len() > 0 {
        lemma_gen_counts_nonneg(ps.drop_last());
        lemma_count_with_nonneg(ps.last().1, ConcreteType::Int);
        lemma_count_with_nonneg(ps.last().1, ConcreteType::Float);
    }
}

pub proof fn lemma_gen_counts_mono(ps: Seq<ProfileView>, i: int)
    requires
        0 <= i <= ps.len(),
    ensures
        gen_counts(ps.take(i)).0 <= gen_counts(ps).0,
        gen_counts(ps.take(i)).1 <= gen_counts(ps).1,
        gen_counts(ps.take(i)).2 <= gen_counts(ps).2,
        gen_counts(ps.take(i)).3 <= gen_counts(ps).3,
    decreases ps.len() - i,
{
    if i == ps.len() {
        assert(ps.take(i) =~= ps);
    } else {
        lemma_gen_counts_prefix(ps, i);
        lemma_gen_counts_mono(ps, i + 1);
        lemma_count_with_nonneg(ps[i].1, ConcreteType::Int);
        lemma_count_with_nonneg(ps[i].1, ConcreteType::Float);
    }
}

/// The name of the first specialization in `l`, from `j` on, for the signature `s`.
pub open spec fn first_match_from(l: Seq<(TypeSignature, WordDef)>, s: SigView, j: int) -> Option<Seq<char>>
    decreases l.len() - j,
{
    if j < 0 || j >= l.len() {
        None
    } else if sig_view(l[j].0) == s {
        Some(l[j].1.name@)
    } else {
        first_match_from(l, s, j + 1)
    }
}

/// The name a call at index `k` is rewritten to, if it is rewritten: the
/// first specialization of the callee for the call site's signature.
pub open spec fn rewrite_target(inst: Instruction, k: int, cst: Map<usize, SigView>,
    v: Seq<(String, Vec<(TypeSignature, WordDef)>)>) -> Option<Seq<char>>
{
    match inst {
        Instruction::Call(n) => if 0 <= k <= usize::MAX && cst.dom().contains(k as usize) {
            first_match_from(spec_list(v, n@), cst[k as usize], 0)
        } else {
            None
        },
        _ => None,
    }
}

/// `r` is `s` with its typed calls rewritten to their specializations.
pub open spec fn rewritten(s: Seq<Instruction>, cst: Map<usize, SigView>,
    v: Seq<(String, Vec<(TypeSignature, WordDef)>)>, r: Seq<Instruction>) -> bool
{
    &&& r.len() == s.len()
    &&& forall|k: int| 0 <= k < s.len() ==> match #[trigger] rewrite_target(s[k], k, cst, v) {
        Some(n) => r[k] matches Instruction::Call(c) && c@ == n,
        None => r[k] == s[k],
    }
}

/// Number of calls of `s` that get rewritten.
pub open spec fn rewrite_count(s: Seq<Instruction>, cst: Map<usize, SigView>,
    v: Seq<(String, Vec<(TypeSignature, WordDef)>)>) -> int
    decreases s.len(),
{
    if s.len() == 0 {
        0
    } else {
        rewrite_count(s.drop_last(), cst, v)
            + if rewrite_target(s.last(), s.len() - 1, cst, v) is Some { 1int } else { 0int }
    }
}

pub proof fn lemma_rewrite_count_bound(s: Seq<Instruction>, cst: Map<usize, SigView>,
    v: Seq<(String, Vec<(TypeSignature, WordDef)>)>)
    ensures
        0 <= rewrite_count(s, cst, v) <= s.len(),
    decreases s.len(),
{
    if s.len() > 0 {
        lemma_rewrite_count_bound(s.drop_last(), cst, v);
    }
}

pub proof fn lemma_extends_push(l: Seq<(TypeSignature, WordDef)>, base: Seq<(TypeSignature, WordDef)>,
    word: WordDef, sigs: Seq<SigView>, j: int, e: (TypeSignature, WordDef))
    requires
        0 <= j < sigs.len(),
        extends_with(l, base, word, sigs.take(j)),
        sig_view(e.0) == sigs[j],
        specialized_word(word, sigs[j], e.1),
    ensures
        extends_with(l.push(e), base, word, sigs.take(j + 1)),
{
    let l2 = l.push(e);
    assert(l2.take(base.len() as int) =~= l.take(base.len() as int));
    assert forall|x: int| 0 <= x < j + 1 implies {
        &&& #[trigger] sig_view(l2[base.len() + x].0) == sigs.take(j + 1)[x]
        &&& specialized_word(word, sigs.take(j + 1)[x], l2[base.len() + x].1)
    } by {
        if x < j {
            assert(sigs.take(j + 1)[x] == sigs.take(j)[x]);
        }
    }
}

/// Number of calls rewritten in the bodies of the words `ws`.
pub open spec fn words_rewrite_count(ws: Seq<WordDef>, cst: Map<usize, SigView>,
    v: Seq<(String, Vec<(TypeSignature, WordDef)>)>) -> int
    decreases ws.len(),
{
    if ws.len() == 0 {
        0
    } else {
        words_rewrite_count(ws.drop_last(), cst, v) + rewrite_count(ws.last().instructions@, cst, v)
    }
}

pub proof fn lemma_words_rewrite_count_bound(ws: Seq<WordDef>, cst: Map<usize, SigView>,
    v: Seq<(String, Vec<(TypeSignature, WordDef)>)>)
    ensures
        0 <= words_rewrite_count(ws, cst, v) <= crate::optimizer::ir::words_instruction_total(ws),
    decreases ws.len(),
{
    if ws.len() > 0 {
        lemma_words_rewrite_count_bound(ws.drop_last(), cst, v);
        lemma_rewrite_count_bound(ws.last().instructions@, cst, v);
    }
}

/// `new_w` is `old_w` with the calls of every body rewritten.
pub open spec fn words_rewritten(old_w: Seq<WordDef>, new_w: Seq<WordDef>, cst: Map<usize, SigView>,
    v: Seq<(String, Vec<(TypeSignature, WordDef)>)>) -> bool
{
    &&& new_w.len() == old_w.len()
    &&& forall|i: int| 0 <= i < old_w.len() ==> {
        &&& (#[trigger] new_w[i]).name == old_w[i].name
        &&& new_w[i].stack_effect == old_w[i].stack_effect
        &&& new_w[i].is_inline == old_w[i].is_inline
        &&& new_w[i].cost == old_w[i].cost
        &&& rewritten(old_w[i].instructions@, cst, v, new_w[i].instructions@)
    }
}

/// A word taken by its contents.
pub type WordView = (Seq<char>, Seq<Instruction>, crate::optimizer::ir::StackEffect, bool, usize);

pub open spec fn wd_view(w: WordDef) -> WordView {
    (w.name@, w.instructions@, w.stack_effect, w.is_inline, w.cost)
}

pub open spec fn wd_views(ws: Seq<WordDef>) -> Seq<WordView> {
    ws.map_values(|w: WordDef| wd_view(w))
}

/// The first position at or after `i` of the word named `n`.
pub open spec fn view_pos_from(ws: Seq<WordView>, n: Seq<char>, i: int) -> Option<int>
    decreases ws.len() - i,
{
    if i < 0 || i >= ws.len() {
        None
    } else if ws[i].0 == n {
        Some(i)
    } else {
        view_pos_from(ws, n, i + 1)
    }
}

/// The words after adding `w`: it replaces the word of its name, or comes last.
pub open spec fn add_view(ws: Seq<WordView>, w: WordView) -> Seq<WordView> {
    match view_pos_from(ws, w.0, 0) {
        Some(i) => ws.update(i, w),
        None => ws.push(w),
    }
}

/// The words after adding each of `adds`, in order.
pub open spec fn add_views(ws: Seq<WordView>, adds: Seq<WordView>) -> Seq<WordView>
    decreases adds.len(),
{
    if adds.len() == 0 {
        ws
    } else {
        add_view(add_views(ws, adds.drop_last()), adds.last())
    }
}

/// Every specialized word, list after list.
pub open spec fn all_specialized(v: Seq<(String, Vec<(TypeSignature, WordDef)>)>) -> Seq<WordDef>
    decreases v.len(),
{
    if v.len() == 0 {
        Seq::empty()
    } else {
        all_specialized(v.drop_last()) + v.last().1@.map_values(|e: (TypeSignature, WordDef)| e.1)
    }
}

pub proof fn lemma_view_pos_index(ws: Seq<WordDef>, n: Seq<char>, i: int)
    requires
        names_distinct(ws),
        0 <= i <= ws.len(),
        forall|x: int| 0 <= x < i ==> ws[x].name@ != n,
    ensures
        view_pos_from(wd_views(ws), n, i) == word_index(ws, n),
    decreases ws.len() - i,
{
    if i < ws.len() {
        if ws[i].name@ == n {
            let c = choose|x: int| 0 <= x < ws.len() && ws[x].name@ == n;
            if c != i { assert(ws[c].name@ != ws[i].name@); }
        } else {
            lemma_view_pos_index(ws, n, i + 1);
        }
    }
}

/// The counters and use counts of a specialization run stay within `usize`.
pub open spec fn specialize_fits(sp: TypeSpecializer, ir: ForthIR, ti: TypeInferenceResults) -> bool {
    let size = ir.main@.len() + analysis_size(ir.words@, ti.word_signatures@.len());
    let pvs = record_all(profile_views(sp.profiles@), site_events(ir.main@, ti) + word_events(ir.words@, ti));
    let c = gen_counts(pvs);
    &&& size < usize::MAX
    &&& forall|i: int| 0 <= i < sp.profiles@.len() ==> (#[trigger] sp.profiles@[i]).call_count + size < usize::MAX
    &&& sp.stats.words_analyzed + ir.words@.len() <= usize::MAX
    &&& sp.stats.specializations_created + c.0 <= usize::MAX
    &&& sp.stats.int_specializations + c.1 <= usize::MAX
    &&& sp.stats.float_specializations + c.2 <= usize::MAX
    &&& sp.stats.dispatch_eliminations + c.3 <= usize::MAX
    &&& sp.stats.call_sites_rewritten + ir.main@.len() + crate::optimizer::ir::words_instruction_total(ir.words@) <= usize::MAX
}

/// `l` is `base` followed by `word` specialized for each signature of `sigs`.
pub open spec fn extends_with(l: Seq<(TypeSignature, WordDef)>, base: Seq<(TypeSignature, WordDef)>,
    word: WordDef, sigs: Seq<SigView>) -> bool
{
    &&& l.len() == base.len() + sigs.len()
    &&& l.take(base.len() as int) == base
    &&& forall|j: int| 0 <= j < sigs.len() ==> {
        &&& #[trigger] sig_view(l[base.len() + j].0) == sigs[j]
        &&& specialized_word(word, sigs[j], l[base.len() + j].1)
    }
}

/// Counters of a specialization run.
#[derive(Debug, Clone, Copy)]
pub struct SpecializationStats {
    pub words_analyzed: usize,
    pub polymorphic_words: usize,
    pub specializations_created: usize,
    pub call_sites_rewritten: usize,
    /// Specializations of polymorphic words, each removing a run-time type dispatch.
    pub dispatch_eliminations: usize,
    pub int_specializations: usize,
    pub float_specializations: usize,
    /// Total cost of the specializations of the last word specialized.
    pub last_specialized_cost: u128,
    /// Number of specializations of the last word specialized.
    pub last_specialization_count: usize,
}

/// All counters at zero.
pub open spec fn zero_stats() -> SpecializationStats {
    SpecializationStats {
        words_analyzed: 0,
        polymorphic_words: 0,
        specializations_created: 0,
        call_sites_rewritten: 0,
        dispatch_eliminations: 0,
        int_specializations: 0,
        float_specializations: 0,
        last_specialized_cost: 0,
        last_specialization_count: 0,
    }
}

impl SpecializationStats {
    pub fn new() -> (r: Self)
        ensures
            r == zero_stats(),
    {
        SpecializationStats {
            words_analyzed: 0,
            polymorphic_words: 0,
            specializations_created: 0,
            call_sites_rewritten: 0,
            dispatch_eliminations: 0,
            int_specializations: 0,
            float_specializations: 0,
            last_specialized_cost: 0,
            last_specialization_count: 0,
        }
    }
}

/// The type specializer.
pub struct TypeSpecializer {
    /// Usage profiles, one per word name, in order of first use.
    pub profiles: Vec<UsageProfile>,
    /// Specialized copies of each word, with the signature of each.
    pub specializations: Vec<(String, Vec<(TypeSignature, WordDef)>)>,
    /// Signatures of typed call sites, by instruction index.
    pub call_site_types: Vec<(usize, TypeSignature)>,
    pub stats: SpecializationStats,
}

impl TypeSpecializer {
    /// Profiles are consistent and keyed by distinct names; call-site
    /// indices are distinct; specialization lists are keyed by distinct names.
    pub open spec fn wf(&self) -> bool {
        &&& forall|i: int| 0 <= i < self.profiles@.len() ==> (#[trigger] self.profiles@[i]).consistent()
        &&& forall|i: int, j: int| 0 <= i < self.profiles@.len() && 0 <= j < self.profiles@.len() && i != j
            ==> self.profiles@[i].word_name@ != self.profiles@[j].word_name@
        &&& crate::optimizer::type_specialization::distinct_keys(
            self.call_site_types@.map_values(|e: (usize, TypeSignature)| (e.0, sig_view(e.1))))
        &&& forall|i: int, j: int| 0 <= i < self.specializations@.len() && 0 <= j < self.specializations@.len() && i != j
            ==> self.specializations@[i].0@ != self.specializations@[j].0@
    }

    pub fn new() -> (r: Self)
        ensures
            r.wf(),
            r.profiles@.len() == 0,
            r.specializations@.len() == 0,
            r.call_site_types@.len() == 0,
            r.stats == zero_stats(),
    {
        let r = TypeSpecializer {
            profiles: Vec::new(),
            specializations: Vec::new(),
            call_site_types: Vec::new(),
            stats: SpecializationStats::new(),
        };
        assert(r.call_site_types@.map_values(|e: (usize, TypeSignature)| (e.0, sig_view(e.1))).len() == 0);
        r
    }

    /// Records one use of the word `name` with `sig`.
    fn record_use(&mut self, name: &String, sig: TypeSignature, Ghost(bound): Ghost<int>)
        requires
            old(self).wf(),
            0 <= bound < usize::MAX,
            forall|i: int| 0 <= i < old(self).profiles@.len() ==> (#[trigger] old(self).profiles@[i]).call_count <= bound,
        ensures
            final(self).wf(),
            profile_views(final(self).profiles@) == record(profile_views(old(self).profiles@), (name@, sig_view(sig))),
            forall|i: int| 0 <= i < final(self).profiles@.len() ==> (#[trigger] final(self).profiles@[i]).call_count <= bound + 1,
            final(self).specializations@ == old(self).specializations@,
            final(self).call_site_types@ == old(self).call_site_types@,
            final(self).stats == old(self).stats,
    {
        let ghost pv = profile_views(self.profiles@);
        let mut i: usize = 0;
        while i < self.profiles.len()
            invariant
                i <= self.profiles.len(),
                self.wf(),
                0 <= bound < usize::MAX,
                forall|a: int| 0 <= a < self.profiles@.len() ==> (#[trigger] self.profiles@[a]).call_count <= bound,
                self.profiles@ == old(self).profiles@,
                self.specializations@ == old(self).specializations@,
                self.call_site_types@ == old(self).call_site_types@,
                self.stats == old(self).stats,
                pv == profile_views(self.profiles@),
                profile_pos(pv, name@) == profile_pos_from(pv, name@, i as int),
            decreases self.profiles.len() - i,
        {
            if self.profiles[i].word_name == *name {
                let ghost before = self.profiles@;
                self.profiles[i].add_signature(sig);
                proof {
                    assert(profile_views(self.profiles@) =~= record(pv, (name@, sig_view(sig))));
                    assert forall|a: int, b: int| 0 <= a < self.profiles@.len() && 0 <= b < self.profiles@.len() && a != b
                        implies self.profiles@[a].word_name@ != self.profiles@[b].word_name@ by {
                        assert(before[a].word_name@ != before[b].word_name@);
                    }
                    assert forall|a: int| 0 <= a < self.profiles@.len() implies (#[trigger] self.profiles@[a]).consistent() by {
                        if a != i { assert(before[a].consistent()); }
                    }
                    assert forall|a: int| 0 <= a < self.profiles@.len() implies (#[trigger] self.profiles@[a]).call_count <= bound + 1 by {
                        assert(before[a].call_count <= bound);
                    }
                }
                return;
            }
            i = i + 1;
        }
        let ghost before = self.profiles@;
        let mut p = UsageProfile::new(name.clone());
        p.add_signature(sig);
        assert(sig_views(p.signatures@) =~= seq![sig_view(sig)]);
        self.profiles.push(p);
        proof {
            assert(profile_views(self.profiles@) =~= record(pv, (name@, sig_view(sig))));
            assert forall|a: int| 0 <= a < before.len() implies before[a].word_name@ != name@ by {
                assert(pv[a].0 == before[a].word_name@);
                if before[a].word_name@ == name@ {
                    lemma_pos_from_none(pv, name@, 0, a);
                }
            }
            assert forall|a: int| 0 <= a < self.profiles@.len() implies (#[trigger] self.profiles@[a]).consistent() by {
                if a < before.len() { assert(before[a].consistent()); }
            }
            assert forall|a: int| 0 <= a < self.profiles@.len() implies (#[trigger] self.profiles@[a]).call_count <= bound + 1 by {
                if a < before.len() { assert(before[a].call_count <= bound); }
            }
        }
    }

    /// Records the signature of the call site at `index`.
    fn set_call_site_type(&mut self, index: usize, sig: TypeSignature)
        requires
            old(self).wf(),
        ensures
            final(self).wf(),
            site_type_view(final(self).call_site_types@) == site_type_view(old(self).call_site_types@).insert(index, sig_view(sig)),
            final(self).profiles@ == old(self).profiles@,
            final(self).specializations@ == old(self).specializations@,
            final(self).stats == old(self).stats,
    {
        let ghost old_e = self.call_site_types@.map_values(|e: (usize, TypeSignature)| (e.0, sig_view(e.1)));
        let mut i: usize = 0;
        while i < self.call_site_types.len()
            invariant
                i <= self.call_site_types.len(),
                self.wf(),
                self.call_site_types@ == old(self).call_site_types@,
                self.profiles@ == old(self).profiles@,
                self.specializations@ == old(self).specializations@,
                self.stats == old(self).stats,
                old_e == self.call_site_types@.map_values(|e: (usize, TypeSignature)| (e.0, sig_view(e.1))),
                forall|j: int| 0 <= j < i ==> self.call_site_types@[j].0 != index,
            decreases self.call_site_types.len() - i,
        {
            if self.call_site_types[i].0 == index {
                let ghost e = (index, sig_view(sig));
                self.call_site_types.set(i, (index, sig));
                proof {
                    crate::optimizer::type_specialization::lemma_assoc_map_update(old_e, i as int, e);
                    assert(self.call_site_types@.map_values(|e: (usize, TypeSignature)| (e.0, sig_view(e.1))) =~= old_e.update(i as int, e));
                }
                return;
            }
            i = i + 1;
        }
        let ghost e = (index, sig_view(sig));
        self.call_site_types.push((index, sig));
        proof {
            let ne = self.call_site_types@.map_values(|e: (usize, TypeSignature)| (e.0, sig_view(e.1)));
            assert(ne =~= old_e.push(e));
            assert(ne.drop_last() =~= old_e);
            crate::optimizer::type_specialization::lemma_distinct_push(old_e, e);
        }
    }

    /// Profiles the typed call sites of a sequence.
    pub fn analyze_sequence(&mut self, instructions: &[Instruction], type_info: &TypeInferenceResults, Ghost(bound): Ghost<int>) -> (r: Result<(), OptimizerError>)
        requires
            old(self).wf(),
            type_info.wf(),
            0 <= bound,
            bound + instructions@.len() < usize::MAX,
            forall|i: int| 0 <= i < old(self).profiles@.len() ==> (#[trigger] old(self).profiles@[i]).call_count <= bound,
        ensures
            r is Ok,
            final(self).wf(),
            profile_views(final(self).profiles@) == record_all(profile_views(old(self).profiles@), site_events(instructions@, *type_info)),
            site_type_view(final(self).call_site_types@)
                == site_type_view(old(self).call_site_types@).union_prefer_right(typed_sites(instructions@, *type_info)),
            forall|i: int| 0 <= i < final(self).profiles@.len() ==> (#[trigger] final(self).profiles@[i]).call_count <= bound + instructions@.len(),
            final(self).specializations@ == old(self).specializations@,
            final(self).stats == old(self).stats,
    {
        let ghost p0 = profile_views(self.profiles@);
        let ghost c0 = site_type_view(self.call_site_types@);
        let mut k: usize = 0;
        while k < instructions.len()
            invariant
                k <= instructions.len(),
                self.wf(),
                type_info.wf(),
                0 <= bound,
                bound + instructions@.len() < usize::MAX,
                profile_views(self.profiles@) == record_all(p0, site_events(instructions@.take(k as int), *type_info)),
                site_type_view(self.call_site_types@) == c0.union_prefer_right(typed_sites(instructions@.take(k as int), *type_info)),
                forall|i: int| 0 <= i < self.profiles@.len() ==> (#[trigger] self.profiles@[i]).call_count <= bound + k,
                self.specializations@ == old(self).specializations@,
                self.stats == old(self).stats,
            decreases instructions.len() - k,
        {
            let ghost s1 = instructions@.take(k + 1);
            proof {
                assert(s1.drop_last() =~= instructions@.take(k as int));
                assert(s1.last() == instructions@[k as int]);
            }
            let ghost ts_k = typed_sites(instructions@.take(k as int), *type_info);
            let ghost ts_k1 = typed_sites(s1, *type_info);
            if let Instruction::Call(name) = &instructions[k] {
                match type_info.call_site_signature(k) {
                    Some(sig) => {
                        self.record_use(name, sig.duplicate(), Ghost(bound + k));
                        self.set_call_site_type(k, sig.duplicate());
                        proof {
                            let ev = site_events(instructions@.take(k as int), *type_info);
                            assert(site_events(s1, *type_info) =~= ev.push((name@, sig_view(*sig))));
                            assert(site_events(s1, *type_info).drop_last() =~= ev);
                            assert(ts_k1 =~= ts_k.insert(k, sig_view(*sig)));
                            assert(c0.union_prefer_right(ts_k1) =~= c0.union_prefer_right(ts_k).insert(k, sig_view(*sig)));
                        }
                    }
                    None => {
                        proof {
                            assert(ts_k1 =~= ts_k);
                            assert(site_events(s1, *type_info) =~= site_events(instructions@.take(k as int), *type_info));
                        }
                    }
                }
            } else {
                proof {
                    assert(ts_k1 =~= ts_k);
                    assert(site_events(s1, *type_info) =~= site_events(instructions@.take(k as int), *type_info));
                }
            }
            k = k + 1;
        }
        assert(instructions@.take(instructions.len() as int) =~= instructions@);
        Ok(())
    }

    /// Profiles how the program uses its words: the typed call sites of the
    /// top-level sequence, then, for each word, the signatures recorded for it and the
    /// typed call sites of its body. Counts the words analyzed and the
    /// polymorphic words.
    pub fn analyze_types(&mut self, ir: &ForthIR, type_info: &TypeInferenceResults) -> (r: Result<(), OptimizerError>)
        requires
            old(self).wf(),
            type_info.wf(),
            ir.main@.len() + analysis_size(ir.words@, type_info.word_signatures@.len()) < usize::MAX,
            forall|i: int| 0 <= i < old(self).profiles@.len()
                ==> (#[trigger] old(self).profiles@[i]).call_count + ir.main@.len() + analysis_size(ir.words@, type_info.word_signatures@.len()) < usize::MAX,
            old(self).stats.words_analyzed + ir.words@.len() <= usize::MAX,
        ensures
            r is Ok,
            final(self).wf(),
            profile_views(final(self).profiles@) == record_all(profile_views(old(self).profiles@),
                site_events(ir.main@, *type_info) + word_events(ir.words@, *type_info)),
            site_type_view(final(self).call_site_types@) == apply_sites(
                site_type_view(old(self).call_site_types@).union_prefer_right(typed_sites(ir.main@, *type_info)),
                ir.words@, *type_info),
            final(self).specializations@ == old(self).specializations@,
            final(self).stats.polymorphic_words == polymorphic_count(profile_views(final(self).profiles@)),
            final(self).stats == (SpecializationStats {
                words_analyzed: (old(self).stats.words_analyzed + ir.words@.len()) as usize,
                polymorphic_words: polymorphic_count(profile_views(final(self).profiles@)) as usize,
                ..old(self).stats
            }),
    {
        let ghost p0 = profile_views(self.profiles@);
        let ghost c0 = site_type_view(self.call_site_types@);
        let ghost total = ir.main@.len() + analysis_size(ir.words@, type_info.word_signatures@.len());
        let ghost b0: int = usize::MAX - 1 - total;
        proof { lemma_analysis_size_nonneg(ir.words@, type_info.word_signatures@.len()); }
        let _ = self.analyze_sequence(&ir.main, type_info, Ghost(b0));
        let ghost ev_main = site_events(ir.main@, *type_info);
        let mut i: usize = 0;
        while i < ir.words.len()
            invariant
                i <= ir.words.len(),
                self.wf(),
                type_info.wf(),
                total == ir.main@.len() + analysis_size(ir.words@, type_info.word_signatures@.len()),
                b0 == usize::MAX - 1 - total,
                0 <= b0,
                forall|a: int| 0 <= a < self.profiles@.len()
                    ==> (#[trigger] self.profiles@[a]).call_count <= b0 + ir.main@.len() + analysis_size(ir.words@.take(i as int), type_info.word_signatures@.len()),
                profile_views(self.profiles@) == record_all(p0, ev_main + word_events(ir.words@.take(i as int), *type_info)),
                site_type_view(self.call_site_types@) == apply_sites(c0.union_prefer_right(typed_sites(ir.main@, *type_info)),
                    ir.words@.take(i as int), *type_info),
                self.specializations@ == old(self).specializations@,
                self.stats == old(self).stats,
                ev_main == site_events(ir.main@, *type_info),
            decreases ir.words.len() - i,
        {
            let ghost ws1 = ir.words@.take(i + 1);
            proof {
                assert(ws1.drop_last() =~= ir.words@.take(i as int));
                lemma_analysis_size_prefix(ir.words@, type_info.word_signatures@.len(), i as int);
                lemma_analysis_size_nonneg(ir.words@.take(i as int), type_info.word_signatures@.len());
            }
            let word = &ir.words[i];
            let ghost before = profile_views(self.profiles@);
            let ghost acc = ev_main + word_events(ir.words@.take(i as int), *type_info);
            let ghost bi = b0 + ir.main@.len() + analysis_size(ir.words@.take(i as int), type_info.word_signatures@.len());
            let ghost m = type_info.word_signatures@.len();
            let ghost wv = type_info.words_view();
            let mut k: usize = 0;
            assert(wv.take(0) =~= Seq::<(Seq<char>, TypeSignature)>::empty());
            assert(acc + name_events(wv.take(0), word.name@) =~= acc);
            while k < type_info.word_signatures.len()
                invariant
                    k <= type_info.word_signatures.len(),
                    m == type_info.word_signatures@.len(),
                    wv == type_info.words_view(),
                    self.wf(),
                    type_info.wf(),
                    0 <= bi,
                    bi + m < usize::MAX,
                    forall|a: int| 0 <= a < self.profiles@.len() ==> (#[trigger] self.profiles@[a]).call_count <= bi + k,
                    profile_views(self.profiles@) == record_all(p0, acc + name_events(wv.take(k as int), word.name@)),
                    site_type_view(self.call_site_types@) == apply_sites(c0.union_prefer_right(typed_sites(ir.main@, *type_info)),
                        ir.words@.take(i as int), *type_info),
                    self.specializations@ == old(self).specializations@,
                    self.stats == old(self).stats,
                decreases type_info.word_signatures.len() - k,
            {
                let ghost pre = acc + name_events(wv.take(k as int), word.name@);
                assert(wv.take(k + 1).drop_last() =~= wv.take(k as int));
                assert(wv.take(k + 1).last() == wv[k as int]);
                if type_info.word_signatures[k].0 == word.name {
                    let sig = type_info.word_signatures[k].1.duplicate();
                    self.record_use(&word.name, sig, Ghost(bi + k));
                    proof {
                        let e = (word.name@, sig_view(wv[k as int].1));
                        assert(sig_view(sig) == e.1);
                        assert((pre + seq![e]).drop_last() =~= pre);
                        assert(acc + name_events(wv.take(k + 1), word.name@) =~= pre + seq![e]);
                    }
                } else {
                    proof {
                        assert(acc + name_events(wv.take(k + 1), word.name@) =~= pre);
                    }
                }
                k = k + 1;
            }
            assert(wv.take(m as int) =~= wv);
            let ghost mid = acc + name_events(wv, word.name@);
            assert(profile_views(self.profiles@) == record_all(p0, mid));
            let _ = self.analyze_sequence(&word.instructions, type_info, Ghost(bi + m));
            proof {
                lemma_record_all_concat(p0, mid, site_events(word.instructions@, *type_info));
                assert(ev_main + word_events(ws1, *type_info) =~= mid + site_events(word.instructions@, *type_info));
            }
            i = i + 1;
        }
        proof {
            assert(ir.words@.take(ir.words.len() as int) =~= ir.words@);
        }
        self.stats.words_analyzed = self.stats.words_analyzed + ir.words.len();
        let mut count: usize = 0;
        let mut j: usize = 0;
        while j < self.profiles.len()
            invariant
                j <= self.profiles.len(),
                self.wf(),
                count == polymorphic_count(profile_views(self.profiles@.take(j as int))),
                count <= j,
            decreases self.profiles.len() - j,
        {
            proof {
                assert(profile_views(self.profiles@.take(j + 1)).drop_last() =~= profile_views(self.profiles@.take(j as int)));
                assert(self.profiles@[j as int].consistent());
            }
            if self.profiles[j].is_polymorphic {
                count = count + 1;
            }
            j = j + 1;
        }
        assert(self.profiles@.take(self.profiles.len() as int) =~= self.profiles@);
        self.stats.polymorphic_words = count;
        Ok(())
    }

    /// Builds, for each profiled word that calls for it, one specialized copy
    /// per signature. Fails on the first such word that the program does not define.
    pub fn generate_specializations(&mut self, ir: &ForthIR) -> (r: Result<(), OptimizerError>)
        requires
            old(self).wf(),
            ir.wf(),
            old(self).stats.specializations_created + gen_counts(profile_views(old(self).profiles@)).0 <= usize::MAX,
            old(self).stats.int_specializations + gen_counts(profile_views(old(self).profiles@)).1 <= usize::MAX,
            old(self).stats.float_specializations + gen_counts(profile_views(old(self).profiles@)).2 <= usize::MAX,
            old(self).stats.dispatch_eliminations + gen_counts(profile_views(old(self).profiles@)).3 <= usize::MAX,
        ensures
            final(self).wf(),
            final(self).profiles@ == old(self).profiles@,
            final(self).call_site_types@ == old(self).call_site_types@,
            final(self).stats.words_analyzed == old(self).stats.words_analyzed,
            final(self).stats.polymorphic_words == old(self).stats.polymorphic_words,
            final(self).stats.call_sites_rewritten == old(self).stats.call_sites_rewritten,
            match first_missing(profile_views(old(self).profiles@), ir.words@) {
                Some(i) => r matches Err(OptimizerError::OptimizationFailed(m))
                    && m@ == "Word not found: "@ + profile_views(old(self).profiles@)[i].0,
                None => {
                    let pvs = profile_views(old(self).profiles@);
                    let c = gen_counts(pvs);
                    &&& r is Ok
                    &&& lists_after(old(self).specializations@, final(self).specializations@, pvs, pvs.len() as int, ir.words@)
                    &&& final(self).stats.specializations_created == old(self).stats.specializations_created + c.0
                    &&& final(self).stats.int_specializations == old(self).stats.int_specializations + c.1
                    &&& final(self).stats.float_specializations == old(self).stats.float_specializations + c.2
                    &&& final(self).stats.dispatch_eliminations == old(self).stats.dispatch_eliminations + c.3
                    &&& match last_should(pvs) {
                        Some(k) => final(self).stats.last_specialized_cost
                                == cost_total(spec_list(final(self).specializations@, pvs[k].0))
                            && final(self).stats.last_specialization_count
                                == spec_list(final(self).specializations@, pvs[k].0).len(),
                        None => final(self).stats.last_specialized_cost == old(self).stats.last_specialized_cost
                            && final(self).stats.last_specialization_count == old(self).stats.last_specialization_count,
                    }
                },
            },
    {
        let ghost pvs = profile_views(self.profiles@);
        let ghost old_v = self.specializations@;
        let ghost old_stats = self.stats;
        let mut profiles: Vec<UsageProfile> = Vec::new();
        std::mem::swap(&mut profiles, &mut self.profiles);
        let ghost old_profiles = profiles@;
        assert(pvs.take(0).len() == 0);
        assert(last_should(pvs.take(0)) is None);
        assert(gen_counts(pvs.take(0)) == (0int, 0int, 0int, 0int));
        assert forall|n: Seq<char>| #![trigger spec_list(self.specializations@, n)]
            match profile_pos(pvs, n) {
                Some(k) => if k < 0 && pv_should(pvs[k]) {
                    extends_with(spec_list(self.specializations@, n), spec_list(old_v, n), word_named(ir.words@, n), pvs[k].1)
                } else {
                    spec_list(self.specializations@, n) == spec_list(old_v, n)
                },
                None => spec_list(self.specializations@, n) == spec_list(old_v, n),
            } by {
            lemma_profile_pos_name(pvs, n, 0);
        }
        let mut i: usize = 0;
        while i < profiles.len()
            invariant
                i <= profiles.len(),
                profiles@ == old_profiles,
                old_profiles == old(self).profiles@,
                old_stats == old(self).stats,
                old_v == old(self).specializations@,
                pvs == profile_views(profiles@),
                self.profiles@.len() == 0,
                self.wf(),
                ir.wf(),
                forall|a: int| 0 <= a < profiles@.len() ==> (#[trigger] profiles@[a]).consistent(),
                forall|a: int, b: int| 0 <= a < profiles@.len() && 0 <= b < profiles@.len() && a != b
                    ==> profiles@[a].word_name@ != profiles@[b].word_name@,
                self.call_site_types@ == old(self).call_site_types@,
                first_missing(pvs, ir.words@) == first_missing_from(pvs, ir.words@, i as int),
                lists_after(old_v, self.specializations@, pvs, i as int, ir.words@),
                self.stats.words_analyzed == old_stats.words_analyzed,
                self.stats.polymorphic_words == old_stats.polymorphic_words,
                self.stats.call_sites_rewritten == old_stats.call_sites_rewritten,
                self.stats.specializations_created == old_stats.specializations_created + gen_counts(pvs.take(i as int)).0,
                self.stats.int_specializations == old_stats.int_specializations + gen_counts(pvs.take(i as int)).1,
                self.stats.float_specializations == old_stats.float_specializations + gen_counts(pvs.take(i as int)).2,
                self.stats.dispatch_eliminations == old_stats.dispatch_eliminations + gen_counts(pvs.take(i as int)).3,
                old_stats.specializations_created + gen_counts(pvs).0 <= usize::MAX,
                old_stats.int_specializations + gen_counts(pvs).1 <= usize::MAX,
                old_stats.float_specializations + gen_counts(pvs).2 <= usize::MAX,
                old_stats.dispatch_eliminations + gen_counts(pvs).3 <= usize::MAX,
                match last_should(pvs.take(i as int)) {
                    Some(k) => self.stats.last_specialized_cost == cost_total(spec_list(self.specializations@, pvs[k].0))
                        && self.stats.last_specialization_count == spec_list(self.specializations@, pvs[k].0).len(),
                    None => self.stats.last_specialized_cost == old_stats.last_specialized_cost
                        && self.stats.last_specialization_count == old_stats.last_specialization_count,
                },
            decreases profiles.len() - i,
        {
            proof {
                assert(pvs.take(i + 1).drop_last() =~= pvs.take(i as int));
                assert(pvs.take(i + 1).last() == pvs[i as int]);
                lemma_gen_counts_prefix(pvs, i as int);
            }
            let profile = &profiles[i];
            proof { assert(profile.consistent()); }
            if !profile.should_specialize() {
                proof {
                    assert forall|n: Seq<char>| #![trigger spec_list(self.specializations@, n)]
                        match profile_pos(pvs, n) {
                            Some(k) => if k < i + 1 && pv_should(pvs[k]) {
                                extends_with(spec_list(self.specializations@, n), spec_list(old_v, n), word_named(ir.words@, n), pvs[k].1)
                            } else {
                                spec_list(self.specializations@, n) == spec_list(old_v, n)
                            },
                            None => spec_list(self.specializations@, n) == spec_list(old_v, n),
                        } by {
                        match profile_pos(pvs, n) {
                            Some(k) => { if k == i { assert(!pv_should(pvs[k])); } }
                            None => {}
                        }
                    }
                }
                i = i + 1;
                continue;
            }
            let word = match ir.get_word(&profile.word_name) {
                Some(w) => w,
                None => {
                    let mut msg = String::new();
                    push_str(&mut msg, "Word not found: ");
                    push_str(&mut msg, profile.word_name.as_str());
                    proof {
                        assert(pv_should(pvs[i as int]));
                        assert(first_missing_from(pvs, ir.words@, i as int) == Some(i as int));
                    }
                    std::mem::swap(&mut profiles, &mut self.profiles);
                    return Err(OptimizerError::OptimizationFailed(msg));
                }
            };
            let ghost name = profile.word_name@;
            let ghost sigs = pvs[i as int].1;
            let ghost start_v = self.specializations@;
            let ghost base = spec_list(start_v, name);
            let ghost s0 = self.stats;
            let poly = profile.is_polymorphic;
            proof {
                lemma_profile_pos_found(pvs, name, 0, i as int);
                assert(base == spec_list(old_v, name));
                assert(sigs.take(0).len() == 0);
                assert(spec_list(self.specializations@, name).take(base.len() as int) =~= base);
                lemma_gen_counts_mono(pvs, i + 1);
            }
            let mut j: usize = 0;
            while j < profile.signatures.len()
                invariant
                    j <= profile.signatures.len(),
                    profile == &profiles@[i as int],
                    sigs == sig_views(profile.signatures@),
                    poly == (sigs.len() > 1),
                    self.profiles@.len() == 0,
                    self.wf(),
                    *word == word_named(ir.words@, name),
                    name == profile.word_name@,
                    self.call_site_types@ == old(self).call_site_types@,
                    base == spec_list(start_v, name),
                    extends_with(spec_list(self.specializations@, name), base, *word, sigs.take(j as int)),
                    forall|n: Seq<char>| n != name ==> #[trigger] spec_list(self.specializations@, n) == spec_list(start_v, n),
                    self.stats.words_analyzed == s0.words_analyzed,
                    self.stats.polymorphic_words == s0.polymorphic_words,
                    self.stats.call_sites_rewritten == s0.call_sites_rewritten,
                    self.stats.last_specialized_cost == s0.last_specialized_cost,
                    self.stats.last_specialization_count == s0.last_specialization_count,
                    self.stats.specializations_created == s0.specializations_created + j,
                    self.stats.int_specializations == s0.int_specializations + count_with(sigs.take(j as int), ConcreteType::Int),
                    self.stats.float_specializations == s0.float_specializations + count_with(sigs.take(j as int), ConcreteType::Float),
                    self.stats.dispatch_eliminations == s0.dispatch_eliminations + if poly { j as int } else { 0int },
                    s0.specializations_created + sigs.len() <= usize::MAX,
                    s0.int_specializations + count_with(sigs, ConcreteType::Int) <= usize::MAX,
                    s0.float_specializations + count_with(sigs, ConcreteType::Float) <= usize::MAX,
                    s0.dispatch_eliminations + (if poly { sigs.len() as int } else { 0int }) <= usize::MAX,
                decreases profile.signatures.len() - j,
            {
                let sig = &profile.signatures[j];
                proof {
                    assert(sigs.take(j + 1).drop_last() =~= sigs.take(j as int));
                    assert(sigs[j as int] == sig_view(*sig));
                    lemma_count_with_prefix(sigs, j as int, ConcreteType::Int);
                    lemma_count_with_prefix(sigs, j as int, ConcreteType::Float);
                }
                let specialized = specialize_word(word, sig);
                let ghost before = spec_list(self.specializations@, name);
                let copy = TypeSignature { inputs: copy_types(&sig.inputs), outputs: copy_types(&sig.outputs) };
                self.push_specialization(&profile.word_name, copy, specialized);
                proof {
                    assert(spec_list(self.specializations@, name) == before.push((copy, specialized)));
                    lemma_extends_push(before, base, *word, sigs, j as int, (copy, specialized));
                }
                self.stats.specializations_created = self.stats.specializations_created + 1;
                if types_contain(&sig.inputs, ConcreteType::Int) || types_contain(&sig.outputs, ConcreteType::Int) {
                    self.stats.int_specializations = self.stats.int_specializations + 1;
                }
                if types_contain(&sig.inputs, ConcreteType::Float) || types_contain(&sig.outputs, ConcreteType::Float) {
                    self.stats.float_specializations = self.stats.float_specializations + 1;
                }
                if poly {
                    self.stats.dispatch_eliminations = self.stats.dispatch_eliminations + 1;
                }
                j = j + 1;
            }
            proof {
                assert(sigs.take(sigs.len() as int) =~= sigs);
            }
            let (total, count) = self.list_totals(&profile.word_name);
            self.stats.last_specialized_cost = total;
            self.stats.last_specialization_count = count;
            proof {
                assert(last_should(pvs.take(i + 1)) == Some(i as int));
                assert forall|n: Seq<char>| #![trigger spec_list(self.specializations@, n)]
                    match profile_pos(pvs, n) {
                        Some(k) => if k < i + 1 && pv_should(pvs[k]) {
                            extends_with(spec_list(self.specializations@, n), spec_list(old_v, n), word_named(ir.words@, n), pvs[k].1)
                        } else {
                            spec_list(self.specializations@, n) == spec_list(old_v, n)
                        },
                        None => spec_list(self.specializations@, n) == spec_list(old_v, n),
                    } by {
                    if n != name {
                        assert(spec_list(self.specializations@, n) == spec_list(start_v, n));
                        match profile_pos(pvs, n) {
                            Some(k) => { if k == i { lemma_profile_pos_name(pvs, n, 0); } }
                            None => {}
                        }
                    }
                }
            }
            i = i + 1;
        }
        std::mem::swap(&mut profiles, &mut self.profiles);
        assert(pvs.take(pvs.len() as int) =~= pvs);
        Ok(())
    }

    /// The recorded signature of the call site at `index`.
    fn site_type(&self, index: usize) -> (r: Option<&TypeSignature>)
        requires
            self.wf(),
        ensures
            match r {
                Some(s) => site_type_view(self.call_site_types@).dom().contains(index)
                    && site_type_view(self.call_site_types@)[index] == sig_view(*s),
                None => !site_type_view(self.call_site_types@).dom().contains(index),
            },
    {
        let ghost e = self.call_site_types@.map_values(|e: (usize, TypeSignature)| (e.0, sig_view(e.1)));
        proof { crate::optimizer::type_specialization::lemma_assoc_map_dom(e, index); }
        let mut i: usize = 0;
        while i < self.call_site_types.len()
            invariant
                i <= self.call_site_types.len(),
                self.wf(),
                e == self.call_site_types@.map_values(|e: (usize, TypeSignature)| (e.0, sig_view(e.1))),
                forall|j: int| 0 <= j < i ==> self.call_site_types@[j].0 != index,
            decreases self.call_site_types.len() - i,
        {
            if self.call_site_types[i].0 == index {
                proof { crate::optimizer::type_specialization::lemma_assoc_map_at(e, i as int); }
                return Some(&self.call_site_types[i].1);
            }
            i = i + 1;
        }
        proof {
            assert forall|j: int| 0 <= j < e.len() implies e[j].0 != index by {
                assert(e[j].0 == self.call_site_types@[j].0);
            }
        }
        None
    }

    /// The name of the first specialization of `name` for `sig`.
    fn find_specialized(&self, name: &String, sig: &TypeSignature) -> (r: Option<String>)
        requires
            self.wf(),
        ensures
            match first_match_from(spec_list(self.specializations@, name@), sig_view(*sig), 0) {
                Some(n) => r matches Some(s) && s@ == n,
                None => r is None,
            },
    {
        let ghost v = self.specializations@;
        let mut k: usize = 0;
        while k < self.specializations.len()
            invariant
                k <= self.specializations.len(),
                self.wf(),
                self.specializations@ == v,
                forall|x: int| 0 <= x < k ==> v[x].0@ != name@,
            decreases self.specializations.len() - k,
        {
            if self.specializations[k].0 == *name {
                proof { lemma_list_pos_found(v, name@, 0, k as int); }
                let l = &self.specializations[k].1;
                let mut j: usize = 0;
                while j < l.len()
                    invariant
                        j <= l.len(),
                        l@ == spec_list(self.specializations@, name@),
                        first_match_from(l@, sig_view(*sig), 0) == first_match_from(l@, sig_view(*sig), j as int),
                    decreases l.len() - j,
                {
                    if same_signature(&l[j].0, sig) {
                        return Some(l[j].1.name.clone());
                    }
                    j = j + 1;
                }
                return None;
            }
            k = k + 1;
        }
        proof { lemma_list_pos_absent(v, name@, 0); }
        None
    }

    /// Rewrites the typed calls of a sequence to their specializations.
    pub fn rewrite_sequence(&mut self, instructions: &mut Vec<Instruction>) -> (r: Result<(), OptimizerError>)
        requires
            old(self).wf(),
            old(self).stats.call_sites_rewritten + old(instructions)@.len() <= usize::MAX,
        ensures
            r is Ok,
            rewritten(old(instructions)@, site_type_view(old(self).call_site_types@), old(self).specializations@, final(instructions)@),
            final(self).stats == (SpecializationStats {
                call_sites_rewritten: (old(self).stats.call_sites_rewritten
                    + rewrite_count(old(instructions)@, site_type_view(old(self).call_site_types@), old(self).specializations@)) as usize,
                ..old(self).stats
            }),
            final(self).profiles@ == old(self).profiles@,
            final(self).specializations@ == old(self).specializations@,
            final(self).call_site_types@ == old(self).call_site_types@,
    {
        let ghost s0 = instructions@;
        let ghost cst = site_type_view(self.call_site_types@);
        let ghost v = self.specializations@;
        let mut k: usize = 0;
        while k < instructions.len()
            invariant
                k <= instructions.len(),
                instructions@.len() == s0.len(),
                self.wf(),
                cst == site_type_view(self.call_site_types@),
                v == self.specializations@,
                self.profiles@ == old(self).profiles@,
                self.call_site_types@ == old(self).call_site_types@,
                self.stats == (SpecializationStats {
                    call_sites_rewritten: (old(self).stats.call_sites_rewritten + rewrite_count(s0.take(k as int), cst, v)) as usize,
                    ..old(self).stats
                }),
                old(self).stats.call_sites_rewritten + s0.len() <= usize::MAX,
                0 <= rewrite_count(s0.take(k as int), cst, v) <= k,
                forall|j: int| k <= j < s0.len() ==> instructions@[j] == s0[j],
                forall|j: int| 0 <= j < k ==> match #[trigger] rewrite_target(s0[j], j, cst, v) {
                    Some(n) => instructions@[j] matches Instruction::Call(c) && c@ == n,
                    None => instructions@[j] == s0[j],
                },
            decreases instructions.len() - k,
        {
            proof {
                assert(s0.take(k + 1).drop_last() =~= s0.take(k as int));
                assert(s0.take(k + 1).last() == s0[k as int]);
            }
            let mut target: Option<String> = None;
            if let Instruction::Call(name) = &instructions[k] {
                if let Some(sig) = self.site_type(k) {
                    target = self.find_specialized(name, sig);
                }
            }
            assert(match rewrite_target(s0[k as int], k as int, cst, v) {
                Some(n) => target matches Some(c) && c@ == n,
                None => target is None,
            });
            if let Some(new_name) = target {
                instructions.set(k, Instruction::Call(new_name));
                self.stats.call_sites_rewritten = self.stats.call_sites_rewritten + 1;
            }
            k = k + 1;
        }
        proof {
            assert(s0.take(s0.len() as int) =~= s0);
        }
        Ok(())
    }

    /// Rewrites the typed calls of the top-level sequence and of every word
    /// to their specializations.
    pub fn rewrite_call_sites(&mut self, ir: &mut ForthIR) -> (r: Result<(), OptimizerError>)
        requires
            old(self).wf(),
            old(ir).wf(),
            old(self).stats.call_sites_rewritten + old(ir).main@.len()
                + crate::optimizer::ir::words_instruction_total(old(ir).words@) <= usize::MAX,
        ensures
            r is Ok,
            final(ir).wf(),
            final(self).stats.call_sites_rewritten == old(self).stats.call_sites_rewritten
                + rewrite_count(old(ir).main@, site_type_view(old(self).call_site_types@), old(self).specializations@)
                + words_rewrite_count(old(ir).words@, site_type_view(old(self).call_site_types@), old(self).specializations@),
            rewritten(old(ir).main@, site_type_view(old(self).call_site_types@), old(self).specializations@, final(ir).main@),
            words_rewritten(old(ir).words@, final(ir).words@, site_type_view(old(self).call_site_types@), old(self).specializations@),
            final(self).stats == (SpecializationStats {
                call_sites_rewritten: (old(self).stats.call_sites_rewritten
                    + rewrite_count(old(ir).main@, site_type_view(old(self).call_site_types@), old(self).specializations@)
                    + words_rewrite_count(old(ir).words@, site_type_view(old(self).call_site_types@), old(self).specializations@)) as usize,
                ..old(self).stats
            }),
            final(self).profiles@ == old(self).profiles@,
            final(self).specializations@ == old(self).specializations@,
            final(self).call_site_types@ == old(self).call_site_types@,
    {
        let ghost cst = site_type_view(self.call_site_types@);
        let ghost v = self.specializations@;
        let ghost ws0 = ir.words@;
        proof {
            lemma_rewrite_count_bound(ir.main@, cst, v);
            lemma_words_rewrite_count_bound(ws0, cst, v);
        }
        let _ = self.rewrite_sequence(&mut ir.main);
        let mut i: usize = 0;
        while i < ir.words.len()
            invariant
                i <= ir.words.len(),
                self.wf(),
                ir.words@.len() == ws0.len(),
                cst == site_type_view(self.call_site_types@),
                v == self.specializations@,
                self.profiles@ == old(self).profiles@,
                self.call_site_types@ == old(self).call_site_types@,
                rewritten(old(ir).main@, cst, v, ir.main@),
                crate::optimizer::ir::names_distinct(ws0),
                words_rewritten(ws0.take(i as int), ir.words@.take(i as int), cst, v),
                forall|j: int| i <= j < ws0.len() ==> ir.words@[j] == ws0[j],
                self.stats == (SpecializationStats {
                    call_sites_rewritten: (old(self).stats.call_sites_rewritten + rewrite_count(old(ir).main@, cst, v)
                        + words_rewrite_count(ws0.take(i as int), cst, v)) as usize,
                    ..old(self).stats
                }),
                old(self).stats.call_sites_rewritten + old(ir).main@.len()
                    + crate::optimizer::ir::words_instruction_total(ws0) <= usize::MAX,
                0 <= rewrite_count(old(ir).main@, cst, v) <= old(ir).main@.len(),
            decreases ir.words.len() - i,
        {
            proof {
                assert(ws0.take(i + 1).drop_last() =~= ws0.take(i as int));
                crate::optimizer::ir::lemma_words_total_prefix(ws0, i + 1);
                assert(crate::optimizer::ir::words_instruction_total(ws0.take(i + 1))
                    == crate::optimizer::ir::words_instruction_total(ws0.take(i as int)) + ws0[i as int].instructions@.len());
                lemma_words_rewrite_count_bound(ws0.take(i as int), cst, v);
                lemma_rewrite_count_bound(ws0[i as int].instructions@, cst, v);
            }
            let ghost before = ir.words@;
            let _ = self.rewrite_sequence(&mut ir.words[i].instructions);
            proof {
                assert(ir.words@.take(i + 1).drop_last() =~= before.take(i as int));
                assert forall|j: int| 0 <= j < i + 1 implies {
                    &&& (#[trigger] ir.words@.take(i + 1)[j]).name == ws0.take(i + 1)[j].name
                    &&& ir.words@.take(i + 1)[j].stack_effect == ws0.take(i + 1)[j].stack_effect
                    &&& ir.words@.take(i + 1)[j].is_inline == ws0.take(i + 1)[j].is_inline
                    &&& ir.words@.take(i + 1)[j].cost == ws0.take(i + 1)[j].cost
                    &&& rewritten(ws0.take(i + 1)[j].instructions@, cst, v, ir.words@.take(i + 1)[j].instructions@)
                } by {
                    if j < i {
                        assert(ir.words@.take(i + 1)[j] == before.take(i as int)[j]);
                        assert(ws0.take(i + 1)[j] == ws0.take(i as int)[j]);
                    }
                }
            }
            i = i + 1;
        }
        proof {
            assert(ws0.take(ws0.len() as int) =~= ws0);
            assert(ir.words@.take(ws0.len() as int) =~= ir.words@);
            lemma_words_rewrite_count_bound(ws0, cst, v);
            assert forall|a: int, b: int| 0 <= a < ir.words@.len() && 0 <= b < ir.words@.len() && a != b
                implies ir.words@[a].name@ != ir.words@[b].name@ by {
                assert(ir.words@[a].name == ws0[a].name);
                assert(ir.words@[b].name == ws0[b].name);
            }
        }
        Ok(())
    }

    /// Adds every specialized word to the program, list after list; a word
    /// replaces any word of the same name.
    pub fn add_specializations_to_ir(&self, ir: &mut ForthIR) -> (r: Result<(), OptimizerError>)
        requires
            old(ir).wf(),
        ensures
            r is Ok,
            final(ir).wf(),
            final(ir).main@ == old(ir).main@,
            wd_views(final(ir).words@) == add_views(wd_views(old(ir).words@), wd_views(all_specialized(self.specializations@))),
    {
        let ghost w0 = wd_views(ir.words@);
        let ghost v = self.specializations@;
        let mut a: usize = 0;
        assert(wd_views(all_specialized(v.take(0))) =~= Seq::<WordView>::empty());
        while a < self.specializations.len()
            invariant
                a <= self.specializations.len(),
                v == self.specializations@,
                ir.wf(),
                ir.main@ == old(ir).main@,
                wd_views(ir.words@) == add_views(w0, wd_views(all_specialized(v.take(a as int)))),
            decreases self.specializations.len() - a,
        {
            let l = &self.specializations[a].1;
            let ghost prev = wd_views(all_specialized(v.take(a as int)));
            let mut b: usize = 0;
            assert(prev + wd_views(l@.take(0).map_values(|e: (TypeSignature, WordDef)| e.1)) =~= prev);
            while b < l.len()
                invariant
                    b <= l.len(),
                    ir.wf(),
                    ir.main@ == old(ir).main@,
                    wd_views(ir.words@) == add_views(w0, prev + wd_views(l@.take(b as int).map_values(|e: (TypeSignature, WordDef)| e.1))),
                decreases l.len() - b,
            {
                let ghost before = ir.words@;
                let w = l[b].1.duplicate();
                let ghost wv = wd_view(w);
                proof {
                    lemma_view_pos_index(before, w.name@, 0);
                }
                ir.add_word(w);
                proof {
                    let xs = prev + wd_views(l@.take(b as int).map_values(|e: (TypeSignature, WordDef)| e.1));
                    let ys = prev + wd_views(l@.take(b + 1).map_values(|e: (TypeSignature, WordDef)| e.1));
                    assert(ys =~= xs.push(wv));
                    assert(ys.drop_last() =~= xs);
                    assert(wd_views(ir.words@) =~= add_view(wd_views(before), wv));
                }
                b = b + 1;
            }
            proof {
                assert(l@.take(l.len() as int) =~= l@);
                assert(v.take(a + 1).drop_last() =~= v.take(a as int));
                assert(wd_views(all_specialized(v.take(a + 1)))
                    =~= prev + wd_views(l@.map_values(|e: (TypeSignature, WordDef)| e.1)));
            }
            a = a + 1;
        }
        assert(v.take(v.len() as int) =~= v);
        Ok(())
    }

    /// The whole specialization: profile the program, build specializations,
    /// rewrite call sites, add the specialized words, and hand back the counters.
    pub fn specialize(&mut self, ir: &mut ForthIR, type_info: &TypeInferenceResults) -> (r: Result<SpecializationStats, OptimizerError>)
        requires
            old(self).wf(),
            old(ir).wf(),
            type_info.wf(),
            specialize_fits(*old(self), *old(ir), *type_info),
        ensures
            final(self).wf(),
            profile_views(final(self).profiles@) == record_all(profile_views(old(self).profiles@),
                site_events(old(ir).main@, *type_info) + word_events(old(ir).words@, *type_info)),
            site_type_view(final(self).call_site_types@) == apply_sites(
                site_type_view(old(self).call_site_types@).union_prefer_right(typed_sites(old(ir).main@, *type_info)),
                old(ir).words@, *type_info),
            final(self).stats.words_analyzed == old(self).stats.words_analyzed + old(ir).words@.len(),
            final(self).stats.polymorphic_words == polymorphic_count(profile_views(final(self).profiles@)),
            match first_missing(profile_views(final(self).profiles@), old(ir).words@) {
                Some(i) => r matches Err(OptimizerError::OptimizationFailed(m))
                    && m@ == "Word not found: "@ + profile_views(final(self).profiles@)[i].0
                    && *final(ir) == *old(ir),
                None => {
                    let pvs = profile_views(final(self).profiles@);
                    let cst = site_type_view(final(self).call_site_types@);
                    let v = final(self).specializations@;
                    let c = gen_counts(pvs);
                    &&& r matches Ok(st) && st == final(self).stats
                    &&& lists_after(old(self).specializations@, v, pvs, pvs.len() as int, old(ir).words@)
                    &&& final(self).stats.specializations_created == old(self).stats.specializations_created + c.0
                    &&& final(self).stats.int_specializations == old(self).stats.int_specializations + c.1
                    &&& final(self).stats.float_specializations == old(self).stats.float_specializations + c.2
                    &&& final(self).stats.dispatch_eliminations == old(self).stats.dispatch_eliminations + c.3
                    &&& final(self).stats.call_sites_rewritten == old(self).stats.call_sites_rewritten
                        + rewrite_count(old(ir).main@, cst, v) + words_rewrite_count(old(ir).words@, cst, v)
                    &&& match last_should(pvs) {
                        Some(k) => final(self).stats.last_specialized_cost == cost_total(spec_list(v, pvs[k].0))
                            && final(self).stats.last_specialization_count == spec_list(v, pvs[k].0).len(),
                        None => final(self).stats.last_specialized_cost == old(self).stats.last_specialized_cost
                            && final(self).stats.last_specialization_count == old(self).stats.last_specialization_count,
                    }
                    &&& final(ir).wf()
                    &&& rewritten(old(ir).main@, cst, v, final(ir).main@)
                    &&& exists|ws: Seq<WordDef>| #[trigger] words_rewritten(old(ir).words@, ws, cst, v)
                        && wd_views(final(ir).words@) == add_views(wd_views(ws), wd_views(all_specialized(v)))
                },
            },
    {
        let _ = self.analyze_types(ir, type_info);
        let ghost s1 = self.stats;
        let ghost v1 = self.specializations@;
        match self.generate_specializations(ir) {
            Ok(()) => {}
            Err(e) => return Err(e),
        }
        let ghost pvs = profile_views(self.profiles@);
        assert(first_missing(pvs, old(ir).words@) is None);
        assert(lists_after(v1, self.specializations@, pvs, pvs.len() as int, old(ir).words@));
        let _ = self.rewrite_call_sites(ir);
        let ghost ws = ir.words@;
        let _ = self.add_specializations_to_ir(ir);
        assert(words_rewritten(old(ir).words@, ws, site_type_view(self.call_site_types@), self.specializations@));
        assert(wd_views(ir.words@) == add_views(wd_views(ws), wd_views(all_specialized(self.specializations@))));
        Ok(self.stats)
    }

    /// Total cost and number of the specializations of the word `name`.
    fn list_totals(&self, name: &String) -> (r: (u128, usize))
        requires
            self.wf(),
        ensures
            r.0 == cost_total(spec_list(self.specializations@, name@)),
            r.1 == spec_list(self.specializations@, name@).len(),
    {
        let ghost v = self.specializations@;
        let mut k: usize = 0;
        while k < self.specializations.len()
            invariant
                k <= self.specializations.len(),
                self.wf(),
                self.specializations@ == v,
                forall|x: int| 0 <= x < k ==> v[x].0@ != name@,
            decreases self.specializations.len() - k,
        {
            if self.specializations[k].0 == *name {
                proof { lemma_list_pos_found(v, name@, 0, k as int); }
                let l = &self.specializations[k].1;
                let mut total: u128 = 0;
                let mut j: usize = 0;
                while j < l.len()
                    invariant
                        j <= l.len(),
                        total == cost_total(l@.take(j as int)),
                        total <= j * 0xffff_ffff_ffff_ffffu128,
                    decreases l.len() - j,
                {
                    proof {
                        assert(l@.take(j + 1).drop_last() =~= l@.take(j as int));
                        assert(j + 1 <= 0xffff_ffff_ffff_ffffu128);
                        assert((j + 1) * 0xffff_ffff_ffff_ffffu128 <= 0xffff_ffff_ffff_ffffu128 * 0xffff_ffff_ffff_ffffu128) by (nonlinear_arith)
                            requires j + 1 <= 0xffff_ffff_ffff_ffffu128;
                    }
                    total = total + l[j].1.cost as u128;
                    j = j + 1;
                }
                assert(l@.take(l.len() as int) =~= l@);
                return (total, l.len());
            }
            k = k + 1;
        }
        proof { lemma_list_pos_absent(v, name@, 0); }
        (0, 0)
    }

    /// Appends a specialization of the word `name`.
    fn push_specialization(&mut self, name: &String, sig: TypeSignature, word: WordDef)
        requires
            old(self).wf(),
        ensures
            final(self).wf(),
            forall|n: Seq<char>| #[trigger] spec_list(final(self).specializations@, n)
                == if n == name@ { spec_list(old(self).specializations@, n).push((sig, word)) } else { spec_list(old(self).specializations@, n) },
            final(self).profiles@ == old(self).profiles@,
            final(self).call_site_types@ == old(self).call_site_types@,
            final(self).stats == old(self).stats,
    {
        let ghost v = self.specializations@;
        let mut pos: Option<usize> = None;
        let mut k: usize = 0;
        while k < self.specializations.len()
            invariant
                k <= self.specializations.len(),
                self.specializations@ == v,
                pos is None ==> forall|x: int| 0 <= x < k ==> v[x].0@ != name@,
                pos matches Some(p) ==> p < v.len() && v[p as int].0@ == name@,
            decreases self.specializations.len() - k,
        {
            if pos.is_none() && self.specializations[k].0 == *name {
                pos = Some(k);
            }
            k = k + 1;
        }
        if let Some(e) = pos {
            self.specializations[e].1.push((sig, word));
            proof {
                let w = self.specializations@;
                assert forall|x: int| 0 <= x < v.len() implies #[trigger] w[x].0@ == v[x].0@ by {}
                assert forall|n: Seq<char>| #[trigger] spec_list(w, n)
                    == if n == name@ { spec_list(v, n).push((sig, word)) } else { spec_list(v, n) } by {
                    if n == name@ {
                        lemma_list_pos_found(v, n, 0, e as int);
                        lemma_list_pos_found(w, n, 0, e as int);
                    } else {
                        if list_pos_from(v, n, 0) is None {
                            lemma_list_pos_prefix(v, w, n, 0);
                        } else {
                            lemma_list_pos_prefix(v, w, n, 0);
                            let a = list_pos_from(v, n, 0)->0;
                            lemma_list_pos_in_range(v, n, 0);
                            assert(a != e) by {
                                lemma_list_pos_found(v, name@, 0, e as int);
                                lemma_list_pos_name(v, n, 0);
                            }
                        }
                    }
                }
            }
        } else {
            let mut l: Vec<(TypeSignature, WordDef)> = Vec::new();
            l.push((sig, word));
            self.specializations.push((name.clone(), l));
            proof {
                let w = self.specializations@;
                assert forall|x: int| 0 <= x < v.len() implies #[trigger] w[x].0@ == v[x].0@ by {}
                assert(w[v.len() as int].0@ == name@);
                assert forall|x: int, y: int| 0 <= x < w.len() && 0 <= y < w.len() && x != y
                    implies w[x].0@ != w[y].0@ by {
                    if x < v.len() && y < v.len() { assert(v[x].0@ != v[y].0@); }
                }
                assert forall|n: Seq<char>| #[trigger] spec_list(w, n)
                    == if n == name@ { spec_list(v, n).push((sig, word)) } else { spec_list(v, n) } by {
                    if n == name@ {
                        lemma_list_pos_absent(v, n, 0);
                        lemma_list_pos_found(w, n, 0, v.len() as int);
                        assert(w[v.len() as int].1@ =~= seq![(sig, word)]);
                        assert(spec_list(v, n).push((sig, word)) =~= seq![(sig, word)]);
                    } else {
                        lemma_list_pos_prefix(v, w, n, 0);
                        lemma_list_pos_in_range(v, n, 0);
                    }
                }
            }
        }
    }

    /// The counters so far.
    pub fn stats(&self) -> (r: &SpecializationStats)
        ensures
            *r == self.stats,
    {
        &self.stats
    }
}

impl Default for TypeSpecializer {
    fn default() -> (r: Self)
        ensures
            r.wf(),
            r.profiles@.len() == 0,
            r.specializations@.len() == 0,
            r.call_site_types@.len() == 0,
    {
        TypeSpecializer::new()
    }
}

} // verus!
