//! Type-driven specialization: concrete types, type signatures with their
//! mangled names, and the type information handed over by the front end.
use vstd::prelude::*;
use crate::text::push_str;

verus! {

/// A concrete stack type from front-end type inference.
#[derive(Debug, Clone, Copy, PartialEq, Eq, Hash, Structural)]
pub enum ConcreteType {
    Int,
    Float,
    Addr,
    Bool,
    Char,
    String,
}

/// The suffix used in specialized names.
pub open spec fn suffix_text(t: ConcreteType) -> Seq<char> {
    match t {
        ConcreteType::Int => "INT"@,
        ConcreteType::Float => "FLOAT"@,
        ConcreteType::Addr => "ADDR"@,
        ConcreteType::Bool => "BOOL"@,
        ConcreteType::Char => "CHAR"@,
        ConcreteType::String => "STRING"@,
    }
}

/// The name a type displays.
pub open spec fn type_text(t: ConcreteType) -> Seq<char> {
    match t {
        ConcreteType::Int => "int"@,
        ConcreteType::Float => "float"@,
        ConcreteType::Addr => "addr"@,
        ConcreteType::Bool => "bool"@,
        ConcreteType::Char => "char"@,
        ConcreteType::String => "string"@,
    }
}

impl ConcreteType {
    /// Numeric types benefit from specialization.
    pub fn needs_specialization(&self) -> (r: bool)
        ensures
            r == (*self == ConcreteType::Int || *self == ConcreteType::Float),
    {
        matches!(self, ConcreteType::Int | ConcreteType::Float)
    }

    /// The suffix used in specialized names.
    pub fn suffix(&self) -> (r: &'static str)
        ensures
            r@ == suffix_text(*self),
    {
        match self {
            ConcreteType::Int => "INT",
            ConcreteType::Float => "FLOAT",
            ConcreteType::Addr => "ADDR",
            ConcreteType::Bool => "BOOL",
            ConcreteType::Char => "CHAR",
            ConcreteType::String => "STRING",
        }
    }

    /// The name this type displays.
    pub fn display_text(&self) -> (r: &'static str)
        ensures
            r@ == type_text(*self),
    {
        match self {
            ConcreteType::Int => "int",
            ConcreteType::Float => "float",
            ConcreteType::Addr => "addr",
            ConcreteType::Bool => "bool",
            ConcreteType::Char => "char",
            ConcreteType::String => "string",
        }
    }
}

/// A word's type signature: input and output types.
#[derive(Debug, Clone, PartialEq, Eq, Hash)]
pub struct TypeSignature {
    pub inputs: Vec<ConcreteType>,
    pub outputs: Vec<ConcreteType>,
}

/// The suffixes of `ts` joined with `_`.
pub open spec fn joined_suffixes(ts: Seq<ConcreteType>) -> Seq<char>
    decreases ts.len(),
{
    if ts.len() == 0 {
        Seq::empty()
    } else if ts.len() == 1 {
        suffix_text(ts[0])
    } else {
        joined_suffixes(ts.drop_last()) + "_"@ + suffix_text(ts.last())
    }
}

/// The type names of `ts` joined with a space.
pub open spec fn joined_types(ts: Seq<ConcreteType>) -> Seq<char>
    decreases ts.len(),
{
    if ts.len() == 0 {
        Seq::empty()
    } else if ts.len() == 1 {
        type_text(ts[0])
    } else {
        joined_types(ts.drop_last()) + " "@ + type_text(ts.last())
    }
}

/// The specialized name of `base` for a signature: the base name, then the
/// input suffixes, all joined with `_`; the base name alone when there are no inputs.
pub open spec fn mangled(base: Seq<char>, inputs: Seq<ConcreteType>) -> Seq<char> {
    if inputs.len() == 0 { base } else { base + "_"@ + joined_suffixes(inputs) }
}

/// The text a signature displays: `(in1 in2 -- out1)`.
pub open spec fn signature_text(inputs: Seq<ConcreteType>, outputs: Seq<ConcreteType>) -> Seq<char> {
    "("@ + joined_types(inputs) + " -- "@ + joined_types(outputs) + ")"@
}

/// Appends the suffixes (or the type names) of `ts`, joined by `sep`.
fn push_joined(out: &mut String, ts: &Vec<ConcreteType>, sep: &str, suffixes: bool)
    requires
        suffixes ==> sep@ == "_"@,
        !suffixes ==> sep@ == " "@,
    ensures
        final(out)@ == old(out)@ + (if suffixes { joined_suffixes(ts@) } else { joined_types(ts@) }),
{
    let ghost start = out@;
    let mut i: usize = 0;
    while i < ts.len()
        invariant
            i <= ts.len(),
            suffixes ==> sep@ == "_"@,
            !suffixes ==> sep@ == " "@,
            out@ == start + (if suffixes { joined_suffixes(ts@.take(i as int)) } else { joined_types(ts@.take(i as int)) }),
        decreases ts.len() - i,
    {
        assert(ts@.take(i + 1).drop_last() =~= ts@.take(i as int));
        if i > 0 {
            push_str(out, sep);
        }
        let t = if suffixes { ts[i].suffix() } else { ts[i].display_text() };
        push_str(out, t);
        proof {
            if i == 0 {
                assert(ts@.take(1) =~= seq![ts@[0]]);
                assert(ts@.take(0).len() == 0);
            }
            assert(out@ =~= start + (if suffixes { joined_suffixes(ts@.take(i + 1)) } else { joined_types(ts@.take(i + 1)) }));
        }
        i = i + 1;
    }
    assert(ts@.take(ts.len() as int) =~= ts@);
}

impl TypeSignature {
    pub fn new(inputs: Vec<ConcreteType>, outputs: Vec<ConcreteType>) -> (r: Self)
        ensures
            r.inputs@ == inputs@,
            r.outputs@ == outputs@,
    {
        TypeSignature { inputs, outputs }
    }

    /// The specialized name of `base_name` for this signature.
    pub fn mangle_name(&self, base_name: &str) -> (r: String)
        ensures
            r@ == mangled(base_name@, self.inputs@),
    {
        let mut r = String::new();
        push_str(&mut r, base_name);
        if self.inputs.len() == 0 {
            return r;
        }
        push_str(&mut r, "_");
        push_joined(&mut r, &self.inputs, "_", true);
        r
    }

    /// The text this signature displays.
    pub fn display_text(&self) -> (r: String)
        ensures
            r@ == signature_text(self.inputs@, self.outputs@),
    {
        let mut r = String::new();
        push_str(&mut r, "(");
        push_joined(&mut r, &self.inputs, " ", false);
        push_str(&mut r, " -- ");
        push_joined(&mut r, &self.outputs, " ", false);
        push_str(&mut r, ")");
        r
    }

    /// An identical copy.
    pub fn duplicate(&self) -> (r: Self)
        ensures
            r.inputs@ == self.inputs@,
            r.outputs@ == self.outputs@,
    {
        TypeSignature { inputs: copy_types(&self.inputs), outputs: copy_types(&self.outputs) }
    }
}

/// A copy of a list of types.
pub fn copy_types(v: &Vec<ConcreteType>) -> (r: Vec<ConcreteType>)
    ensures
        r@ == v@,
{
    let mut r: Vec<ConcreteType> = Vec::new();
    let mut i: usize = 0;
    while i < v.len()
        invariant
            i <= v.len(),
            r@ == v@.take(i as int),
        decreases v.len() - i,
    {
        r.push(v[i]);
        assert(v@.take(i as int).push(v@[i as int]) =~= v@.take(i + 1));
        i = i + 1;
    }
    assert(v@.take(v.len() as int) =~= v@);
    r
}

/// Type information from the front end: the signatures each word was seen
/// with (by name, each distinct signature once) and the signature of each
/// call site (by instruction index, each index holding its latest signature).
#[derive(Debug, Clone, Default)]
pub struct TypeInferenceResults {
    pub word_signatures: Vec<(String, TypeSignature)>,
    pub call_site_signatures: Vec<(usize, TypeSignature)>,
}

/// The map that a list of distinct keys with their values stands for.
pub open spec fn assoc_map<K, V>(v: Seq<(K, V)>) -> Map<K, V>
    decreases v.len(),
{
    if v.len() == 0 {
        Map::empty()
    } else {
        assoc_map(v.drop_last()).insert(v.last().0, v.last().1)
    }
}

/// No key occurs twice.
pub open spec fn distinct_keys<K, V>(v: Seq<(K, V)>) -> bool {
    forall|i: int, j: int| 0 <= i < v.len() && 0 <= j < v.len() && i != j ==> v[i].0 != v[j].0
}

/// The word list with each name taken by its text.
pub open spec fn word_entries(v: Seq<(String, TypeSignature)>) -> Seq<(Seq<char>, TypeSignature)> {
    v.map_values(|p: (String, TypeSignature)| (p.0@, p.1))
}

/// The two signatures have the same inputs and outputs.
pub open spec fn same_sig(a: TypeSignature, b: TypeSignature) -> bool {
    a.inputs@ == b.inputs@ && a.outputs@ == b.outputs@
}

/// Some entry records the word `n` with a signature like `s`.
pub open spec fn has_entry(e: Seq<(Seq<char>, TypeSignature)>, n: Seq<char>, s: TypeSignature) -> bool {
    exists|i: int| 0 <= i < e.len() && e[i].0 == n && #[trigger] same_sig(e[i].1, s)
}

/// No word is recorded twice with the same signature.
pub open spec fn distinct_entries(e: Seq<(Seq<char>, TypeSignature)>) -> bool {
    forall|i: int, j: int| 0 <= i < e.len() && 0 <= j < e.len() && i != j
        ==> !(e[i].0 == e[j].0 && same_sig(e[i].1, e[j].1))
}

/// A key is in the map exactly when some entry holds it.
pub proof fn lemma_assoc_map_dom<K, V>(v: Seq<(K, V)>, k: K)
    ensures
        assoc_map(v).dom().contains(k) <==> exists|i: int| 0 <= i < v.len() && v[i].0 == k,
    decreases v.len(),
{
    if v.len() > 0 {
        lemma_assoc_map_dom(v.drop_last(), k);
        if exists|i: int| 0 <= i < v.len() && v[i].0 == k {
            let i = choose|i: int| 0 <= i < v.len() && v[i].0 == k;
            if i < v.len() - 1 {
                assert(v.drop_last()[i].0 == k);
            }
        }
        if exists|i: int| 0 <= i < v.len() - 1 && v.drop_last()[i].0 == k {
            let i = choose|i: int| 0 <= i < v.len() - 1 && v.drop_last()[i].0 == k;
            assert(v[i].0 == k);
        }
    }
}

/// With distinct keys, the entry at `i` is what the map gives for its key.
pub proof fn lemma_assoc_map_at<K, V>(v: Seq<(K, V)>, i: int)
    requires
        distinct_keys(v),
        0 <= i < v.len(),
    ensures
        assoc_map(v).dom().contains(v[i].0),
        assoc_map(v)[v[i].0] == v[i].1,
    decreases v.len(),
{
    if i < v.len() - 1 {
        lemma_assoc_map_at(v.drop_last(), i);
        assert(v.last().0 != v[i].0);
    }
}

/// Replacing an entry by one with the same key is an insertion into the map.
pub proof fn lemma_assoc_map_update<K, V>(v: Seq<(K, V)>, i: int, e: (K, V))
    requires
        distinct_keys(v),
        0 <= i < v.len(),
        e.0 == v[i].0,
    ensures
        distinct_keys(v.update(i, e)),
        assoc_map(v.update(i, e)) == assoc_map(v).insert(e.0, e.1),
    decreases v.len(),
{
    let u = v.update(i, e);
    if i == v.len() - 1 {
        assert(u.drop_last() =~= v.drop_last());
    } else {
        assert(u.drop_last() =~= v.drop_last().update(i, e));
        lemma_assoc_map_update(v.drop_last(), i, e);
        assert(v.last().0 != e.0);
    }
    assert(assoc_map(u) =~= assoc_map(v).insert(e.0, e.1));
}

/// Appending an entry with a new key keeps the keys distinct.
pub proof fn lemma_distinct_push<K, V>(v: Seq<(K, V)>, e: (K, V))
    requires
        distinct_keys(v),
        forall|j: int| 0 <= j < v.len() ==> v[j].0 != e.0,
    ensures
        distinct_keys(v.push(e)),
{
}

impl TypeInferenceResults {
    /// No word is recorded twice with the same signature, and each call site
    /// index occurs once.
    pub open spec fn wf(&self) -> bool {
        &&& distinct_entries(word_entries(self.word_signatures@))
        &&& distinct_keys(self.call_site_signatures@)
    }

    /// The recorded word signatures, in the order they were first added.
    pub open spec fn words_view(&self) -> Seq<(Seq<char>, TypeSignature)> {
        word_entries(self.word_signatures@)
    }

    /// Call site signatures by instruction index.
    pub open spec fn sites_view(&self) -> Map<usize, TypeSignature> {
        assoc_map(self.call_site_signatures@)
    }

    pub fn new() -> (r: Self)
        ensures
            r.word_signatures@.len() == 0,
            r.call_site_signatures@.len() == 0,
            r.words_view() == Seq::<(Seq<char>, TypeSignature)>::empty(),
            r.sites_view() == Map::<usize, TypeSignature>::empty(),
            r.wf(),
    {
        let r = TypeInferenceResults { word_signatures: Vec::new(), call_site_signatures: Vec::new() };
        assert(word_entries(r.word_signatures@) =~= Seq::<(Seq<char>, TypeSignature)>::empty());
        r
    }

    /// Whether the word `name` is already recorded with a signature like `signature`.
    fn has_word_signature(&self, name: &String, signature: &TypeSignature) -> (r: bool)
        ensures
            r == has_entry(self.words_view(), name@, *signature),
    {
        let mut i: usize = 0;
        while i < self.word_signatures.len()
            invariant
                i <= self.word_signatures.len(),
                forall|j: int| 0 <= j < i ==> !(#[trigger] self.words_view()[j].0 == name@
                    && same_sig(self.words_view()[j].1, *signature)),
            decreases self.word_signatures.len() - i,
        {
            if self.word_signatures[i].0 == *name
                && crate::optimizer::specializer::same_signature(&self.word_signatures[i].1, signature) {
                assert(self.words_view()[i as int].0 == name@ && same_sig(self.words_view()[i as int].1, *signature));
                return true;
            }
            assert(!(self.words_view()[i as int].0 == name@ && same_sig(self.words_view()[i as int].1, *signature)));
            i = i + 1;
        }
        proof {
            if has_entry(self.words_view(), name@, *signature) {
                let k = choose|k: int| 0 <= k < self.words_view().len() && self.words_view()[k].0 == name@
                    && #[trigger] same_sig(self.words_view()[k].1, *signature);
                assert(self.words_view()[k].0 == name@);
            }
        }
        false
    }

    /// The position of the call site `index` in the list, if it is there.
    fn site_position(&self, index: usize) -> (r: Option<usize>)
        ensures
            match r {
                Some(i) => i < self.call_site_signatures@.len() && self.call_site_signatures@[i as int].0 == index,
                None => forall|j: int| 0 <= j < self.call_site_signatures@.len() ==> self.call_site_signatures@[j].0 != index,
            },
    {
        let mut i: usize = 0;
        while i < self.call_site_signatures.len()
            invariant
                i <= self.call_site_signatures.len(),
                forall|j: int| 0 <= j < i ==> self.call_site_signatures@[j].0 != index,
            decreases self.call_site_signatures.len() - i,
        {
            if self.call_site_signatures[i].0 == index {
                return Some(i);
            }
            i = i + 1;
        }
        None
    }

    /// The signature recorded for the call site `index`.
    pub fn call_site_signature(&self, index: usize) -> (r: Option<&TypeSignature>)
        requires
            self.wf(),
        ensures
            match r {
                Some(s) => self.sites_view().dom().contains(index) && *s == self.sites_view()[index],
                None => !self.sites_view().dom().contains(index),
            },
    {
        proof { lemma_assoc_map_dom(self.call_site_signatures@, index); }
        match self.site_position(index) {
            Some(i) => {
                proof { lemma_assoc_map_at(self.call_site_signatures@, i as int); }
                Some(&self.call_site_signatures[i].1)
            }
            None => None,
        }
    }

    /// Records that the word `name` is used with `signature`; a word may be
    /// recorded with several signatures, each once.
    pub fn add_word_signature(&mut self, name: String, signature: TypeSignature)
        requires
            old(self).wf(),
        ensures
            final(self).wf(),
            final(self).call_site_signatures@ == old(self).call_site_signatures@,
            has_entry(old(self).words_view(), name@, signature) ==> final(self).word_signatures@ == old(self).word_signatures@,
            !has_entry(old(self).words_view(), name@, signature) ==>
                final(self).words_view() == old(self).words_view().push((name@, signature)),
            final(self).word_signatures@.len() == old(self).word_signatures@.len()
                + if has_entry(old(self).words_view(), name@, signature) { 0int } else { 1int },
    {
        if self.has_word_signature(&name, &signature) {
            return;
        }
        let ghost old_v = self.words_view();
        let ghost e = (name@, signature);
        self.word_signatures.push((name, signature));
        proof {
            assert(self.words_view() =~= old_v.push(e));
            assert forall|i: int, j: int| 0 <= i < self.words_view().len() && 0 <= j < self.words_view().len() && i != j
                implies !(self.words_view()[i].0 == self.words_view()[j].0 && same_sig(self.words_view()[i].1, self.words_view()[j].1)) by {
                if i == old_v.len() as int && self.words_view()[j].0 == e.0 && same_sig(self.words_view()[j].1, e.1) {
                    assert(old_v[j].0 == name@ && same_sig(old_v[j].1, signature));
                }
                if j == old_v.len() as int && self.words_view()[i].0 == e.0 && same_sig(self.words_view()[i].1, e.1) {
                    assert(old_v[i].0 == name@ && same_sig(old_v[i].1, signature));
                }
            }
        }
    }

    /// Records the signature of a call site, replacing an earlier one at the same index.
    pub fn add_call_site(&mut self, index: usize, signature: TypeSignature)
        requires
            old(self).wf(),
        ensures
            final(self).wf(),
            final(self).word_signatures@ == old(self).word_signatures@,
            final(self).sites_view() == old(self).sites_view().insert(index, signature),
            final(self).call_site_signatures@.len() == old(self).call_site_signatures@.len()
                + if old(self).sites_view().dom().contains(index) { 0int } else { 1int },
    {
        let ghost old_v = self.call_site_signatures@;
        proof { lemma_assoc_map_dom(old_v, index); }
        match self.site_position(index) {
            Some(i) => {
                self.call_site_signatures.set(i, (index, signature));
                proof { lemma_assoc_map_update(old_v, i as int, (index, signature)); }
            }
            None => {
                self.call_site_signatures.push((index, signature));
                proof {
                    lemma_distinct_push(old_v, (index, signature));
                    assert(self.call_site_signatures@.drop_last() =~= old_v);
                }
            }
        }
    }

    /// Example results: `dup` and `square` on integers, and an integer call
    /// site at index 0.
    pub fn example() -> (r: Self)
        ensures
            r.wf(),
            r.word_signatures@.len() == 2,
            r.call_site_signatures@.len() == 1,
            r.words_view()[0].0 == "dup"@,
            r.words_view()[0].1.inputs@ == seq![ConcreteType::Int],
            r.words_view()[0].1.outputs@ == seq![ConcreteType::Int, ConcreteType::Int],
            r.words_view()[1].0 == "square"@,
            r.words_view()[1].1.inputs@ == seq![ConcreteType::Int],
            r.words_view()[1].1.outputs@ == seq![ConcreteType::Int],
            r.sites_view().dom() == set![0usize],
            r.sites_view()[0].inputs@ == seq![ConcreteType::Int],
            r.sites_view()[0].outputs@ == seq![ConcreteType::Int],
    {
        let mut results = Self::new();
        let dup_name = "dup".to_owned();
        let square_name = "square".to_owned();
        proof {
            reveal_strlit("dup");
            reveal_strlit("square");
            assert("dup"@ != "square"@) by { assert("dup"@.len() != "square"@.len()); }
        }
        let dup_sig = TypeSignature::new(vec![ConcreteType::Int], vec![ConcreteType::Int, ConcreteType::Int]);
        results.add_word_signature(dup_name, dup_sig);
        let square_sig = TypeSignature::new(vec![ConcreteType::Int], vec![ConcreteType::Int]);
        proof {
            if has_entry(results.words_view(), "square"@, square_sig) {
                let k = choose|k: int| 0 <= k < results.words_view().len() && results.words_view()[k].0 == "square"@
                    && #[trigger] same_sig(results.words_view()[k].1, square_sig);
                assert(results.words_view()[k].0 == "dup"@);
            }
        }
        results.add_word_signature(square_name, square_sig);
        let site_sig = TypeSignature::new(vec![ConcreteType::Int], vec![ConcreteType::Int]);
        results.add_call_site(0, site_sig);
        assert(results.sites_view().dom() =~= set![0usize]);
        results
    }
}

} // verus!
