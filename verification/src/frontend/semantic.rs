//! Semantic analysis: undefined words, redefinitions and declared stack
//! effects that disagree with the inferred ones.
use vstd::prelude::*;
use crate::frontend::ast::{Program, Definition, Word, StackEffect, joined_type_texts};
use crate::frontend::error::ForthError;
use crate::frontend::stack_effects::{StackEffectInference, builtin_table, seq_counts_v, seq_budget, definition_effect, EffectV, types_v, unknowns};
use crate::text::{push_str, usize_text, decimal_text, str_eq};
use crate::frontend::ssa::{word_size, words_size, lemma_words_size_prefix};

verus! {

/// Number of words known before any definition.
pub const BUILTIN_WORD_COUNT: usize = 130;

/// Number of words that may be redefined without an error.
pub const REDEFINABLE_COUNT: usize = 71;

/// The `i`-th word known before any definition.
pub open spec fn builtin_name(i: usize) -> Seq<char> {
    match i {
        0 => "+"@,
        1 => "-"@,
        2 => "*"@,
        3 => "/"@,
        4 => "mod"@,
        5 => "/mod"@,
        6 => "negate"@,
        7 => "abs"@,
        8 => "min"@,
        9 => "max"@,
        10 => "1+"@,
        11 => "1-"@,
        12 => "2+"@,
        13 => "2-"@,
        14 => "2*"@,
        15 => "2/"@,
        16 => "*/"@,
        17 => "*/mod"@,
        18 => "dup"@,
        19 => "drop"@,
        20 => "swap"@,
        21 => "over"@,
        22 => "rot"@,
        23 => "2dup"@,
        24 => "2drop"@,
        25 => "2swap"@,
        26 => "2over"@,
        27 => "pick"@,
        28 => "roll"@,
        29 => "depth"@,
        30 => "?dup"@,
        31 => "<"@,
        32 => ">"@,
        33 => "="@,
        34 => "<="@,
        35 => ">="@,
        36 => "<>"@,
        37 => "0<"@,
        38 => "0>"@,
        39 => "0="@,
        40 => "0<>"@,
        41 => "u<"@,
        42 => "u>"@,
        43 => "u<="@,
        44 => "u>="@,
        45 => "d="@,
        46 => "d<"@,
        47 => "d0="@,
        48 => "d0<"@,
        49 => "and"@,
        50 => "or"@,
        51 => "xor"@,
        52 => "not"@,
        53 => "invert"@,
        54 => "true"@,
        55 => "false"@,
        56 => "@"@,
        57 => "!"@,
        58 => "c@"@,
        59 => "c!"@,
        60 => "+!"@,
        61 => "?"@,
        62 => "cell"@,
        63 => "cells"@,
        64 => "cell+"@,
        65 => "char+"@,
        66 => "chars"@,
        67 => "align"@,
        68 => "aligned"@,
        69 => "move"@,
        70 => "fill"@,
        71 => "erase"@,
        72 => "compare"@,
        73 => "search"@,
        74 => "count"@,
        75 => "."@,
        76 => "emit"@,
        77 => "cr"@,
        78 => "space"@,
        79 => "spaces"@,
        80 => "type"@,
        81 => ".\""@,
        82 => ".("@,
        83 => ".r"@,
        84 => ".s"@,
        85 => "if"@,
        86 => "then"@,
        87 => "else"@,
        88 => "begin"@,
        89 => "until"@,
        90 => "while"@,
        91 => "repeat"@,
        92 => "do"@,
        93 => "loop"@,
        94 => "+loop"@,
        95 => "leave"@,
        96 => "exit"@,
        97 => "recurse"@,
        98 => ">r"@,
        99 => "r>"@,
        100 => "r@"@,
        101 => "create-file"@,
        102 => "open-file"@,
        103 => "close-file"@,
        104 => "read-file"@,
        105 => "write-file"@,
        106 => "delete-file"@,
        107 => "file-size"@,
        108 => "file-position"@,
        109 => "reposition-file"@,
        110 => "resize-file"@,
        111 => "flush-file"@,
        112 => "r/o"@,
        113 => "w/o"@,
        114 => "r/w"@,
        115 => "bin"@,
        116 => "system"@,
        117 => "here"@,
        118 => "allot"@,
        119 => "execute"@,
        120 => "char"@,
        121 => "within"@,
        122 => "sm/rem"@,
        123 => "fm/mod"@,
        124 => "d+"@,
        125 => "d-"@,
        126 => "dnegate"@,
        127 => "dabs"@,
        128 => "d2*"@,
        129 => "d2/"@,
        _ => seq![],
    }
}

/// The `i`-th word known before any definition.
pub fn builtin_word(i: usize) -> (r: &'static str)
    requires
        i < BUILTIN_WORD_COUNT,
    ensures
        r@ == builtin_name(i),
{
    match i {
        0 => "+",
        1 => "-",
        2 => "*",
        3 => "/",
        4 => "mod",
        5 => "/mod",
        6 => "negate",
        7 => "abs",
        8 => "min",
        9 => "max",
        10 => "1+",
        11 => "1-",
        12 => "2+",
        13 => "2-",
        14 => "2*",
        15 => "2/",
        16 => "*/",
        17 => "*/mod",
        18 => "dup",
        19 => "drop",
        20 => "swap",
        21 => "over",
        22 => "rot",
        23 => "2dup",
        24 => "2drop",
        25 => "2swap",
        26 => "2over",
        27 => "pick",
        28 => "roll",
        29 => "depth",
        30 => "?dup",
        31 => "<",
        32 => ">",
        33 => "=",
        34 => "<=",
        35 => ">=",
        36 => "<>",
        37 => "0<",
        38 => "0>",
        39 => "0=",
        40 => "0<>",
        41 => "u<",
        42 => "u>",
        43 => "u<=",
        44 => "u>=",
        45 => "d=",
        46 => "d<",
        47 => "d0=",
        48 => "d0<",
        49 => "and",
        50 => "or",
        51 => "xor",
        52 => "not",
        53 => "invert",
        54 => "true",
        55 => "false",
        56 => "@",
        57 => "!",
        58 => "c@",
        59 => "c!",
        60 => "+!",
        61 => "?",
        62 => "cell",
        63 => "cells",
        64 => "cell+",
        65 => "char+",
        66 => "chars",
        67 => "align",
        68 => "aligned",
        69 => "move",
        70 => "fill",
        71 => "erase",
        72 => "compare",
        73 => "search",
        74 => "count",
        75 => ".",
        76 => "emit",
        77 => "cr",
        78 => "space",
        79 => "spaces",
        80 => "type",
        81 => ".\"",
        82 => ".(",
        83 => ".r",
        84 => ".s",
        85 => "if",
        86 => "then",
        87 => "else",
        88 => "begin",
        89 => "until",
        90 => "while",
        91 => "repeat",
        92 => "do",
        93 => "loop",
        94 => "+loop",
        95 => "leave",
        96 => "exit",
        97 => "recurse",
        98 => ">r",
        99 => "r>",
        100 => "r@",
        101 => "create-file",
        102 => "open-file",
        103 => "close-file",
        104 => "read-file",
        105 => "write-file",
        106 => "delete-file",
        107 => "file-size",
        108 => "file-position",
        109 => "reposition-file",
        110 => "resize-file",
        111 => "flush-file",
        112 => "r/o",
        113 => "w/o",
        114 => "r/w",
        115 => "bin",
        116 => "system",
        117 => "here",
        118 => "allot",
        119 => "execute",
        120 => "char",
        121 => "within",
        122 => "sm/rem",
        123 => "fm/mod",
        124 => "d+",
        125 => "d-",
        126 => "dnegate",
        127 => "dabs",
        128 => "d2*",
        129 => "d2/",
        _ => "",
    }
}

/// The `i`-th primitive word, which a definition may replace silently.
pub open spec fn redefinable_name(i: usize) -> Seq<char> {
    match i {
        0 => "+"@,
        1 => "-"@,
        2 => "*"@,
        3 => "/"@,
        4 => "mod"@,
        5 => "/mod"@,
        6 => "negate"@,
        7 => "abs"@,
        8 => "min"@,
        9 => "max"@,
        10 => "dup"@,
        11 => "drop"@,
        12 => "swap"@,
        13 => "over"@,
        14 => "rot"@,
        15 => "2dup"@,
        16 => "2drop"@,
        17 => "2swap"@,
        18 => "2over"@,
        19 => "pick"@,
        20 => "roll"@,
        21 => "depth"@,
        22 => "<"@,
        23 => ">"@,
        24 => "="@,
        25 => "<="@,
        26 => ">="@,
        27 => "<>"@,
        28 => "0<"@,
        29 => "0>"@,
        30 => "0="@,
        31 => "and"@,
        32 => "or"@,
        33 => "xor"@,
        34 => "not"@,
        35 => "invert"@,
        36 => "@"@,
        37 => "!"@,
        38 => "c@"@,
        39 => "c!"@,
        40 => "+!"@,
        41 => "?"@,
        42 => "."@,
        43 => "emit"@,
        44 => "cr"@,
        45 => "space"@,
        46 => "spaces"@,
        47 => "type"@,
        48 => "if"@,
        49 => "then"@,
        50 => "else"@,
        51 => "begin"@,
        52 => "until"@,
        53 => "while"@,
        54 => "repeat"@,
        55 => "do"@,
        56 => "loop"@,
        57 => "+loop"@,
        58 => "leave"@,
        59 => "exit"@,
        60 => ">r"@,
        61 => "r>"@,
        62 => "r@"@,
        63 => "here"@,
        64 => "allot"@,
        65 => "cells"@,
        66 => "cell+"@,
        67 => "i"@,
        68 => "j"@,
        69 => "execute"@,
        70 => "char"@,
        _ => seq![],
    }
}

/// The `i`-th primitive word, which a definition may replace silently.
pub fn redefinable_word(i: usize) -> (r: &'static str)
    requires
        i < REDEFINABLE_COUNT,
    ensures
        r@ == redefinable_name(i),
{
    match i {
        0 => "+",
        1 => "-",
        2 => "*",
        3 => "/",
        4 => "mod",
        5 => "/mod",
        6 => "negate",
        7 => "abs",
        8 => "min",
        9 => "max",
        10 => "dup",
        11 => "drop",
        12 => "swap",
        13 => "over",
        14 => "rot",
        15 => "2dup",
        16 => "2drop",
        17 => "2swap",
        18 => "2over",
        19 => "pick",
        20 => "roll",
        21 => "depth",
        22 => "<",
        23 => ">",
        24 => "=",
        25 => "<=",
        26 => ">=",
        27 => "<>",
        28 => "0<",
        29 => "0>",
        30 => "0=",
        31 => "and",
        32 => "or",
        33 => "xor",
        34 => "not",
        35 => "invert",
        36 => "@",
        37 => "!",
        38 => "c@",
        39 => "c!",
        40 => "+!",
        41 => "?",
        42 => ".",
        43 => "emit",
        44 => "cr",
        45 => "space",
        46 => "spaces",
        47 => "type",
        48 => "if",
        49 => "then",
        50 => "else",
        51 => "begin",
        52 => "until",
        53 => "while",
        54 => "repeat",
        55 => "do",
        56 => "loop",
        57 => "+loop",
        58 => "leave",
        59 => "exit",
        60 => ">r",
        61 => "r>",
        62 => "r@",
        63 => "here",
        64 => "allot",
        65 => "cells",
        66 => "cell+",
        67 => "i",
        68 => "j",
        69 => "execute",
        70 => "char",
        _ => "",
    }
}

/// A known word.
pub open spec fn is_builtin_word(n: Seq<char>) -> bool {
    exists|i: usize| i < BUILTIN_WORD_COUNT && #[trigger] builtin_name(i) == n
}

/// A primitive word, which a definition may replace silently.
pub open spec fn is_redefinable(n: Seq<char>) -> bool {
    exists|i: usize| i < REDEFINABLE_COUNT && #[trigger] redefinable_name(i) == n
}

/// A problem that the analysis reports.
pub enum Issue {
    /// A word defined twice (or a known word other than a primitive redefined).
    Redefinition(Seq<char>),
    /// A reference to a word that is not defined.
    Undefined(Seq<char>),
    /// A declared stack effect that disagrees with the inferred one.
    EffectMismatch(Seq<char>),
}

/// `e` is the error that reports `i`.
pub open spec fn reports(e: ForthError, i: Issue) -> bool {
    match i {
        Issue::Redefinition(w) => match e {
            ForthError::RedefinitionError { word } => word@ == w,
            _ => false,
        },
        Issue::Undefined(w) => match e {
            ForthError::UndefinedWord { word, line } => word@ == w && line is None,
            _ => false,
        },
        Issue::EffectMismatch(m) => match e {
            ForthError::InvalidStackEffect { declaration } => declaration@ == m,
            _ => false,
        },
    }
}

/// `new` is `old` followed by one error reporting each issue, in order.
pub open spec fn extends_with(new: Seq<ForthError>, old: Seq<ForthError>, issues: Seq<Issue>) -> bool {
    &&& new.len() == old.len() + issues.len()
    &&& new.take(old.len() as int) == old
    &&& forall|k: int| 0 <= k < issues.len() ==> reports(#[trigger] new[old.len() + k], issues[k])
}

proof fn lemma_extends_trans(a: Seq<ForthError>, b: Seq<ForthError>, c: Seq<ForthError>, i1: Seq<Issue>, i2: Seq<Issue>)
    requires
        extends_with(b, a, i1),
        extends_with(c, b, i2),
    ensures
        extends_with(c, a, i1 + i2),
{
    assert(c.take(a.len() as int) =~= b.take(a.len() as int)) by {
        assert forall|k: int| 0 <= k < a.len() implies c.take(a.len() as int)[k] == b.take(a.len() as int)[k] by {
            assert(c.take(b.len() as int)[k] == b[k]);
        }
    }
    assert forall|k: int| 0 <= k < (i1 + i2).len() implies reports(#[trigger] c[a.len() + k], (i1 + i2)[k]) by {
        if k < i1.len() {
            assert(c.take(b.len() as int)[a.len() + k] == b[a.len() + k]);
        } else {
            assert(c[b.len() + (k - i1.len())] == c[a.len() + k]);
        }
    }
}

proof fn lemma_extends_refl(a: Seq<ForthError>)
    ensures
        extends_with(a, a, seq![]),
{
    assert(a.take(a.len() as int) =~= a);
}

/// The characters of each string.
pub open spec fn names_of(v: Seq<String>) -> Seq<Seq<char>> {
    v.map_values(|s: String| s@)
}

/// The names of the constants.
pub open spec fn constant_names(v: Seq<(String, i64)>) -> Seq<Seq<char>> {
    v.map_values(|c: (String, i64)| c.0@)
}

/// The names of the definitions.
pub open spec fn def_names(defs: Seq<Definition>) -> Seq<Seq<char>> {
    defs.map_values(|d: Definition| d.name@)
}

/// The names that top-level `VARIABLE`s declare.
pub open spec fn variable_names(ws: Seq<Word>) -> Seq<Seq<char>>
    decreases ws.len(),
{
    if ws.len() == 0 {
        seq![]
    } else {
        match ws.last() {
            Word::Variable { name } => variable_names(ws.drop_last()).push(name@),
            _ => variable_names(ws.drop_last()),
        }
    }
}

/// The names that top-level `CONSTANT`s declare.
pub open spec fn constant_decl_names(ws: Seq<Word>) -> Seq<Seq<char>>
    decreases ws.len(),
{
    if ws.len() == 0 {
        seq![]
    } else {
        match ws.last() {
            Word::Constant { name, .. } => constant_decl_names(ws.drop_last()).push(name@),
            _ => constant_decl_names(ws.drop_last()),
        }
    }
}

/// The redefinition errors of the first pass: a definition whose name is
/// already known (in `known` or from an earlier definition) and not a primitive.
pub open spec fn redefinitions(known: Seq<Seq<char>>, defs: Seq<Definition>) -> Seq<Issue>
    decreases defs.len(),
{
    if defs.len() == 0 {
        seq![]
    } else {
        let prev = redefinitions(known, defs.drop_last());
        let n = defs.last().name@;
        if (known.contains(n) || def_names(defs.drop_last()).contains(n)) && !is_redefinable(n) {
            prev.push(Issue::Redefinition(n))
        } else {
            prev
        }
    }
}

/// The user effects after recording the definitions in order.
pub open spec fn users_after(u0: Map<Seq<char>, EffectV>, defs: Seq<Definition>) -> Map<Seq<char>, EffectV>
    decreases defs.len(),
{
    if defs.len() == 0 {
        u0
    } else {
        let u = users_after(u0, defs.drop_last());
        u.insert(defs.last().name@, definition_effect(defs.last(), u))
    }
}

/// The references to undefined words in a word, in order.
pub open spec fn undefined_in_word(w: Word, defined: Seq<Seq<char>>) -> Seq<Issue>
    decreases w,
{
    match w {
        Word::WordRef { name, .. } => if defined.contains(name@) { seq![] } else { seq![Issue::Undefined(name@)] },
        Word::If { then_branch, else_branch } => undefined_in_words(then_branch@, defined) + match else_branch {
            Some(e) => undefined_in_words(e@, defined),
            None => seq![],
        },
        Word::BeginUntil { body } => undefined_in_words(body@, defined),
        Word::BeginWhileRepeat { condition, body } => undefined_in_words(condition@, defined) + undefined_in_words(body@, defined),
        Word::DoLoop { body, .. } => undefined_in_words(body@, defined),
        _ => seq![],
    }
}

/// The references to undefined words in a sequence, in order.
pub open spec fn undefined_in_words(ws: Seq<Word>, defined: Seq<Seq<char>>) -> Seq<Issue>
    decreases ws,
{
    if ws.len() == 0 { seq![] } else { undefined_in_words(ws.drop_last(), defined) + undefined_in_word(ws.last(), defined) }
}

/// The word is a loop or a return-stack operation, or holds one in a branch.
pub open spec fn word_complex(w: Word) -> bool
    decreases w,
{
    match w {
        Word::BeginUntil { .. } | Word::BeginWhileRepeat { .. } | Word::DoLoop { .. } => true,
        Word::WordRef { name, .. } => name@ == ">r"@ || name@ == "r>"@ || name@ == "r@"@,
        Word::If { then_branch, else_branch } => words_complex(then_branch@) || match else_branch {
            Some(e) => words_complex(e@),
            None => false,
        },
        _ => false,
    }
}

/// Some word of the sequence is complex.
pub open spec fn words_complex(ws: Seq<Word>) -> bool
    decreases ws,
{
    ws.len() > 0 && (words_complex(ws.drop_last()) || word_complex(ws.last()))
}

/// The text of a declared effect.
pub open spec fn effect_text(e: StackEffect) -> Seq<char> {
    "( "@ + joined_type_texts(e.inputs@) + " -- "@ + joined_type_texts(e.outputs@) + " )"@
}

/// The mismatch, if any, between a definition's declared effect and the one inferred
/// from its body (definitions with loops or return-stack operations are not checked).
pub open spec fn mismatch(d: Definition, u: Map<Seq<char>, EffectV>) -> Seq<Issue> {
    match d.stack_effect {
        Some(de) => if words_complex(d.body@) {
            seq![]
        } else {
            let c = seq_counts_v(d.body@, builtin_table(), u);
            if de.inputs@.len() != c.0 || de.outputs@.len() != c.1 {
                seq![Issue::EffectMismatch("Declared "@ + effect_text(de) + " but inferred ( "@
                    + decimal_text(c.0) + " -- "@ + decimal_text(c.1) + " )"@)]
            } else {
                seq![]
            }
        },
        None => seq![],
    }
}

/// The issues of the second pass over the definitions, in order.
pub open spec fn validation_issues(defs: Seq<Definition>, defined: Seq<Seq<char>>, u: Map<Seq<char>, EffectV>) -> Seq<Issue>
    decreases defs.len(),
{
    if defs.len() == 0 {
        seq![]
    } else {
        validation_issues(defs.drop_last(), defined, u) + undefined_in_words(defs.last().body@, defined) + mismatch(defs.last(), u)
    }
}

/// The known words, in table order.
pub open spec fn builtin_names() -> Seq<Seq<char>> {
    Seq::new(BUILTIN_WORD_COUNT as nat, |i: int| builtin_name(i as usize))
}

/// Checks programs for undefined words, redefinitions and wrong stack-effect declarations.
pub struct SemanticAnalyzer {
    /// Known words: the builtin ones, then each definition's name.
    pub defined_words: Vec<String>,
    pub stack_inference: StackEffectInference,
    pub variables: Vec<String>,
    pub constants: Vec<(String, i64)>,
    /// Errors collected, in the order found.
    pub errors: Vec<ForthError>,
}

impl SemanticAnalyzer {
    /// The stack-effect tables are well formed.
    pub open spec fn wf(&self) -> bool {
        self.stack_inference.wf()
    }

    /// Every name that counts as defined.
    pub open spec fn defined(&self) -> Seq<Seq<char>> {
        names_of(self.defined_words@) + names_of(self.variables@) + constant_names(self.constants@)
    }

    pub fn new() -> (r: Self)
        ensures
            r.wf(),
            names_of(r.defined_words@) == builtin_names(),
            r.variables@.len() == 0,
            r.constants@.len() == 0,
            r.errors@.len() == 0,
            r.stack_inference.users() == Map::<Seq<char>, EffectV>::empty(),
    {
        let mut defined_words: Vec<String> = Vec::new();
        let mut i: usize = 0;
        while i < BUILTIN_WORD_COUNT
            invariant
                i <= BUILTIN_WORD_COUNT,
                defined_words@.len() == i,
                names_of(defined_words@) == builtin_names().take(i as int),
            decreases BUILTIN_WORD_COUNT - i,
        {
            let w = builtin_word(i).to_owned();
            let ghost before = defined_words@;
            defined_words.push(w);
            proof {
                assert(defined_words@ == before.push(w));
                assert(builtin_names()[i as int] == builtin_name(i));
                assert forall|k: int| 0 <= k < i + 1 implies #[trigger] names_of(defined_words@)[k] == builtin_names().take(i + 1)[k] by {
                    if k < i {
                        assert(names_of(defined_words@)[k] == defined_words@[k]@);
                        assert(defined_words@[k] == before[k]);
                        assert(names_of(before)[k] == before[k]@);
                    }
                }
                assert(names_of(defined_words@) =~= builtin_names().take(i + 1));
            }
            i = i + 1;
        }
        assert(builtin_names().take(BUILTIN_WORD_COUNT as int) =~= builtin_names());
        let stack_inference = StackEffectInference::new();
        assert(stack_inference.users() =~= Map::<Seq<char>, EffectV>::empty());
        SemanticAnalyzer {
            defined_words,
            stack_inference,
            variables: Vec::new(),
            constants: Vec::new(),
            errors: Vec::new(),
        }
    }

    /// Whether `word` is one of the primitives that may be redefined silently.
    pub fn is_builtin(&self, word: &str) -> (r: bool)
        ensures
            r == is_redefinable(word@),
    {
        let mut i: usize = 0;
        while i < REDEFINABLE_COUNT
            invariant
                i <= REDEFINABLE_COUNT,
                forall|j: usize| j < i ==> #[trigger] redefinable_name(j) != word@,
            decreases REDEFINABLE_COUNT - i,
        {
            if str_eq(redefinable_word(i), word) {
                return true;
            }
            i = i + 1;
        }
        false
    }

    /// Whether `word` is defined: known, a variable or a constant.
    pub fn is_defined(&self, word: &String) -> (r: bool)
        ensures
            r == self.defined().contains(word@),
    {
        let ghost d = self.defined();
        let mut i: usize = 0;
        while i < self.defined_words.len()
            invariant
                i <= self.defined_words@.len(),
                d == self.defined(),
                forall|j: int| 0 <= j < i ==> self.defined_words@[j]@ != word@,
            decreases self.defined_words@.len() - i,
        {
            if self.defined_words[i] == *word {
                assert(d[i as int] == word@);
                return true;
            }
            i = i + 1;
        }
        let mut k: usize = 0;
        while k < self.variables.len()
            invariant
                k <= self.variables@.len(),
                d == self.defined(),
                forall|j: int| 0 <= j < k ==> self.variables@[j]@ != word@,
            decreases self.variables@.len() - k,
        {
            if self.variables[k] == *word {
                assert(d[self.defined_words@.len() + k] == word@);
                return true;
            }
            k = k + 1;
        }
        let mut c: usize = 0;
        while c < self.constants.len()
            invariant
                c <= self.constants@.len(),
                d == self.defined(),
                forall|j: int| 0 <= j < c ==> self.constants@[j].0@ != word@,
            decreases self.constants@.len() - c,
        {
            if self.constants[c].0 == *word {
                assert(d[self.defined_words@.len() + self.variables@.len() + c] == word@);
                return true;
            }
            c = c + 1;
        }
        proof {
            assert forall|j: int| 0 <= j < d.len() implies d[j] != word@ by {
                if j < self.defined_words@.len() {
                } else if j < self.defined_words@.len() + self.variables@.len() {
                    assert(d[j] == self.variables@[j - self.defined_words@.len()]@);
                } else {
                    assert(d[j] == self.constants@[j - self.defined_words@.len() - self.variables@.len()].0@);
                }
            }
        }
        false
    }

    /// Records an error.
    fn error(&mut self, error: ForthError)
        ensures
            final(self).errors@ == old(self).errors@.push(error),
            final(self).defined_words == old(self).defined_words,
            final(self).variables == old(self).variables,
            final(self).constants == old(self).constants,
            final(self).stack_inference == old(self).stack_inference,
    {
        self.errors.push(error);
    }

    /// Reports references to undefined words in a word, nested words included.
    pub fn validate_word(&mut self, word: &Word) -> (r: Result<(), ForthError>)
        ensures
            r is Ok,
            extends_with(final(self).errors@, old(self).errors@, undefined_in_word(*word, old(self).defined())),
            final(self).defined_words == old(self).defined_words,
            final(self).variables == old(self).variables,
            final(self).constants == old(self).constants,
            final(self).stack_inference == old(self).stack_inference,
        decreases word_size(*word), 0int,
    {
        let ghost e0 = self.errors@;
        match word {
            Word::WordRef { name, .. } => {
                if !self.is_defined(name) {
                    self.error(ForthError::UndefinedWord { word: name.clone(), line: None });
                    assert(self.errors@.take(e0.len() as int) =~= e0);
                } else {
                    proof { lemma_extends_refl(e0); }
                }
            },
            Word::If { then_branch, else_branch } => {
                let ghost d = self.defined();
                let _ = self.validate_words(then_branch);
                let ghost e1 = self.errors@;
                match else_branch {
                    Some(else_words) => {
                        let _ = self.validate_words(else_words);
                        proof { lemma_extends_trans(e0, e1, self.errors@, undefined_in_words(then_branch@, d), undefined_in_words(else_words@, d)); }
                    },
                    None => {
                        assert(undefined_in_words(then_branch@, d) + Seq::<Issue>::empty() =~= undefined_in_words(then_branch@, d));
                    },
                }
            },
            Word::BeginUntil { body } => {
                let _ = self.validate_words(body);
            },
            Word::BeginWhileRepeat { condition, body } => {
                let ghost d = self.defined();
                let _ = self.validate_words(condition);
                let ghost e1 = self.errors@;
                let _ = self.validate_words(body);
                proof { lemma_extends_trans(e0, e1, self.errors@, undefined_in_words(condition@, d), undefined_in_words(body@, d)); }
            },
            Word::DoLoop { body, .. } => {
                let _ = self.validate_words(body);
            },
            _ => {
                proof { lemma_extends_refl(e0); }
            },
        }
        Ok(())
    }

    /// Reports references to undefined words in a sequence.
    pub fn validate_words(&mut self, words: &Vec<Word>) -> (r: Result<(), ForthError>)
        ensures
            r is Ok,
            extends_with(final(self).errors@, old(self).errors@, undefined_in_words(words@, old(self).defined())),
            final(self).defined_words == old(self).defined_words,
            final(self).variables == old(self).variables,
            final(self).constants == old(self).constants,
            final(self).stack_inference == old(self).stack_inference,
        decreases words_size(words@), 1int,
    {
        let ghost e0 = self.errors@;
        let ghost d = self.defined();
        let mut i: usize = 0;
        proof {
            lemma_extends_refl(e0);
            assert(words@.take(0) =~= Seq::<Word>::empty());
        }
        while i < words.len()
            invariant
                i <= words@.len(),
                d == self.defined(),
                self.defined_words == old(self).defined_words,
                self.variables == old(self).variables,
                self.constants == old(self).constants,
                self.stack_inference == old(self).stack_inference,
                e0 == old(self).errors@,
                extends_with(self.errors@, e0, undefined_in_words(words@.take(i as int), d)),
            decreases words@.len() - i,
        {
            proof { lemma_words_size_prefix(words@, i as int); }
            let ghost e1 = self.errors@;
            let _ = self.validate_word(&words[i]);
            proof {
                assert(words@.take(i + 1).drop_last() =~= words@.take(i as int));
                lemma_extends_trans(e0, e1, self.errors@, undefined_in_words(words@.take(i as int), d), undefined_in_word(words@[i as int], d));
            }
            i = i + 1;
        }
        assert(words@.take(words@.len() as int) =~= words@);
        Ok(())
    }
}

/// Whether some string of `v` has the characters of `name`.
fn contains_name(v: &Vec<String>, name: &String) -> (r: bool)
    ensures
        r == names_of(v@).contains(name@),
{
    let mut i: usize = 0;
    while i < v.len()
        invariant
            i <= v@.len(),
            forall|j: int| 0 <= j < i ==> v@[j]@ != name@,
        decreases v@.len() - i,
    {
        if v[i] == *name {
            assert(names_of(v@)[i as int] == name@);
            return true;
        }
        i = i + 1;
    }
    assert forall|j: int| 0 <= j < names_of(v@).len() implies names_of(v@)[j] != name@ by {
        assert(names_of(v@)[j] == v@[j]@);
    }
    false
}

/// The issues of a whole program, for an analyzer whose known words, variables,
/// constants and user effects are the given ones.
pub open spec fn program_issues(known: Seq<Seq<char>>, vars: Seq<Seq<char>>, consts: Seq<Seq<char>>,
    u0: Map<Seq<char>, EffectV>, p: Program) -> Seq<Issue>
{
    let defs = p.definitions@;
    let top = p.top_level_code@;
    let defined = (known + def_names(defs)) + (vars + variable_names(top)) + (consts + constant_decl_names(top));
    redefinitions(known, defs) + validation_issues(defs, defined, users_after(u0, defs)) + undefined_in_words(top, defined)
}

/// The counts of the stack effects met during the analysis fit in `usize`.
pub open spec fn analysis_fits(u0: Map<Seq<char>, EffectV>, p: Program) -> bool {
    let defs = p.definitions@;
    &&& forall|k: int| 0 <= k < defs.len() ==> (#[trigger] defs[k]).stack_effect is Some
        || seq_budget(defs[k].body@, builtin_table(), users_after(u0, defs.take(k))) <= usize::MAX
    &&& forall|k: int| 0 <= k < defs.len() ==> (#[trigger] defs[k]).stack_effect is Some
        ==> seq_budget(defs[k].body@, builtin_table(), users_after(u0, defs)) <= usize::MAX
}

impl SemanticAnalyzer {
    /// Whether some word of the sequence is a loop or a return-stack operation,
    /// directly or inside a branch.
    pub fn has_complex_control_flow(&self, words: &Vec<Word>) -> (r: bool)
        ensures
            r == words_complex(words@),
        decreases words_size(words@),
    {
        let mut i: usize = 0;
        assert(words@.take(0) =~= Seq::<Word>::empty());
        while i < words.len()
            invariant
                i <= words@.len(),
                !words_complex(words@.take(i as int)),
            decreases words@.len() - i,
        {
            proof {
                lemma_words_size_prefix(words@, i as int);
                assert(words@.take(i + 1).drop_last() =~= words@.take(i as int));
                assert(words@.take(i + 1).last() == words@[i as int]);
            }
            let complex = match &words[i] {
                Word::BeginUntil { .. } | Word::BeginWhileRepeat { .. } | Word::DoLoop { .. } => true,
                Word::WordRef { name, .. } => str_eq(name.as_str(), ">r") || str_eq(name.as_str(), "r>") || str_eq(name.as_str(), "r@"),
                Word::If { then_branch, else_branch } => {
                    if self.has_complex_control_flow(then_branch) {
                        true
                    } else {
                        match else_branch {
                            Some(else_words) => self.has_complex_control_flow(else_words),
                            None => false,
                        }
                    }
                },
                _ => false,
            };
            assert(complex == word_complex(words@[i as int]));
            if complex {
                proof { lemma_complex_prefix(words@, i + 1); }
                return true;
            }
            i = i + 1;
        }
        assert(words@.take(words@.len() as int) =~= words@);
        false
    }

    /// Control structures come balanced from the parser; nested ones are walked
    /// and nothing is reported.
    pub fn validate_control_structures(&self, words: &Vec<Word>) -> (r: Result<(), ForthError>)
        ensures
            r is Ok,
        decreases words_size(words@),
    {
        let mut i: usize = 0;
        while i < words.len()
            invariant
                i <= words@.len(),
            decreases words@.len() - i,
        {
            proof { lemma_words_size_prefix(words@, i as int); }
            match &words[i] {
                Word::If { then_branch, else_branch } => {
                    let _ = self.validate_control_structures(then_branch);
                    match else_branch {
                        Some(else_words) => {
                            let _ = self.validate_control_structures(else_words);
                        },
                        None => {},
                    }
                },
                Word::BeginUntil { body } => {
                    let _ = self.validate_control_structures(body);
                },
                Word::BeginWhileRepeat { condition, body } => {
                    let _ = self.validate_control_structures(condition);
                    let _ = self.validate_control_structures(body);
                },
                Word::DoLoop { body, .. } => {
                    let _ = self.validate_control_structures(body);
                },
                _ => {},
            }
            i = i + 1;
        }
        Ok(())
    }

    /// Reports undefined words in a definition's body, then a declared stack
    /// effect that disagrees with the inferred one.
    pub fn validate_definition(&mut self, def: &Definition) -> (r: Result<(), ForthError>)
        requires
            old(self).wf(),
            def.stack_effect is Some ==> seq_budget(def.body@, builtin_table(), old(self).stack_inference.users()) <= usize::MAX,
        ensures
            r is Ok,
            final(self).wf(),
            extends_with(final(self).errors@, old(self).errors@,
                undefined_in_words(def.body@, old(self).defined()) + mismatch(*def, old(self).stack_inference.users())),
            final(self).defined_words == old(self).defined_words,
            final(self).variables == old(self).variables,
            final(self).constants == old(self).constants,
            final(self).stack_inference == old(self).stack_inference,
    {
        let ghost e0 = self.errors@;
        let ghost d = self.defined();
        let ghost u = self.stack_inference.users();
        let _ = self.validate_control_structures(&def.body);
        let _ = self.validate_words(&def.body);
        let ghost e1 = self.errors@;
        let complex = self.has_complex_control_flow(&def.body);
        match &def.stack_effect {
            Some(declared) => {
                if !complex {
                    match self.stack_inference.infer_sequence(&def.body) {
                        Ok(inferred) => {
                            proof {
                                let c = seq_counts_v(def.body@, builtin_table(), u);
                                lemma_counts_nonneg(def.body@, builtin_table(), u);
                                assert(types_v(inferred.inputs@).len() == inferred.inputs@.len());
                                assert(types_v(inferred.outputs@).len() == inferred.outputs@.len());
                                assert(unknowns(c.0).len() == c.0);
                                assert(unknowns(c.1).len() == c.1);
                            }
                            if declared.inputs.len() != inferred.inputs.len() || declared.outputs.len() != inferred.outputs.len() {
                                let mut msg = String::new();
                                push_str(&mut msg, "Declared ");
                                let shown = declared.display_text();
                                push_str(&mut msg, shown.as_str());
                                push_str(&mut msg, " but inferred ( ");
                                let a = usize_text(inferred.inputs.len());
                                push_str(&mut msg, a.as_str());
                                push_str(&mut msg, " -- ");
                                let b = usize_text(inferred.outputs.len());
                                push_str(&mut msg, b.as_str());
                                push_str(&mut msg, " )");
                                self.error(ForthError::InvalidStackEffect { declaration: msg });
                                proof {
                                    assert(self.errors@.take(e1.len() as int) =~= e1);
                                    lemma_extends_trans(e0, e1, self.errors@, undefined_in_words(def.body@, d), mismatch(*def, u));
                                }
                            } else {
                                proof {
                                    lemma_extends_refl(e1);
                                    lemma_extends_trans(e0, e1, self.errors@, undefined_in_words(def.body@, d), mismatch(*def, u));
                                }
                            }
                        },
                        Err(e) => {
                            proof { assert(false); }
                            self.error(e);
                        },
                    }
                } else {
                    proof {
                        lemma_extends_refl(e1);
                        lemma_extends_trans(e0, e1, self.errors@, undefined_in_words(def.body@, d), mismatch(*def, u));
                    }
                }
            },
            None => {
                proof {
                    lemma_extends_refl(e1);
                    lemma_extends_trans(e0, e1, self.errors@, undefined_in_words(def.body@, d), mismatch(*def, u));
                }
            },
        }
        Ok(())
    }
}

proof fn lemma_counts_nonneg(ws: Seq<Word>, b: Seq<(Seq<char>, EffectV)>, u: Map<Seq<char>, EffectV>)
    ensures
        seq_counts_v(ws, b, u).0 >= 0,
        seq_counts_v(ws, b, u).1 >= 0,
    decreases ws.len(),
{
    if ws.len() > 0 {
        lemma_counts_nonneg(ws.drop_last(), b, u);
    }
}

/// Once a prefix has a complex word, so does every longer one.
proof fn lemma_complex_prefix(ws: Seq<Word>, k: int)
    requires
        0 < k <= ws.len(),
        word_complex(ws[k - 1]),
    ensures
        words_complex(ws),
    decreases ws.len() - k,
{
    if k == ws.len() {
        assert(ws.last() == ws[k - 1]);
    } else {
        assert(ws.drop_last()[k - 1] == ws[k - 1]);
        lemma_complex_prefix(ws.drop_last(), k);
    }
}

impl SemanticAnalyzer {
    /// First pass: records each definition's name and stack effect, reporting
    /// redefinitions.
    fn record_definitions(&mut self, program: &Program)
        requires
            old(self).wf(),
            analysis_fits(old(self).stack_inference.users(), *program),
        ensures
            final(self).wf(),
            names_of(final(self).defined_words@) == names_of(old(self).defined_words@) + def_names(program.definitions@),
            final(self).variables == old(self).variables,
            final(self).constants == old(self).constants,
            final(self).stack_inference.users() == users_after(old(self).stack_inference.users(), program.definitions@),
            extends_with(final(self).errors@, old(self).errors@, redefinitions(names_of(old(self).defined_words@), program.definitions@)),
    {
        let ghost e0 = self.errors@;
        let ghost known = names_of(self.defined_words@);
        let ghost u0 = self.stack_inference.users();
        let ghost defs = program.definitions@;
        let mut i: usize = 0;
        proof {
            lemma_extends_refl(e0);
            assert(defs.take(0) =~= Seq::<Definition>::empty());
            assert(known + def_names(defs.take(0)) =~= known);
        }
        while i < program.definitions.len()
            invariant
                i <= defs.len(),
                defs == program.definitions@,
                self.wf(),
                analysis_fits(u0, *program),
                names_of(self.defined_words@) == known + def_names(defs.take(i as int)),
                self.variables == old(self).variables,
                self.constants == old(self).constants,
                self.stack_inference.users() == users_after(u0, defs.take(i as int)),
                extends_with(self.errors@, e0, redefinitions(known, defs.take(i as int))),
            decreases defs.len() - i,
        {
            let def = &program.definitions[i];
            let ghost e1 = self.errors@;
            let ghost t = defs.take(i + 1);
            proof {
                assert(t.drop_last() =~= defs.take(i as int));
                assert(t.last() == defs[i as int]);
            }
            let seen = contains_name(&self.defined_words, &def.name);
            proof { lemma_concat_contains(known, def_names(defs.take(i as int)), def.name@); }
            if seen && !self.is_builtin(def.name.as_str()) {
                self.error(ForthError::RedefinitionError { word: def.name.clone() });
                proof {
                    assert(self.errors@.take(e1.len() as int) =~= e1);
                    lemma_extends_trans(e0, e1, self.errors@, redefinitions(known, defs.take(i as int)), seq![Issue::Redefinition(def.name@)]);
                    assert(redefinitions(known, defs.take(i as int)).push(Issue::Redefinition(def.name@))
                        =~= redefinitions(known, defs.take(i as int)) + seq![Issue::Redefinition(def.name@)]);
                }
            }
            let ghost dw = self.defined_words@;
            self.defined_words.push(def.name.clone());
            proof {
                assert(names_of(self.defined_words@) =~= names_of(dw).push(def.name@));
                assert(def_names(t) =~= def_names(defs.take(i as int)).push(def.name@));
                assert(names_of(self.defined_words@) =~= known + def_names(t));
            }
            match self.stack_inference.add_definition(def) {
                Ok(()) => {},
                Err(e) => {
                    proof { assert(false); }
                    self.error(e);
                },
            }
            i = i + 1;
        }
        proof { assert(defs.take(defs.len() as int) =~= defs); }
    }

    /// Records the top-level variables and constants.
    fn collect_declarations(&mut self, program: &Program)
        ensures
            final(self).defined_words == old(self).defined_words,
            final(self).stack_inference == old(self).stack_inference,
            final(self).errors == old(self).errors,
            names_of(final(self).variables@) == names_of(old(self).variables@) + variable_names(program.top_level_code@),
            constant_names(final(self).constants@) == constant_names(old(self).constants@) + constant_decl_names(program.top_level_code@),
    {
        let ghost top = program.top_level_code@;
        let ghost vars0 = names_of(self.variables@);
        let ghost consts0 = constant_names(self.constants@);
        let mut k: usize = 0;
        proof {
            assert(top.take(0) =~= Seq::<Word>::empty());
            assert(vars0 + variable_names(top.take(0)) =~= vars0);
            assert(consts0 + constant_decl_names(top.take(0)) =~= consts0);
        }
        while k < program.top_level_code.len()
            invariant
                k <= top.len(),
                top == program.top_level_code@,
                self.defined_words == old(self).defined_words,
                self.stack_inference == old(self).stack_inference,
                self.errors == old(self).errors,
                names_of(self.variables@) == vars0 + variable_names(top.take(k as int)),
                constant_names(self.constants@) == consts0 + constant_decl_names(top.take(k as int)),
            decreases top.len() - k,
        {
            let ghost t = top.take(k + 1);
            proof {
                assert(t.drop_last() =~= top.take(k as int));
                assert(t.last() == top[k as int]);
            }
            match &program.top_level_code[k] {
                Word::Variable { name } => {
                    let ghost v = self.variables@;
                    self.variables.push(name.clone());
                    assert(names_of(self.variables@) =~= names_of(v).push(name@));
                    assert(vars0 + variable_names(t) =~= (vars0 + variable_names(top.take(k as int))).push(name@));
                },
                Word::Constant { name, value } => {
                    let ghost c = self.constants@;
                    self.constants.push((name.clone(), *value));
                    assert(constant_names(self.constants@) =~= constant_names(c).push(name@));
                    assert(consts0 + constant_decl_names(t) =~= (consts0 + constant_decl_names(top.take(k as int))).push(name@));
                },
                _ => {},
            }
            k = k + 1;
        }
        proof { assert(top.take(top.len() as int) =~= top); }
    }

    /// Second pass: validates every definition.
    fn validate_definitions(&mut self, program: &Program)
        requires
            old(self).wf(),
            forall|k: int| 0 <= k < program.definitions@.len() ==> (#[trigger] program.definitions@[k]).stack_effect is Some
                ==> seq_budget(program.definitions@[k].body@, builtin_table(), old(self).stack_inference.users()) <= usize::MAX,
        ensures
            final(self).wf(),
            final(self).defined_words == old(self).defined_words,
            final(self).variables == old(self).variables,
            final(self).constants == old(self).constants,
            final(self).stack_inference == old(self).stack_inference,
            extends_with(final(self).errors@, old(self).errors@,
                validation_issues(program.definitions@, old(self).defined(), old(self).stack_inference.users())),
    {
        let ghost e0 = self.errors@;
        let ghost defs = program.definitions@;
        let ghost d = self.defined();
        let ghost uf = self.stack_inference.users();
        proof {
            lemma_extends_refl(e0);
            assert(defs.take(0) =~= Seq::<Definition>::empty());
        }
        let mut j: usize = 0;
        while j < program.definitions.len()
            invariant
                j <= defs.len(),
                defs == program.definitions@,
                self.wf(),
                forall|k: int| 0 <= k < defs.len() ==> (#[trigger] defs[k]).stack_effect is Some
                    ==> seq_budget(defs[k].body@, builtin_table(), uf) <= usize::MAX,
                self.defined_words == old(self).defined_words,
                self.variables == old(self).variables,
                self.constants == old(self).constants,
                self.stack_inference == old(self).stack_inference,
                d == self.defined(),
                uf == self.stack_inference.users(),
                extends_with(self.errors@, e0, validation_issues(defs.take(j as int), d, uf)),
            decreases defs.len() - j,
        {
            let ghost e1 = self.errors@;
            proof {
                assert(defs.take(j + 1).drop_last() =~= defs.take(j as int));
                assert(defs.take(j + 1).last() == defs[j as int]);
            }
            let _ = self.validate_definition(&program.definitions[j]);
            proof {
                lemma_extends_trans(e0, e1, self.errors@, validation_issues(defs.take(j as int), d, uf),
                    undefined_in_words(defs[j as int].body@, d) + mismatch(defs[j as int], uf));
                assert(validation_issues(defs.take(j as int), d, uf) + (undefined_in_words(defs[j as int].body@, d) + mismatch(defs[j as int], uf))
                    =~= validation_issues(defs.take(j + 1), d, uf));
            }
            j = j + 1;
        }
        proof { assert(defs.take(defs.len() as int) =~= defs); }
    }

    /// Analyzes a program: records its definitions (reporting redefinitions of
    /// anything but a primitive), its variables and constants, then reports
    /// undefined words and wrong stack-effect declarations in the definitions
    /// and undefined words in the top-level code. Fails with the first error
    /// collected so far, if there is one.
    pub fn analyze(&mut self, program: &Program) -> (r: Result<(), ForthError>)
        requires
            old(self).wf(),
            analysis_fits(old(self).stack_inference.users(), *program),
        ensures
            final(self).wf(),
            extends_with(final(self).errors@, old(self).errors@, program_issues(names_of(old(self).defined_words@),
                names_of(old(self).variables@), constant_names(old(self).constants@), old(self).stack_inference.users(), *program)),
            r is Ok <==> final(self).errors@.len() == 0,
            r matches Err(e) ==> final(self).errors@.len() > 0 && e == final(self).errors@[0],
            names_of(final(self).defined_words@) == names_of(old(self).defined_words@) + def_names(program.definitions@),
            names_of(final(self).variables@) == names_of(old(self).variables@) + variable_names(program.top_level_code@),
            constant_names(final(self).constants@) == constant_names(old(self).constants@) + constant_decl_names(program.top_level_code@),
            final(self).stack_inference.users() == users_after(old(self).stack_inference.users(), program.definitions@),
    {
        let ghost e0 = self.errors@;
        let ghost known = names_of(self.defined_words@);
        let ghost u0 = self.stack_inference.users();
        let ghost defs = program.definitions@;
        let ghost top = program.top_level_code@;
        self.record_definitions(program);
        let ghost e_redef = self.errors@;
        self.collect_declarations(program);
        let ghost d = self.defined();
        let ghost uf = self.stack_inference.users();
        self.validate_definitions(program);
        let ghost e_valid = self.errors@;
        let _ = self.validate_words(&program.top_level_code);
        proof {
            lemma_extends_trans(e0, e_redef, e_valid, redefinitions(known, defs), validation_issues(defs, d, uf));
            lemma_extends_trans(e0, e_valid, self.errors@, redefinitions(known, defs) + validation_issues(defs, d, uf), undefined_in_words(top, d));
        }
        if self.errors.len() > 0 {
            return Err(self.errors[0].duplicate());
        }
        Ok(())
    }

    /// The errors collected.
    pub fn errors(&self) -> (r: &[ForthError])
        ensures
            r@ == self.errors@,
    {
        self.errors.as_slice()
    }

    /// Whether any error was collected.
    pub fn has_errors(&self) -> (r: bool)
        ensures
            r == (self.errors@.len() > 0),
    {
        !self.errors.is_empty()
    }
}

impl Default for SemanticAnalyzer {
    fn default() -> (r: Self)
        ensures
            r.wf(),
            names_of(r.defined_words@) == builtin_names(),
            r.variables@.len() == 0,
            r.constants@.len() == 0,
            r.errors@.len() == 0,
            r.stack_inference.users() == Map::<Seq<char>, EffectV>::empty(),
    {
        Self::new()
    }
}

/// The issues that a fresh analyzer reports for a program.
pub open spec fn fresh_issues(p: Program) -> Seq<Issue> {
    program_issues(builtin_names(), seq![], seq![], Map::empty(), p)
}

proof fn lemma_concat_contains(a: Seq<Seq<char>>, b: Seq<Seq<char>>, n: Seq<char>)
    ensures
        (a + b).contains(n) <==> (a.contains(n) || b.contains(n)),
{
    if (a + b).contains(n) {
        let k = choose|k: int| 0 <= k < (a + b).len() && (a + b)[k] == n;
        if k >= a.len() {
            assert(b[k - a.len()] == n);
        }
    }
    if a.contains(n) {
        let k = choose|k: int| 0 <= k < a.len() && a[k] == n;
        assert((a + b)[k] == n);
    }
    if b.contains(n) {
        let k = choose|k: int| 0 <= k < b.len() && b[k] == n;
        assert((a + b)[a.len() + k] == n);
    }
}

/// A fresh analyzer reports, for a program, the issues of `fresh_issues`.
proof fn lemma_fresh(a: SemanticAnalyzer, p: Program)
    requires
        names_of(a.defined_words@) == builtin_names(),
        a.variables@.len() == 0,
        a.constants@.len() == 0,
        a.stack_inference.users() == Map::<Seq<char>, EffectV>::empty(),
    ensures
        program_issues(names_of(a.defined_words@), names_of(a.variables@), constant_names(a.constants@),
            a.stack_inference.users(), p) == fresh_issues(p),
{
    assert(names_of(a.variables@) =~= Seq::<Seq<char>>::empty());
    assert(constant_names(a.constants@) =~= Seq::<Seq<char>>::empty());
}

/// Analyzes a program with a fresh analyzer: `Ok` exactly when there is no
/// issue, else the error reporting the first one.
pub fn analyze(program: &Program) -> (r: Result<(), ForthError>)
    requires
        analysis_fits(Map::empty(), *program),
    ensures
        r is Ok <==> fresh_issues(*program).len() == 0,
        r matches Err(e) ==> reports(e, fresh_issues(*program)[0]),
{
    let mut analyzer = SemanticAnalyzer::new();
    proof { lemma_fresh(analyzer, *program); }
    let r = analyzer.analyze(program);
    proof {
        let e = analyzer.errors@;
        if e.len() > 0 {
            assert(reports(e[0int + 0int], fresh_issues(*program)[0]));
        }
    }
    r
}

/// The outcome of a validation, with every error found.
#[derive(Debug, Clone)]
pub struct ValidationResult {
    pub passed: bool,
    pub errors: Vec<ForthError>,
    pub warnings: Vec<String>,
}

impl ValidationResult {
    /// A passed validation.
    pub fn success() -> (r: Self)
        ensures
            r.passed,
            r.errors@.len() == 0,
            r.warnings@.len() == 0,
    {
        ValidationResult { passed: true, errors: Vec::new(), warnings: Vec::new() }
    }

    /// A validation with these errors; it passed when there are none.
    pub fn with_errors(errors: Vec<ForthError>) -> (r: Self)
        ensures
            r.passed == (errors@.len() == 0),
            r.errors@ == errors@,
            r.warnings@.len() == 0,
    {
        let passed = errors.len() == 0;
        ValidationResult { passed, errors, warnings: Vec::new() }
    }
}

/// Copies a list of errors.
fn copy_errors(v: &Vec<ForthError>) -> (r: Vec<ForthError>)
    ensures
        r@ == v@,
{
    let mut r: Vec<ForthError> = Vec::new();
    let mut i: usize = 0;
    while i < v.len()
        invariant
            i <= v@.len(),
            r@ == v@.take(i as int),
        decreases v@.len() - i,
    {
        r.push(v[i].duplicate());
        assert(r@ =~= v@.take(i + 1));
        i = i + 1;
    }
    assert(v@.take(v@.len() as int) =~= v@);
    r
}

/// Validates a program with a fresh analyzer, keeping every error found.
pub fn validate_program(program: &Program) -> (r: ValidationResult)
    requires
        analysis_fits(Map::empty(), *program),
    ensures
        r.passed <==> fresh_issues(*program).len() == 0,
        extends_with(r.errors@, seq![], fresh_issues(*program)),
        r.warnings@.len() == 0,
{
    let mut analyzer = SemanticAnalyzer::new();
    proof { lemma_fresh(analyzer, *program); }
    match analyzer.analyze(program) {
        Ok(()) => {
            let r = ValidationResult::success();
            proof {
                assert(fresh_issues(*program).len() == 0);
                assert(r.errors@ =~= Seq::<ForthError>::empty());
                assert(r.errors@.take(0) =~= Seq::<ForthError>::empty());
            }
            r
        },
        Err(_) => {
            let r = ValidationResult::with_errors(copy_errors(&analyzer.errors));
            proof { assert(Seq::<ForthError>::empty().len() == 0); assert(r.errors@.take(0) =~= Seq::<ForthError>::empty()); }
            r
        },
    }
}

} // verus!
