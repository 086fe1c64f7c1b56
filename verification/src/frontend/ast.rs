//! The syntax tree of a Forth program, and the lexer's tokens.
use vstd::prelude::*;
use crate::text::{push_str, usize_text, i64_text, decimal_text};

verus! {

/// A complete Forth program: its definitions and its top-level code.
#[derive(Debug, PartialEq)]
pub struct Program {
    pub definitions: Vec<Definition>,
    pub top_level_code: Vec<Word>,
}

impl Program {
    pub fn new() -> (r: Self)
        ensures
            r.definitions@.len() == 0,
            r.top_level_code@.len() == 0,
    {
        Program { definitions: Vec::new(), top_level_code: Vec::new() }
    }
}

/// A word definition `: name ... ;`.
#[derive(Debug, PartialEq)]
pub struct Definition {
    pub name: String,
    pub body: Vec<Word>,
    pub immediate: bool,
    pub stack_effect: Option<StackEffect>,
    pub location: SourceLocation,
}

/// A position in the source, for error reports.
#[derive(Debug, Clone, Copy, PartialEq, Eq, Default)]
pub struct SourceLocation {
    pub line: usize,
    pub column: usize,
}

/// A declared stack effect `( in1 in2 -- out1 )`.
#[derive(Debug, Clone, PartialEq)]
pub struct StackEffect {
    pub inputs: Vec<StackType>,
    pub outputs: Vec<StackType>,
}

impl StackEffect {
    pub fn new(inputs: Vec<StackType>, outputs: Vec<StackType>) -> (r: Self)
        ensures
            r.inputs@ == inputs@,
            r.outputs@ == outputs@,
    {
        StackEffect { inputs, outputs }
    }

    /// An identical copy of this effect.
    pub fn duplicate(&self) -> (r: StackEffect)
        ensures
            r.inputs@ == self.inputs@,
            r.outputs@ == self.outputs@,
    {
        StackEffect { inputs: copy_stack_types(&self.inputs), outputs: copy_stack_types(&self.outputs) }
    }

    /// Items produced minus items consumed.
    pub fn net_effect(&self) -> (r: i32)
        requires
            self.inputs@.len() <= i32::MAX,
            self.outputs@.len() <= i32::MAX,
        ensures
            r == self.outputs@.len() - self.inputs@.len(),
    {
        self.outputs.len() as i32 - self.inputs.len() as i32
    }

    /// The text this effect displays: `( in1 in2 -- out1 )`.
    pub fn display_text(&self) -> (r: String)
        ensures
            r@ == "( "@ + joined_type_texts(self.inputs@) + " -- "@ + joined_type_texts(self.outputs@) + " )"@,
    {
        let mut r = String::new();
        push_str(&mut r, "( ");
        push_type_texts(&mut r, &self.inputs);
        push_str(&mut r, " -- ");
        push_type_texts(&mut r, &self.outputs);
        push_str(&mut r, " )");
        r
    }
}

/// A copy of a list of stack types.
pub fn copy_stack_types(v: &Vec<StackType>) -> (r: Vec<StackType>)
    ensures
        r@ == v@,
{
    let mut r: Vec<StackType> = Vec::new();
    let mut i: usize = 0;
    while i < v.len()
        invariant
            i <= v.len(),
            r@ == v@.take(i as int),
        decreases v.len() - i,
    {
        r.push(v[i].duplicate());
        i = i + 1;
        assert(r@ =~= v@.take(i as int));
    }
    assert(v@.take(v.len() as int) =~= v@);
    r
}

/// The type of a stack item.
#[derive(Debug, Clone, PartialEq, Eq, Hash)]
pub enum StackType {
    Int,
    Float,
    Addr,
    Bool,
    Char,
    String,
    /// A type variable, for polymorphic words.
    Var(TypeVar),
    /// Not yet inferred.
    Unknown,
}

/// A type variable.
#[derive(Debug, Clone, PartialEq, Eq, Hash)]
pub struct TypeVar {
    pub id: usize,
    pub name: Option<String>,
}

/// The text a type variable displays: `'name`, or `'t` and its number.
pub open spec fn type_var_text(v: TypeVar) -> Seq<char> {
    match v.name {
        Some(n) => "'"@ + n@,
        None => "'t"@ + decimal_text(v.id as int),
    }
}

/// The text a stack type displays.
pub open spec fn stack_type_text(t: StackType) -> Seq<char> {
    match t {
        StackType::Int => "int"@,
        StackType::Float => "float"@,
        StackType::Addr => "addr"@,
        StackType::Bool => "bool"@,
        StackType::Char => "char"@,
        StackType::String => "string"@,
        StackType::Var(v) => type_var_text(v),
        StackType::Unknown => "?"@,
    }
}

/// The texts of `ts` joined with a space.
pub open spec fn joined_type_texts(ts: Seq<StackType>) -> Seq<char>
    decreases ts.len(),
{
    if ts.len() == 0 {
        Seq::empty()
    } else if ts.len() == 1 {
        stack_type_text(ts[0])
    } else {
        joined_type_texts(ts.drop_last()) + " "@ + stack_type_text(ts.last())
    }
}

impl TypeVar {
    /// The text this variable displays.
    pub fn display_text(&self) -> (r: String)
        ensures
            r@ == type_var_text(*self),
    {
        let mut r = String::new();
        match &self.name {
            Some(n) => {
                push_str(&mut r, "'");
                push_str(&mut r, n.as_str());
            }
            None => {
                push_str(&mut r, "'t");
                let d = usize_text(self.id);
                push_str(&mut r, d.as_str());
            }
        }
        r
    }
}

impl StackType {
    /// An identical copy of this type.
    pub fn duplicate(&self) -> (r: StackType)
        ensures
            r == *self,
    {
        match self {
            StackType::Int => StackType::Int,
            StackType::Float => StackType::Float,
            StackType::Addr => StackType::Addr,
            StackType::Bool => StackType::Bool,
            StackType::Char => StackType::Char,
            StackType::String => StackType::String,
            StackType::Var(v) => StackType::Var(TypeVar { id: v.id, name: match &v.name {
                Some(n) => Some(n.clone()),
                None => None,
            } }),
            StackType::Unknown => StackType::Unknown,
        }
    }

    /// The text this type displays.
    pub fn display_text(&self) -> (r: String)
        ensures
            r@ == stack_type_text(*self),
    {
        match self {
            StackType::Var(v) => v.display_text(),
            _ => {
                let mut r = String::new();
                match self {
                    StackType::Int => push_str(&mut r, "int"),
                    StackType::Float => push_str(&mut r, "float"),
                    StackType::Addr => push_str(&mut r, "addr"),
                    StackType::Bool => push_str(&mut r, "bool"),
                    StackType::Char => push_str(&mut r, "char"),
                    StackType::String => push_str(&mut r, "string"),
                    _ => push_str(&mut r, "?"),
                }
                r
            }
        }
    }
}

/// Appends the texts of `ts`, joined with a space.
fn push_type_texts(out: &mut String, ts: &Vec<StackType>)
    ensures
        final(out)@ == old(out)@ + joined_type_texts(ts@),
{
    let ghost start = out@;
    let mut i: usize = 0;
    while i < ts.len()
        invariant
            i <= ts.len(),
            out@ == start + joined_type_texts(ts@.take(i as int)),
        decreases ts.len() - i,
    {
        assert(ts@.take(i + 1).drop_last() =~= ts@.take(i as int));
        if i > 0 {
            push_str(out, " ");
        }
        let t = ts[i].display_text();
        push_str(out, t.as_str());
        proof {
            if i == 0 {
                assert(ts@.take(1) =~= seq![ts@[0]]);
            }
            assert(out@ =~= start + joined_type_texts(ts@.take(i + 1)));
        }
        i = i + 1;
    }
    assert(ts@.take(ts.len() as int) =~= ts@);
}

/// A word of Forth code.
#[derive(Debug, PartialEq)]
pub enum Word {
    IntLiteral(i64),
    /// A floating-point literal, kept as its source text.
    FloatLiteral(String),
    StringLiteral(String),
    /// A reference to (call of) another word.
    WordRef { name: String, location: SourceLocation },
    If { then_branch: Vec<Word>, else_branch: Option<Vec<Word>> },
    BeginUntil { body: Vec<Word> },
    BeginWhileRepeat { condition: Vec<Word>, body: Vec<Word> },
    /// `DO ... LOOP` (increment 1) or `DO ... +LOOP`.
    DoLoop { body: Vec<Word>, increment: i64 },
    Variable { name: String },
    Constant { name: String, value: i64 },
    /// A comment, kept for documentation.
    Comment(String),
}

/// Whether code is being interpreted or compiled.
#[derive(Debug, Clone, Copy, PartialEq, Eq)]
pub enum CompilationMode {
    Interpret,
    Compile,
}

/// A token of the lexer.
#[derive(Debug, Clone, PartialEq)]
pub enum Token {
    Colon,
    Semicolon,
    Word(String),
    Integer(i64),
    /// A floating-point literal, kept as its source text.
    Float(String),
    String(String),
    LeftParen,
    RightParen,
    /// `--` inside a stack effect.
    StackEffectSep,
    If,
    Then,
    Else,
    Do,
    Loop,
    PlusLoop,
    Begin,
    Until,
    While,
    Repeat,
    Variable,
    Constant,
    Immediate,
    Eof,
}

/// The text a token displays.
pub open spec fn token_text(t: Token) -> Seq<char> {
    match t {
        Token::Colon => ":"@,
        Token::Semicolon => ";"@,
        Token::Word(w) => w@,
        Token::Integer(i) => decimal_text(i as int),
        Token::Float(f) => f@,
        Token::String(s) => "\""@ + s@ + "\""@,
        Token::LeftParen => "("@,
        Token::RightParen => ")"@,
        Token::StackEffectSep => "--"@,
        Token::If => "IF"@,
        Token::Then => "THEN"@,
        Token::Else => "ELSE"@,
        Token::Do => "DO"@,
        Token::Loop => "LOOP"@,
        Token::PlusLoop => "+LOOP"@,
        Token::Begin => "BEGIN"@,
        Token::Until => "UNTIL"@,
        Token::While => "WHILE"@,
        Token::Repeat => "REPEAT"@,
        Token::Variable => "VARIABLE"@,
        Token::Constant => "CONSTANT"@,
        Token::Immediate => "IMMEDIATE"@,
        Token::Eof => "<EOF>"@,
    }
}

impl Token {
    /// An identical copy of this token.
    pub fn duplicate(&self) -> (r: Token)
        ensures
            r == *self,
    {
        match self {
            Token::Colon => Token::Colon,
            Token::Semicolon => Token::Semicolon,
            Token::Word(w) => Token::Word(w.clone()),
            Token::Integer(i) => Token::Integer(*i),
            Token::Float(f) => Token::Float(f.clone()),
            Token::String(s) => Token::String(s.clone()),
            Token::LeftParen => Token::LeftParen,
            Token::RightParen => Token::RightParen,
            Token::StackEffectSep => Token::StackEffectSep,
            Token::If => Token::If,
            Token::Then => Token::Then,
            Token::Else => Token::Else,
            Token::Do => Token::Do,
            Token::Loop => Token::Loop,
            Token::PlusLoop => Token::PlusLoop,
            Token::Begin => Token::Begin,
            Token::Until => Token::Until,
            Token::While => Token::While,
            Token::Repeat => Token::Repeat,
            Token::Variable => Token::Variable,
            Token::Constant => Token::Constant,
            Token::Immediate => Token::Immediate,
            Token::Eof => Token::Eof,
        }
    }

    /// The text this token displays (a float by its source text).
    pub fn display_text(&self) -> (r: String)
        ensures
            r@ == token_text(*self),
    {
        let mut r = String::new();
        match self {
            Token::Colon => push_str(&mut r, ":"),
            Token::Semicolon => push_str(&mut r, ";"),
            Token::Word(w) => push_str(&mut r, w.as_str()),
            Token::Integer(i) => {
                let d = i64_text(*i);
                push_str(&mut r, d.as_str());
            }
            Token::Float(f) => push_str(&mut r, f.as_str()),
            Token::String(s) => {
                push_str(&mut r, "\"");
                push_str(&mut r, s.as_str());
                push_str(&mut r, "\"");
            }
            Token::LeftParen => push_str(&mut r, "("),
            Token::RightParen => push_str(&mut r, ")"),
            Token::StackEffectSep => push_str(&mut r, "--"),
            Token::If => push_str(&mut r, "IF"),
            Token::Then => push_str(&mut r, "THEN"),
            Token::Else => push_str(&mut r, "ELSE"),
            Token::Do => push_str(&mut r, "DO"),
            Token::Loop => push_str(&mut r, "LOOP"),
            Token::PlusLoop => push_str(&mut r, "+LOOP"),
            Token::Begin => push_str(&mut r, "BEGIN"),
            Token::Until => push_str(&mut r, "UNTIL"),
            Token::While => push_str(&mut r, "WHILE"),
            Token::Repeat => push_str(&mut r, "REPEAT"),
            Token::Variable => push_str(&mut r, "VARIABLE"),
            Token::Constant => push_str(&mut r, "CONSTANT"),
            Token::Immediate => push_str(&mut r, "IMMEDIATE"),
            Token::Eof => push_str(&mut r, "<EOF>"),
        }
        r
    }
}

impl Default for Program {
    fn default() -> (r: Self)
        ensures
            r.definitions@.len() == 0,
            r.top_level_code@.len() == 0,
    {
        Program::new()
    }
}

} // verus!
