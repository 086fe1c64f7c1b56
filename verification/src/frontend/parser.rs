//! The parser: tokens to a program's syntax tree.
use vstd::prelude::*;
use crate::text::push_str;
use crate::frontend::ast::{Program, Definition, Word, StackEffect, StackType, SourceLocation, Token, token_text};
use crate::frontend::error::ForthError;
use crate::frontend::lexer::{Lexer, lex_all, lexed_as_error, utf8_len, token_view, TokView, next_spec, lexed_as, Lexed};

verus! {

/// The construct whose body is being read, which decides the tokens that end it.
#[derive(Debug, Clone, Copy, PartialEq, Eq, Structural)]
pub enum Construct {
    Definition,
    If,
    Else,
    Begin,
    While,
    Do,
}

/// The name of a construct in error messages.
pub open spec fn construct_name(c: Construct) -> Seq<char> {
    match c {
        Construct::Definition => "definition"@,
        Construct::If => "IF"@,
        Construct::Else => "ELSE"@,
        Construct::Begin => "BEGIN"@,
        Construct::While => "WHILE"@,
        Construct::Do => "DO"@,
    }
}

/// The tokens that end the body of a construct.
pub open spec fn ends(c: Construct, t: TokView) -> bool {
    match c {
        Construct::Definition => t is Semicolon,
        Construct::If => t is Else || t is Then,
        Construct::Else => t is Then,
        Construct::Begin => t is Until || t is While,
        Construct::While => t is Repeat,
        Construct::Do => t is Loop || t is PlusLoop,
    }
}

/// Tokens that may stand in a body as a word of their own.
pub open spec fn is_body_token(t: TokView) -> bool {
    t is Word || t is Integer || t is Float || t is Str || t is If || t is Begin || t is Do
}

/// The message for a body of `c` that the input ends inside.
pub open spec fn unterminated(c: Construct) -> Seq<char> {
    "Unterminated "@ + construct_name(c)
}

/// The message for a token that cannot stand in a body of `c`.
pub open spec fn unexpected_in(c: Construct, t: Token) -> Seq<char> {
    "Unexpected token in "@ + construct_name(c) + ": "@ + token_text(t)
}

/// Reading the body of `c` from position `i` of `t`, with `n` words read so
/// far: the position after the token that ends it, that token and the number
/// of words; or an error message with the position it is reported at.
pub open spec fn body_from(t: Seq<Token>, i: int, c: Construct, n: int) -> Result<(int, Token, int), (Seq<char>, int)>
    decreases t.len() - i, 1int,
{
    if i < 0 || i >= t.len() {
        Err((unterminated(c), i))
    } else if ends(c, token_view(t[i])) {
        Ok((i + 1, t[i], n))
    } else if t[i] is Eof {
        Err((unterminated(c), i))
    } else if !is_body_token(token_view(t[i])) {
        Err((unexpected_in(c, t[i]), i))
    } else {
        match item_from(t, i) {
            Ok(j) => if i < j && j <= t.len() { body_from(t, j, c, n + 1) } else { Err((unterminated(c), j)) },
            Err(e) => Err(e),
        }
    }
}

/// Reading one word of a body at position `i` of `t` (a literal, a reference
/// or a control structure): the position after it, or an error.
pub open spec fn item_from(t: Seq<Token>, i: int) -> Result<int, (Seq<char>, int)>
    decreases t.len() - i, 0int,
{
    if i < 0 || i >= t.len() {
        Err((unterminated(Construct::Definition), i))
    } else {
        match t[i] {
            Token::Integer(_) | Token::Float(_) | Token::String(_) | Token::Word(_) => Ok(i + 1),
            Token::If => match body_from(t, i + 1, Construct::If, 0) {
                Ok((j, end, _)) => if end is Else {
                    if i < j && j <= t.len() {
                        match body_from(t, j, Construct::Else, 0) {
                            Ok((k, _, _)) => Ok(k),
                            Err(e) => Err(e),
                        }
                    } else {
                        Err((unterminated(Construct::Else), j))
                    }
                } else {
                    Ok(j)
                },
                Err(e) => Err(e),
            },
            Token::Begin => match body_from(t, i + 1, Construct::Begin, 0) {
                Ok((j, end, _)) => if end is While {
                    if i < j && j <= t.len() {
                        match body_from(t, j, Construct::While, 0) {
                            Ok((k, _, _)) => Ok(k),
                            Err(e) => Err(e),
                        }
                    } else {
                        Err((unterminated(Construct::While), j))
                    }
                } else {
                    Ok(j)
                },
                Err(e) => Err(e),
            },
            _ => match body_from(t, i + 1, Construct::Do, 0) {
                Ok((j, _, _)) => Ok(j),
                Err(e) => Err(e),
            },
        }
    }
}

/// `r` is the parse error `m` reported at the location of position `at`.
pub open spec fn parse_error_at<T>(r: Result<T, ForthError>, m: Seq<char>, locs: Seq<SourceLocation>, at: int) -> bool {
    r matches Err(ForthError::ParseError { line, column, message })
        && message@ == m && line == locs[at].line && column == locs[at].column
}

/// `n` items of unknown type.
pub open spec fn unknowns(n: int) -> Seq<StackType> {
    Seq::new(n as nat, |k: int| StackType::Unknown)
}

/// Reading a declared stack effect from position `i` of `t` (after its `(`),
/// with `ni` inputs and `no` outputs read so far and `after` telling whether
/// the `--` was read: the input and output counts and the position after the
/// `)`, or an error.
pub open spec fn effect_from(t: Seq<Token>, i: int, after: bool, ni: int, no: int) -> Result<(int, int, int), (Seq<char>, int)>
    decreases t.len() - i,
{
    if i < 0 || i >= t.len() {
        Err(("Unterminated stack effect"@, i))
    } else {
        match t[i] {
            Token::RightParen => Ok((ni, no, i + 1)),
            Token::StackEffectSep => if after {
                Err(("Unexpected token in stack effect: --"@, i))
            } else {
                effect_from(t, i + 1, true, ni, no)
            },
            Token::Word(_) | Token::Integer(_) | Token::Float(_) => if after {
                effect_from(t, i + 1, after, ni, no + 1)
            } else {
                effect_from(t, i + 1, after, ni + 1, no)
            },
            Token::Eof => Err(("Unterminated stack effect"@, i)),
            _ => Err(("Unexpected token in stack effect: "@ + token_text(t[i]), i)),
        }
    }
}

/// Reading a definition from position `i` of `t` (after its `:`): the
/// position after its `;`, the input and output counts of its declared stack
/// effect if it has one, and the number of words of its body; or an error.
pub open spec fn def_from(t: Seq<Token>, i: int) -> Result<(int, Option<(int, int)>, int), (Seq<char>, int)> {
    if i < 0 || i >= t.len() {
        Err(("Unterminated definition: expected a name after ':'"@, i))
    } else {
        match t[i] {
            Token::Word(_) => {
                let j = i + 1;
                let eff: Result<(Option<(int, int)>, int), (Seq<char>, int)> = if j < t.len() && t[j] is LeftParen {
                    match effect_from(t, j + 1, false, 0, 0) {
                        Ok((ni, no, k)) => Ok((Some((ni, no)), k)),
                        Err(e) => Err(e),
                    }
                } else {
                    Ok((None, j))
                };
                match eff {
                    Err(e) => Err(e),
                    Ok((ef, k)) => match body_from(t, k, Construct::Definition, 0) {
                        Ok((end, _, n)) => Ok((end, ef, n)),
                        Err(e) => Err(e),
                    },
                }
            },
            Token::Eof => Err(("Unterminated definition: expected a name after ':'"@, i)),
            _ => Err(("Expected a word name after ':'"@, i)),
        }
    }
}

/// The text of a name token.
pub open spec fn name_text(t: Token) -> Seq<char> {
    match t {
        Token::Word(w) => w@,
        _ => Seq::empty(),
    }
}

/// Reading a whole program from position `i` of `t`, with the names and
/// `IMMEDIATE` marks of the definitions read so far, the number of top-level
/// words and whether the last of them is an integer literal: the names, the
/// marks and the number of top-level words at the end, or an error.
pub open spec fn program_from(t: Seq<Token>, i: int, names: Seq<Seq<char>>, imm: Seq<bool>, top: int, last_int: bool)
    -> Result<(Seq<Seq<char>>, Seq<bool>, int), (Seq<char>, int)>
    decreases t.len() - i,
{
    if i < 0 || i >= t.len() {
        Err(("Unexpected end of input"@, i))
    } else {
        let step: Result<(int, Seq<Seq<char>>, Seq<bool>, int, bool), (Seq<char>, int)> = match t[i] {
            Token::Eof => Err((Seq::empty(), i)),
            Token::Colon => match def_from(t, i + 1) {
                Ok((end, _, _)) => Ok((end, names.push(name_text(t[i + 1])), imm.push(false), top, last_int)),
                Err(e) => Err(e),
            },
            Token::Immediate => if names.len() == 0 {
                Err(("IMMEDIATE without a preceding definition"@, i))
            } else {
                Ok((i + 1, names, imm.update(imm.len() - 1, true), top, last_int))
            },
            Token::Variable => if i + 1 < t.len() && t[i + 1] is Word {
                Ok((i + 2, names, imm, top + 1, false))
            } else {
                Err(("Expected a variable name after VARIABLE"@, i + 1))
            },
            Token::Constant => if !last_int {
                Err(("Expected a constant value before CONSTANT"@, i))
            } else if i + 1 < t.len() && t[i + 1] is Word {
                Ok((i + 2, names, imm, top, false))
            } else {
                Err(("Expected a constant name after CONSTANT"@, i + 1))
            },
            _ => if !is_body_token(token_view(t[i])) {
                Err(("Unexpected token: "@ + token_text(t[i]), i))
            } else {
                match item_from(t, i) {
                    Ok(j) => Ok((j, names, imm, top + 1, t[i] is Integer)),
                    Err(e) => Err(e),
                }
            },
        };
        if t[i] is Eof {
            Ok((names, imm, top))
        } else {
            match step {
                Err(e) => Err(e),
                Ok((j, n2, m2, top2, li2)) => if j <= i {
                    Err(("Unexpected end of input"@, j))
                } else if j > t.len() {
                    Err(("Unexpected end of input"@, j))
                } else {
                    program_from(t, j, n2, m2, top2, li2)
                },
            }
        }
    }
}

/// The names of definitions, in order.
pub open spec fn def_names(ds: Seq<Definition>) -> Seq<Seq<char>> {
    ds.map_values(|d: Definition| d.name@)
}

/// The `IMMEDIATE` marks of definitions, in order.
pub open spec fn def_imms(ds: Seq<Definition>) -> Seq<bool> {
    ds.map_values(|d: Definition| d.immediate)
}

/// The last word is an integer literal.
pub open spec fn last_is_int(ws: Seq<Word>) -> bool {
    ws.len() > 0 && ws.last() is IntLiteral
}

/// A token list read from a lexer, each token with the place where it was read.
pub struct Parser {
    pub tokens: Vec<Token>,
    pub locations: Vec<SourceLocation>,
    pub pos: usize,
}

/// The ends of the body of a construct, as a word of the language.
fn construct_text(c: Construct) -> (r: &'static str)
    ensures
        r@ == construct_name(c),
{
    match c {
        Construct::Definition => "definition",
        Construct::If => "IF",
        Construct::Else => "ELSE",
        Construct::Begin => "BEGIN",
        Construct::While => "WHILE",
        Construct::Do => "DO",
    }
}

/// The token ends the body of `c`.
fn ends_body(c: Construct, t: &Token) -> (r: bool)
    ensures
        r == ends(c, token_view(*t)),
{
    match c {
        Construct::Definition => matches!(t, Token::Semicolon),
        Construct::If => matches!(t, Token::Else | Token::Then),
        Construct::Else => matches!(t, Token::Then),
        Construct::Begin => matches!(t, Token::Until | Token::While),
        Construct::While => matches!(t, Token::Repeat),
        Construct::Do => matches!(t, Token::Loop | Token::PlusLoop),
    }
}

impl Parser {
    /// There is one location per token, the last token is `Eof`, and the
    /// position is on a token.
    pub open spec fn wf(&self) -> bool {
        &&& self.tokens@.len() == self.locations@.len()
        &&& self.tokens@.len() > 0
        &&& self.tokens@.last() is Eof
        &&& self.pos < self.tokens@.len()
    }

    /// The token at the current position.
    fn current(&self) -> (r: &Token)
        requires
            self.wf(),
        ensures
            *r == self.tokens@[self.pos as int],
    {
        &self.tokens[self.pos]
    }

    /// A parse error at the current token.
    fn error_here(&self, message: String) -> (r: ForthError)
        requires
            self.wf(),
        ensures
            r matches ForthError::ParseError { message: m, line, column } && m@ == message@
                && line == self.locations@[self.pos as int].line && column == self.locations@[self.pos as int].column,
    {
        let loc = self.locations[self.pos];
        ForthError::ParseError { line: loc.line, column: loc.column, message }
    }

    /// Moves to the next token, staying on `Eof`.
    fn bump(&mut self)
        requires
            old(self).wf(),
        ensures
            final(self).wf(),
            final(self).tokens@ == old(self).tokens@,
            final(self).locations@ == old(self).locations@,
            old(self).tokens@[old(self).pos as int] is Eof ==> final(self).pos == old(self).pos,
            !(old(self).tokens@[old(self).pos as int] is Eof) ==> final(self).pos == old(self).pos + 1,
    {
        if !matches!(self.tokens[self.pos], Token::Eof) {
            assert(self.pos != self.tokens@.len() - 1);
            let n = self.tokens.len();
            assert(self.pos + 1 < n);
            self.pos = self.pos + 1;
        }
    }

    /// Reads the words of the body of `c` up to a token that ends it, and
    /// returns them with that token (which is consumed).
    pub fn parse_body(&mut self, c: Construct) -> (r: Result<(Vec<Word>, Token), ForthError>)
        requires
            old(self).wf(),
        ensures
            final(self).wf(),
            final(self).tokens@ == old(self).tokens@,
            final(self).locations@ == old(self).locations@,
            final(self).pos >= old(self).pos,
            r matches Ok((_, t)) ==> ends(c, token_view(t)) && final(self).pos > old(self).pos,
            r matches Err(e) ==> e is ParseError,
            match body_from(old(self).tokens@, old(self).pos as int, c, 0) {
                Ok((j, end, n)) => r matches Ok((ws, e)) && final(self).pos == j && e == end && ws@.len() == n,
                Err((m, at)) => parse_error_at(r, m, old(self).locations@, at),
            },
        decreases old(self).tokens@.len() - old(self).pos, 1int,
    {
        let mut words: Vec<Word> = Vec::new();
        loop
            invariant
                self.wf(),
                self.tokens@ == old(self).tokens@,
                self.locations@ == old(self).locations@,
                self.pos >= old(self).pos,
                body_from(old(self).tokens@, old(self).pos as int, c, 0)
                    == body_from(self.tokens@, self.pos as int, c, words@.len() as int),
            decreases self.tokens@.len() - self.pos,
        {
            let t = self.current();
            if ends_body(c, t) {
                let t2 = t.duplicate();
                self.bump();
                return Ok((words, t2));
            }
            if matches!(t, Token::Eof) {
                let mut msg = String::new();
                push_str(&mut msg, "Unterminated ");
                push_str(&mut msg, construct_text(c));
                return Err(self.error_here(msg));
            }
            if !starts_word(t) {
                let mut msg = String::new();
                push_str(&mut msg, "Unexpected token in ");
                push_str(&mut msg, construct_text(c));
                push_str(&mut msg, ": ");
                let text = t.display_text();
                push_str(&mut msg, text.as_str());
                return Err(self.error_here(msg));
            }
            let ghost i0 = self.pos as int;
            match self.parse_item(&mut words) {
                Ok(()) => {}
                Err(e) => return Err(e),
            }
            assert(i0 < self.pos as int && self.pos as int <= self.tokens@.len());
        }
    }

    /// Reads one word of a body (a literal, a reference or a control
    /// structure) and appends it to `words`.
    pub fn parse_item(&mut self, words: &mut Vec<Word>) -> (r: Result<(), ForthError>)
        requires
            old(self).wf(),
            is_body_token(token_view(old(self).tokens@[old(self).pos as int])),
        ensures
            final(self).wf(),
            final(self).tokens@ == old(self).tokens@,
            final(self).locations@ == old(self).locations@,
            final(self).pos > old(self).pos,
            r is Ok ==> final(words)@.len() == old(words)@.len() + 1,
            r is Ok ==> final(words)@.take(old(words)@.len() as int) == old(words)@,
            r matches Err(e) ==> e is ParseError,
            match item_from(old(self).tokens@, old(self).pos as int) {
                Ok(j) => r is Ok && final(self).pos == j,
                Err((m, at)) => parse_error_at(r, m, old(self).locations@, at),
            },
            r is Ok ==> (final(words)@.last() is IntLiteral <==> old(self).tokens@[old(self).pos as int] is Integer),
        decreases old(self).tokens@.len() - old(self).pos, 0int,
    {
        let t = self.current();
        match t {
            Token::Integer(n) => {
                let n = *n;
                self.bump();
                words.push(Word::IntLiteral(n));
            }
            Token::Float(f) => {
                let f = f.clone();
                self.bump();
                words.push(Word::FloatLiteral(f));
            }
            Token::String(s) => {
                let s = s.clone();
                self.bump();
                words.push(Word::StringLiteral(s));
            }
            Token::Word(name) => {
                let name = name.clone();
                let location = self.locations[self.pos];
                self.bump();
                words.push(Word::WordRef { name, location });
            }
            Token::If => {
                self.bump();
                let (then_branch, end) = match self.parse_body(Construct::If) {
                    Ok(x) => x,
                    Err(e) => return Err(e),
                };
                if matches!(end, Token::Else) {
                    let (else_words, _) = match self.parse_body(Construct::Else) {
                        Ok(x) => x,
                        Err(e) => return Err(e),
                    };
                    words.push(Word::If { then_branch, else_branch: Some(else_words) });
                } else {
                    words.push(Word::If { then_branch, else_branch: None });
                }
            }
            Token::Begin => {
                self.bump();
                let (first, end) = match self.parse_body(Construct::Begin) {
                    Ok(x) => x,
                    Err(e) => return Err(e),
                };
                if matches!(end, Token::While) {
                    let (body, _) = match self.parse_body(Construct::While) {
                        Ok(x) => x,
                        Err(e) => return Err(e),
                    };
                    words.push(Word::BeginWhileRepeat { condition: first, body });
                } else {
                    words.push(Word::BeginUntil { body: first });
                }
            }
            _ => {
                self.bump();
                let (body, end) = match self.parse_body(Construct::Do) {
                    Ok(x) => x,
                    Err(e) => return Err(e),
                };
                let increment: i64 = if matches!(end, Token::PlusLoop) { 0 } else { 1 };
                words.push(Word::DoLoop { body, increment });
            }
        }
        Ok(())
    }

    /// Reads a declared stack effect; the `(` is read.
    fn parse_stack_effect(&mut self) -> (r: Result<StackEffect, ForthError>)
        requires
            old(self).wf(),
        ensures
            final(self).wf(),
            final(self).tokens@ == old(self).tokens@,
            final(self).locations@ == old(self).locations@,
            final(self).pos >= old(self).pos,
            r matches Err(e) ==> e is ParseError,
            match effect_from(old(self).tokens@, old(self).pos as int, false, 0, 0) {
                Ok((ni, no, j)) => r matches Ok(e) && final(self).pos == j
                    && e.inputs@ == unknowns(ni) && e.outputs@ == unknowns(no),
                Err((m, at)) => parse_error_at(r, m, old(self).locations@, at),
            },
    {
        let mut inputs: Vec<StackType> = Vec::new();
        let mut outputs: Vec<StackType> = Vec::new();
        let mut after_sep = false;
        assert(inputs@ =~= unknowns(0));
        assert(outputs@ =~= unknowns(0));
        loop
            invariant
                self.wf(),
                self.tokens@ == old(self).tokens@,
                self.locations@ == old(self).locations@,
                self.pos >= old(self).pos,
                inputs@ == unknowns(inputs@.len() as int),
                outputs@ == unknowns(outputs@.len() as int),
                effect_from(old(self).tokens@, old(self).pos as int, false, 0, 0)
                    == effect_from(self.tokens@, self.pos as int, after_sep, inputs@.len() as int, outputs@.len() as int),
            decreases self.tokens@.len() - self.pos,
        {
            let t = self.current();
            match t {
                Token::RightParen => {
                    self.bump();
                    return Ok(StackEffect { inputs, outputs });
                }
                Token::StackEffectSep => {
                    if after_sep {
                        return Err(self.error_here("Unexpected token in stack effect: --".to_owned()));
                    }
                    after_sep = true;
                    self.bump();
                }
                Token::Word(_) | Token::Integer(_) | Token::Float(_) => {
                    if after_sep {
                        outputs.push(StackType::Unknown);
                        assert(outputs@ =~= unknowns(outputs@.len() as int));
                    } else {
                        inputs.push(StackType::Unknown);
                        assert(inputs@ =~= unknowns(inputs@.len() as int));
                    }
                    self.bump();
                }
                Token::Eof => {
                    return Err(self.error_here("Unterminated stack effect".to_owned()));
                }
                _ => {
                    let mut msg = String::new();
                    push_str(&mut msg, "Unexpected token in stack effect: ");
                    let text = t.display_text();
                    push_str(&mut msg, text.as_str());
                    return Err(self.error_here(msg));
                }
            }
        }
    }

    /// Reads a definition; the `:` is read.
    fn parse_definition(&mut self) -> (r: Result<Definition, ForthError>)
        requires
            old(self).wf(),
        ensures
            final(self).wf(),
            final(self).tokens@ == old(self).tokens@,
            final(self).locations@ == old(self).locations@,
            final(self).pos >= old(self).pos,
            r matches Ok(d) ==> !d.immediate,
            r matches Err(e) ==> e is ParseError,
            match def_from(old(self).tokens@, old(self).pos as int) {
                Ok((end, ef, n)) => r matches Ok(d) && final(self).pos == end
                    && d.name@ == name_text(old(self).tokens@[old(self).pos as int])
                    && d.location == old(self).locations@[old(self).pos as int]
                    && d.body@.len() == n
                    && match ef {
                        Some((ni, no)) => d.stack_effect matches Some(e) && e.inputs@ == unknowns(ni) && e.outputs@ == unknowns(no),
                        None => d.stack_effect is None,
                    },
                Err((m, at)) => parse_error_at(r, m, old(self).locations@, at),
            },
    {
        let location = self.locations[self.pos];
        let name = match self.current() {
            Token::Word(n) => n.clone(),
            Token::Eof => return Err(self.error_here("Unterminated definition: expected a name after ':'".to_owned())),
            _ => return Err(self.error_here("Expected a word name after ':'".to_owned())),
        };
        self.bump();
        let stack_effect = if matches!(self.current(), Token::LeftParen) {
            self.bump();
            match self.parse_stack_effect() {
                Ok(e) => Some(e),
                Err(e) => return Err(e),
            }
        } else {
            None
        };
        let (body, _) = match self.parse_body(Construct::Definition) {
            Ok(x) => x,
            Err(e) => return Err(e),
        };
        Ok(Definition { name, body, immediate: false, stack_effect, location })
    }

    /// Reads a whole program: definitions, variable and constant
    /// declarations, `IMMEDIATE` marks and top-level code.
    pub fn parse_program(&mut self) -> (r: Result<Program, ForthError>)
        requires
            old(self).wf(),
        ensures
            r matches Err(e) ==> e is ParseError,
            match program_from(old(self).tokens@, old(self).pos as int, seq![], seq![], 0, false) {
                Ok((names, imms, top)) => r matches Ok(p) && def_names(p.definitions@) == names
                    && def_imms(p.definitions@) == imms && p.top_level_code@.len() == top,
                Err((m, at)) => parse_error_at(r, m, old(self).locations@, at),
            },
    {
        let mut program = Program::new();
        assert(def_names(program.definitions@) =~= Seq::<Seq<char>>::empty());
        assert(def_imms(program.definitions@) =~= Seq::<bool>::empty());
        loop
            invariant
                self.wf(),
                self.tokens@ == old(self).tokens@,
                self.locations@ == old(self).locations@,
                program_from(old(self).tokens@, old(self).pos as int, seq![], seq![], 0, false)
                    == program_from(self.tokens@, self.pos as int, def_names(program.definitions@),
                        def_imms(program.definitions@), program.top_level_code@.len() as int, last_is_int(program.top_level_code@)),
            decreases self.tokens@.len() - self.pos,
        {
            let start = self.pos;
            let ghost d0 = program.definitions@;
            let ghost w0 = program.top_level_code@;
            let t = self.current();
            match t {
                Token::Eof => {
                    return Ok(program);
                }
                Token::Colon => {
                    self.bump();
                    match self.parse_definition() {
                        Ok(d) => {
                            program.definitions.push(d);
                            assert(def_names(program.definitions@) =~= def_names(d0).push(name_text(self.tokens@[start + 1])));
                            assert(def_imms(program.definitions@) =~= def_imms(d0).push(false));
                        },
                        Err(e) => return Err(e),
                    }
                }
                Token::Immediate => {
                    let n = program.definitions.len();
                    if n == 0 {
                        return Err(self.error_here("IMMEDIATE without a preceding definition".to_owned()));
                    }
                    program.definitions[n - 1].immediate = true;
                    assert(def_names(program.definitions@) =~= def_names(d0));
                    assert(def_imms(program.definitions@) =~= def_imms(d0).update(n - 1, true));
                    self.bump();
                }
                Token::Variable => {
                    self.bump();
                    let name = match self.current() {
                        Token::Word(n) => n.clone(),
                        _ => return Err(self.error_here("Expected a variable name after VARIABLE".to_owned())),
                    };
                    self.bump();
                    program.top_level_code.push(Word::Variable { name });
                }
                Token::Constant => {
                    let value = match program.top_level_code.last() {
                        Some(Word::IntLiteral(v)) => *v,
                        _ => return Err(self.error_here("Expected a constant value before CONSTANT".to_owned())),
                    };
                    self.bump();
                    let name = match self.current() {
                        Token::Word(n) => n.clone(),
                        _ => return Err(self.error_here("Expected a constant name after CONSTANT".to_owned())),
                    };
                    self.bump();
                    program.top_level_code.pop();
                    program.top_level_code.push(Word::Constant { name, value });
                }
                _ => {
                    if !starts_word(t) {
                        let mut msg = String::new();
                        push_str(&mut msg, "Unexpected token: ");
                        let text = t.display_text();
                        push_str(&mut msg, text.as_str());
                        return Err(self.error_here(msg));
                    }
                    match self.parse_item(&mut program.top_level_code) {
                        Ok(()) => {}
                        Err(e) => return Err(e),
                    }
                }
            }
            if self.pos == start {
                return Err(self.error_here("Unexpected end of input".to_owned()));
            }
        }
    }
}

/// The token starts a word of a body.
fn starts_word(t: &Token) -> (r: bool)
    ensures
        r == is_body_token(token_view(*t)),
{
    matches!(t, Token::Word(_) | Token::Integer(_) | Token::Float(_) | Token::String(_) | Token::If | Token::Begin | Token::Do)
}

/// Reads a Forth program from source text.
pub fn parse_program(source: &str) -> (r: Result<Program, ForthError>)
    requires
        utf8_len(source@) <= usize::MAX,
        2 * source@.len() + 2 <= usize::MAX,
    ensures
        match lex_all(source@, 0, (1, 1)) {
            Err((p, m)) => lexed_as_error(r, p, m),
            Ok(_) => r is Ok || r matches Err(ForthError::ParseError { .. }),
        },
{
    let mut lexer = Lexer::new(source);
    let mut tokens: Vec<Token> = Vec::new();
    let mut locations: Vec<SourceLocation> = Vec::new();
    let ghost cs = source@;
    loop
        invariant_except_break
            lex_all(cs, 0, (1, 1)) == crate::frontend::lexer::append_lexed(
                tokens@.map_values(|t: Token| token_view(t)), lex_all(cs, lexer.index as int, lexer.lc())),
        invariant
            lexer.wf(),
            lexer.chars@ == cs,
            cs == source@,
            tokens@.len() == locations@.len(),
        ensures
            tokens@.len() > 0,
            tokens@.last() is Eof,
            lex_all(cs, 0, (1, 1)) == Ok::<Seq<TokView>, (int, Seq<char>)>(tokens@.map_values(|t: Token| token_view(t))),
        decreases cs.len() - lexer.index,
    {
        let location = lexer.location();
        let ghost i = lexer.index as int;
        let ghost lc = lexer.lc();
        let ghost prev = tokens@.map_values(|t: Token| token_view(t));
        match lexer.next_token() {
            Ok(token) => {
                let eof = matches!(token, Token::Eof);
                let ghost tv = token_view(token);
                tokens.push(token);
                locations.push(location);
                proof {
                    assert(tokens@.map_values(|t: Token| token_view(t)) =~= prev.push(tv));
                    match lex_all(cs, lexer.index as int, lexer.lc()) {
                        Ok(ts) => { assert(prev + (seq![tv] + ts) =~= prev.push(tv) + ts); }
                        Err(_) => {}
                    }
                    if eof { assert(prev + seq![tv] =~= prev.push(tv)); }
                }
                if eof {
                    break;
                }
            }
            Err(e) => {
                return Err(e);
            }
        }
    }
    let mut parser = Parser { tokens, locations, pos: 0 };
    parser.parse_program()
}

} // verus!
