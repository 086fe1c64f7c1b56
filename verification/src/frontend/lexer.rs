//! The lexer: Forth source text to tokens.
use vstd::prelude::*;
use crate::text::{
    chars_of, is_whitespace, spec_is_whitespace, is_ascii_digit, spec_is_digit, all_digits, push_char,
    push_str, parse_i64, spec_parse_i64, string_from_chars, eq_lit,
};
use crate::frontend::ast::{SourceLocation, Token};
use crate::frontend::error::ForthError;

verus! {

/// Number of bytes of `c` in UTF-8.
pub open spec fn char_len_utf8(c: char) -> int {
    let v = c as u32;
    if v < 0x80 { 1 } else if v < 0x800 { 2 } else if v < 0x10000 { 3 } else { 4 }
}

/// Number of bytes of `s` in UTF-8.
pub open spec fn utf8_len(s: Seq<char>) -> int
    decreases s.len(),
{
    if s.len() == 0 { 0 } else { utf8_len(s.drop_last()) + char_len_utf8(s.last()) }
}

pub proof fn lemma_utf8_len_prefix(s: Seq<char>, i: int)
    requires
        0 <= i < s.len(),
    ensures
        utf8_len(s.take(i + 1)) == utf8_len(s.take(i)) + char_len_utf8(s[i]),
        utf8_len(s.take(i + 1)) <= utf8_len(s),
    decreases s.len() - i,
{
    assert(s.take(i + 1).drop_last() =~= s.take(i));
    if i + 1 < s.len() {
        lemma_utf8_len_prefix(s, i + 1);
    } else {
        assert(s.take(i + 1) =~= s);
    }
}

/// Number of bytes of `c` in UTF-8 (`char::len_utf8`).
pub fn len_utf8(c: char) -> (r: usize)
    ensures
        r == char_len_utf8(c),
{
    let v = c as u32;
    if v < 0x80 { 1 } else if v < 0x800 { 2 } else if v < 0x10000 { 3 } else { 4 }
}

/// Line and column after reading the character `c`.
pub open spec fn next_lc(c: char, lc: (int, int)) -> (int, int) {
    if c == '\n' { (lc.0 + 1, 1) } else { (lc.0, lc.1 + 1) }
}

/// Line and column after reading the characters from `i` up to `j`.
pub open spec fn lc_to(cs: Seq<char>, i: int, j: int, lc: (int, int)) -> (int, int)
    decreases j - i,
{
    if 0 <= i < j && i < cs.len() { lc_to(cs, i + 1, j, next_lc(cs[i], lc)) } else { lc }
}

/// A token taken by its contents.
pub enum TokView {
    Colon,
    Semicolon,
    Word(Seq<char>),
    Integer(i64),
    Float(Seq<char>),
    Str(Seq<char>),
    LeftParen,
    RightParen,
    StackEffectSep,
    If,
    Then,
    Else,
    Do,
    Loop,
    PlusLoop,
    Begin,
    Until,
    While,
    Repeat,
    Variable,
    Constant,
    Immediate,
    Eof,
}

pub open spec fn token_view(t: Token) -> TokView {
    match t {
        Token::Colon => TokView::Colon,
        Token::Semicolon => TokView::Semicolon,
        Token::Word(w) => TokView::Word(w@),
        Token::Integer(i) => TokView::Integer(i),
        Token::Float(f) => TokView::Float(f@),
        Token::String(s) => TokView::Str(s@),
        Token::LeftParen => TokView::LeftParen,
        Token::RightParen => TokView::RightParen,
        Token::StackEffectSep => TokView::StackEffectSep,
        Token::If => TokView::If,
        Token::Then => TokView::Then,
        Token::Else => TokView::Else,
        Token::Do => TokView::Do,
        Token::Loop => TokView::Loop,
        Token::PlusLoop => TokView::PlusLoop,
        Token::Begin => TokView::Begin,
        Token::Until => TokView::Until,
        Token::While => TokView::While,
        Token::Repeat => TokView::Repeat,
        Token::Variable => TokView::Variable,
        Token::Constant => TokView::Constant,
        Token::Immediate => TokView::Immediate,
        Token::Eof => TokView::Eof,
    }
}

/// What one step of the lexer produces: a token, or a lexical error at a
/// byte position with its message.
pub enum Lexed {
    Tok(TokView),
    Fail(int, Seq<char>),
}

/// `r` is the outcome `l`.
pub open spec fn lexed_as(r: Result<Token, ForthError>, l: Lexed) -> bool {
    match l {
        Lexed::Tok(t) => r matches Ok(tok) && token_view(tok) == t,
        Lexed::Fail(p, m) => r matches Err(ForthError::LexError { position, message })
            && position == p && message@ == m,
    }
}

/// The first position at or after `i` that is not white space.
pub open spec fn ws_end(cs: Seq<char>, i: int) -> int
    decreases cs.len() - i,
{
    if 0 <= i < cs.len() && spec_is_whitespace(cs[i]) { ws_end(cs, i + 1) } else { i }
}

/// The position just after the end of the line that holds `i`.
pub open spec fn line_end(cs: Seq<char>, i: int) -> int
    decreases cs.len() - i,
{
    if 0 <= i < cs.len() {
        if cs[i] == '\n' { i + 1 } else { line_end(cs, i + 1) }
    } else {
        i
    }
}

/// The position of the `)` that closes a comment open `depth` levels deep at `i`.
pub open spec fn paren_close(cs: Seq<char>, i: int, depth: int) -> Option<int>
    decreases cs.len() - i,
{
    if !(0 <= i < cs.len()) {
        None
    } else if cs[i] == '(' {
        paren_close(cs, i + 1, depth + 1)
    } else if cs[i] == ')' {
        if depth <= 1 { Some(i) } else { paren_close(cs, i + 1, depth - 1) }
    } else {
        paren_close(cs, i + 1, depth)
    }
}

/// `s` holds `--`.
pub open spec fn has_sep(s: Seq<char>) -> bool {
    exists|k: int| 0 <= k && k + 1 < s.len() && s[k] == '-' && #[trigger] s[k + 1] == '-'
}

/// The character an escape `\c` in a string stands for.
pub open spec fn escape_char(c: char) -> char {
    if c == 'n' { '\n' } else if c == 't' { '\t' } else if c == 'r' { '\r' } else { c }
}

/// Result of reading a string literal's body.
pub enum StrScan {
    /// The value and the position after the closing quote.
    Done(Seq<char>, int),
    /// The input ends right after a backslash.
    EndInEscape,
    /// The input ends before the closing quote.
    Unterminated,
}

pub open spec fn prepend(acc: Seq<char>, r: StrScan) -> StrScan {
    match r {
        StrScan::Done(s, j) => StrScan::Done(acc + s, j),
        other => other,
    }
}

/// Reads a string literal's body from `i` (just after the opening quote).
pub open spec fn string_scan(cs: Seq<char>, i: int) -> StrScan
    decreases cs.len() - i,
{
    if !(0 <= i < cs.len()) {
        StrScan::Unterminated
    } else if cs[i] == '"' {
        StrScan::Done(Seq::empty(), i + 1)
    } else if cs[i] == '\\' {
        if i + 1 >= cs.len() {
            StrScan::EndInEscape
        } else {
            prepend(seq![escape_char(cs[i + 1])], string_scan(cs, i + 2))
        }
    } else {
        prepend(seq![cs[i]], string_scan(cs, i + 1))
    }
}

/// Where a number starting before `i` ends, and whether it is a float: digits,
/// one `.` while not yet a float, and exponent markers with an optional sign.
pub open spec fn num_scan(cs: Seq<char>, i: int, f: bool) -> (int, bool)
    decreases cs.len() - i,
{
    if !(0 <= i < cs.len()) {
        (i, f)
    } else if spec_is_digit(cs[i]) {
        num_scan(cs, i + 1, f)
    } else if cs[i] == '.' && !f {
        num_scan(cs, i + 1, true)
    } else if cs[i] == 'e' || cs[i] == 'E' {
        if i + 1 < cs.len() && (cs[i + 1] == '+' || cs[i + 1] == '-') {
            num_scan(cs, i + 2, true)
        } else {
            num_scan(cs, i + 1, true)
        }
    } else {
        (i, f)
    }
}

/// The first exponent marker of `t` at or after `k`.
pub open spec fn exp_pos(t: Seq<char>, k: int) -> Option<int>
    decreases t.len() - k,
{
    if !(0 <= k < t.len()) {
        None
    } else if t[k] == 'e' || t[k] == 'E' {
        Some(k)
    } else {
        exp_pos(t, k + 1)
    }
}

/// The text of a float literal read by the lexer is accepted by `f64`'s
/// `FromStr`: after its first exponent marker come an optional sign and one
/// or more digits, and nothing else.
pub open spec fn float_text_ok(t: Seq<char>) -> bool {
    match exp_pos(t, 0) {
        None => true,
        Some(k) => {
            let rest = t.skip(k + 1);
            let digits = if rest.len() > 0 && (rest[0] == '+' || rest[0] == '-') { rest.skip(1) } else { rest };
            digits.len() > 0 && all_digits(digits)
        },
    }
}

/// The token of a number whose text is `t`, or the error message.
pub open spec fn number_token(t: Seq<char>, is_float: bool) -> Result<TokView, Seq<char>> {
    if is_float {
        if float_text_ok(t) { Ok(TokView::Float(t)) } else { Err("Invalid float literal: "@ + t) }
    } else {
        match spec_parse_i64(t) {
            Some(v) => Ok(TokView::Integer(v)),
            None => Err("Invalid integer literal: "@ + t),
        }
    }
}

/// A character that ends a word.
pub open spec fn is_delim(c: char) -> bool {
    spec_is_whitespace(c) || c == '(' || c == ')'
}

/// The end of a word whose remaining characters start at `i`.
pub open spec fn word_end(cs: Seq<char>, i: int) -> int
    decreases cs.len() - i,
{
    if 0 <= i < cs.len() && !is_delim(cs[i]) { word_end(cs, i + 1) } else { i }
}

/// The upper-case form of a string (`str::to_uppercase`).
pub uninterp spec fn uppercase_of(s: Seq<char>) -> Seq<char>;

/// The upper-case form of `s` (`str::to_uppercase`), as the Unicode case
/// mapping of the standard library gives it; only the name is stated.
#[verifier::external_body]
fn to_uppercase(s: &str) -> (r: String)
    ensures
        r@ == uppercase_of(s@),
{
    s.to_uppercase()
}

/// The token a word stands for, given its upper-case form: a keyword, or the word itself.
pub open spec fn word_token(w: Seq<char>, upper: Seq<char>) -> TokView {
    if upper == "IF"@ { TokView::If }
    else if upper == "THEN"@ { TokView::Then }
    else if upper == "ELSE"@ { TokView::Else }
    else if upper == "DO"@ { TokView::Do }
    else if upper == "LOOP"@ { TokView::Loop }
    else if upper == "+LOOP"@ { TokView::PlusLoop }
    else if upper == "BEGIN"@ { TokView::Begin }
    else if upper == "UNTIL"@ { TokView::Until }
    else if upper == "WHILE"@ { TokView::While }
    else if upper == "REPEAT"@ { TokView::Repeat }
    else if upper == "VARIABLE"@ { TokView::Variable }
    else if upper == "CONSTANT"@ { TokView::Constant }
    else if upper == "IMMEDIATE"@ { TokView::Immediate }
    else { TokView::Word(w) }
}

/// A character right after a leading digit that makes the token a word (as in `2dup`).
pub open spec fn continues_word(c: char) -> bool {
    !spec_is_digit(c) && !spec_is_whitespace(c) && c != '(' && c != ')' && c != '.'
}

/// One step of the lexer from position `i` with line and column `lc`: the
/// outcome, the position after it, and the line and column after it.
pub open spec fn next_spec(cs: Seq<char>, i: int, lc: (int, int)) -> (Lexed, int, (int, int))
    decreases cs.len() - i, 1int,
{
    let s = ws_end(cs, i);
    let lc1 = lc_to(cs, i, s, lc);
    if !(0 <= i && s < cs.len()) {
        (Lexed::Tok(TokView::Eof), s, lc1)
    } else {
        let c = cs[s];
        let lc2 = next_lc(c, lc1);
        if c == ':' {
            (Lexed::Tok(TokView::Colon), s + 1, lc2)
        } else if c == ';' {
            (Lexed::Tok(TokView::Semicolon), s + 1, lc2)
        } else if c == '(' {
            if i <= s { paren_spec(cs, s, lc1) } else { (Lexed::Tok(TokView::Eof), s, lc1) }
        } else if c == ')' {
            (Lexed::Tok(TokView::RightParen), s + 1, lc2)
        } else if c == '"' {
            match string_scan(cs, s + 1) {
                StrScan::Done(v, j) => (Lexed::Tok(TokView::Str(v)), j, lc_to(cs, s + 1, j, lc2)),
                StrScan::EndInEscape => (Lexed::Fail(utf8_len(cs), "Unexpected end of string"@), cs.len() as int,
                    lc_to(cs, s + 1, cs.len() as int, lc2)),
                StrScan::Unterminated => (Lexed::Fail(utf8_len(cs), "Unterminated string literal"@), cs.len() as int,
                    lc_to(cs, s + 1, cs.len() as int, lc2)),
            }
        } else if c == '\\' {
            let j = line_end(cs, s + 1);
            if i < j <= cs.len() { next_spec(cs, j, lc_to(cs, s + 1, j, lc2)) } else { (Lexed::Tok(TokView::Eof), s, lc1) }
        } else if c == '-' {
            if s + 1 < cs.len() && cs[s + 1] == '-' {
                (Lexed::Tok(TokView::StackEffectSep), s + 2, next_lc('-', lc2))
            } else if s + 1 < cs.len() && spec_is_digit(cs[s + 1]) {
                number_spec(cs, s + 1, lc2, '-')
            } else {
                (Lexed::Tok(TokView::Word(seq!['-'])), s + 1, lc2)
            }
        } else if spec_is_digit(c) {
            if s + 1 < cs.len() && continues_word(cs[s + 1]) {
                word_spec(cs, s + 1, (lc1.0, lc1.1 + 2), c)
            } else {
                number_spec(cs, s + 1, lc2, c)
            }
        } else {
            word_spec(cs, s + 1, lc2, c)
        }
    }
}

/// A `(` at `i`: a stack effect (its content holds `--`) gives `LeftParen`
/// with only the `(` read; a comment is skipped whole.
pub open spec fn paren_spec(cs: Seq<char>, i: int, lc: (int, int)) -> (Lexed, int, (int, int))
    decreases cs.len() - i, 0int,
{
    let lc1 = next_lc(cs[i], lc);
    match paren_close(cs, i + 1, 1) {
        None => (Lexed::Fail(utf8_len(cs), "Unclosed parenthesized comment"@), cs.len() as int,
            lc_to(cs, i + 1, cs.len() as int, lc1)),
        Some(k) => if has_sep(cs.subrange(i + 1, k)) {
            (Lexed::Tok(TokView::LeftParen), i + 1, lc1)
        } else if 0 <= i < k + 1 <= cs.len() {
            next_spec(cs, k + 1, lc_to(cs, i + 1, k + 1, lc1))
        } else {
            (Lexed::Tok(TokView::Eof), i, lc)
        },
    }
}

/// A number whose first character `first` is already read; the rest starts at `i`.
pub open spec fn number_spec(cs: Seq<char>, i: int, lc: (int, int), first: char) -> (Lexed, int, (int, int)) {
    let (j, f) = num_scan(cs, i, false);
    let t = seq![first] + cs.subrange(i, j);
    let lc1 = lc_to(cs, i, j, lc);
    match number_token(t, f) {
        Ok(tok) => (Lexed::Tok(tok), j, lc1),
        Err(m) => (Lexed::Fail(utf8_len(cs.take(j)), m), j, lc1),
    }
}

/// A word whose first character `first` is already read; the rest starts at `i`.
pub open spec fn word_spec(cs: Seq<char>, i: int, lc: (int, int), first: char) -> (Lexed, int, (int, int)) {
    let j = word_end(cs, i);
    let w = seq![first] + cs.subrange(i, j);
    (Lexed::Tok(word_token(w, uppercase_of(w))), j, lc_to(cs, i, j, lc))
}


pub proof fn lemma_lc_to_step(cs: Seq<char>, i: int, j: int, lc: (int, int))
    requires
        0 <= i <= j < cs.len(),
    ensures
        lc_to(cs, i, j + 1, lc) == next_lc(cs[j], lc_to(cs, i, j, lc)),
    decreases j - i,
{
    if i < j {
        lemma_lc_to_step(cs, i + 1, j, next_lc(cs[i], lc));
    } else {
        assert(lc_to(cs, j + 1, j + 1, next_lc(cs[j], lc)) == next_lc(cs[j], lc));
    }
}

pub proof fn lemma_lc_to_trans(cs: Seq<char>, i: int, j: int, k: int, lc: (int, int))
    requires
        0 <= i <= j <= k <= cs.len(),
    ensures
        lc_to(cs, i, k, lc) == lc_to(cs, j, k, lc_to(cs, i, j, lc)),
    decreases j - i,
{
    if i < j {
        lemma_lc_to_trans(cs, i + 1, j, k, next_lc(cs[i], lc));
    }
}

/// All the tokens from position `i` on, up to and including `Eof`, or the
/// first lexical error (byte position and message).
pub open spec fn lex_all(cs: Seq<char>, i: int, lc: (int, int)) -> Result<Seq<TokView>, (int, Seq<char>)>
    decreases cs.len() - i,
{
    let (l, j, lc1) = next_spec(cs, i, lc);
    match l {
        Lexed::Fail(p, m) => Err((p, m)),
        Lexed::Tok(t) => if t is Eof {
            Ok(seq![t])
        } else if 0 <= i < j <= cs.len() {
            match lex_all(cs, j, lc1) {
                Ok(ts) => Ok(seq![t] + ts),
                Err(e) => Err(e),
            }
        } else {
            Ok(seq![t])
        },
    }
}

/// `prefix` followed by the outcome `r`.
pub open spec fn append_lexed(prefix: Seq<TokView>, r: Result<Seq<TokView>, (int, Seq<char>)>) -> Result<Seq<TokView>, (int, Seq<char>)> {
    match r {
        Ok(ts) => Ok(prefix + ts),
        Err(e) => Err(e),
    }
}

/// `r` is the lexical error at byte position `p` with message `m`.
pub open spec fn lexed_as_error<T>(r: Result<T, ForthError>, p: int, m: Seq<char>) -> bool {
    r matches Err(ForthError::LexError { position, message }) && position == p && message@ == m
}

pub proof fn lemma_paren_close_range(cs: Seq<char>, i: int, d: int)
    ensures
        paren_close(cs, i, d) matches Some(k) ==> i <= k < cs.len() && 0 <= k && cs[k] == ')',
    decreases cs.len() - i,
{
    if 0 <= i < cs.len() {
        if cs[i] == '(' {
            lemma_paren_close_range(cs, i + 1, d + 1);
        } else if cs[i] == ')' {
            if d > 1 { lemma_paren_close_range(cs, i + 1, d - 1); }
        } else {
            lemma_paren_close_range(cs, i + 1, d);
        }
    }
}

pub proof fn lemma_ws_end_range(cs: Seq<char>, i: int)
    requires
        0 <= i <= cs.len(),
    ensures
        i <= ws_end(cs, i) <= cs.len(),
    decreases cs.len() - i,
{
    if i < cs.len() && spec_is_whitespace(cs[i]) {
        lemma_ws_end_range(cs, i + 1);
    }
}

pub proof fn lemma_line_end_after(cs: Seq<char>, i: int)
    requires
        0 <= i,
    ensures
        i <= line_end(cs, i) <= cs.len() || (line_end(cs, i) == i && i > cs.len()),
    decreases cs.len() - i,
{
    if 0 <= i < cs.len() && cs[i] != '\n' {
        lemma_line_end_after(cs, i + 1);
    }
}

/// The lexer's state over its input.
pub struct Lexer {
    pub chars: Vec<char>,
    /// Characters read.
    pub index: usize,
    /// Bytes read.
    pub position: usize,
    pub line: usize,
    pub column: usize,
}

impl Lexer {
    /// The byte position matches the characters read, and every counter
    /// stays within `usize`.
    pub open spec fn wf(&self) -> bool {
        &&& self.index <= self.chars@.len()
        &&& self.position == utf8_len(self.chars@.take(self.index as int))
        &&& utf8_len(self.chars@) <= usize::MAX
        &&& 2 * self.chars@.len() + 2 <= usize::MAX
        &&& 1 <= self.line <= self.index + 1
        &&& 1 <= self.column <= 2 * self.index + 1
    }

    /// Line and column.
    pub open spec fn lc(&self) -> (int, int) {
        (self.line as int, self.column as int)
    }

    /// A lexer at the start of `input`.
    pub fn new(input: &str) -> (r: Self)
        requires
            utf8_len(input@) <= usize::MAX,
            2 * input@.len() + 2 <= usize::MAX,
        ensures
            r.wf(),
            r.chars@ == input@,
            r.index == 0,
            r.line == 1,
            r.column == 1,
    {
        let chars = chars_of(input);
        assert(chars@.take(0).len() == 0);
        Lexer { chars, index: 0, position: 0, line: 1, column: 1 }
    }

    /// The current line and column.
    pub fn location(&self) -> (r: SourceLocation)
        ensures
            r.line == self.line,
            r.column == self.column,
    {
        SourceLocation { line: self.line, column: self.column }
    }

    /// The next character, not consumed.
    fn peek(&self) -> (r: Option<char>)
        ensures
            r == if self.index < self.chars@.len() { Some(self.chars@[self.index as int]) } else { None },
    {
        if self.index < self.chars.len() { Some(self.chars[self.index]) } else { None }
    }

    /// Consumes and returns the next character.
    fn advance(&mut self) -> (r: Option<char>)
        requires
            old(self).wf(),
        ensures
            final(self).wf(),
            final(self).chars@ == old(self).chars@,
            old(self).index < old(self).chars@.len() ==> {
                &&& r == Some(old(self).chars@[old(self).index as int])
                &&& final(self).index == old(self).index + 1
                &&& final(self).lc() == next_lc(old(self).chars@[old(self).index as int], old(self).lc())
            },
            old(self).index >= old(self).chars@.len() ==> r is None && *final(self) == *old(self),
    {
        if self.index >= self.chars.len() {
            return None;
        }
        let ch = self.chars[self.index];
        proof { lemma_utf8_len_prefix(self.chars@, self.index as int); }
        self.position = self.position + len_utf8(ch);
        self.index = self.index + 1;
        if ch == '\n' {
            self.line = self.line + 1;
            self.column = 1;
        } else {
            self.column = self.column + 1;
        }
        Some(ch)
    }

    /// Skips white space.
    fn skip_whitespace(&mut self)
        requires
            old(self).wf(),
        ensures
            final(self).wf(),
            final(self).chars@ == old(self).chars@,
            final(self).index == ws_end(old(self).chars@, old(self).index as int),
            final(self).lc() == lc_to(old(self).chars@, old(self).index as int, final(self).index as int, old(self).lc()),
    {
        let ghost start = self.index as int;
        let ghost lc0 = self.lc();
        while self.index < self.chars.len() && is_whitespace(self.chars[self.index])
            invariant
                self.wf(),
                self.chars@ == old(self).chars@,
                0 <= start <= self.index,
                start == old(self).index,
                lc0 == old(self).lc(),
                ws_end(self.chars@, start) == ws_end(self.chars@, self.index as int),
                self.lc() == lc_to(self.chars@, start, self.index as int, lc0),
            decreases self.chars@.len() - self.index,
        {
            proof { lemma_lc_to_step(self.chars@, start, self.index as int, lc0); }
            self.advance();
        }
    }


    /// Reads a string literal; the opening quote is next.
    fn parse_string(&mut self) -> (r: Result<Token, ForthError>)
        requires
            old(self).wf(),
            old(self).index < old(self).chars@.len(),
            old(self).chars@[old(self).index as int] == '"',
        ensures
            final(self).wf(),
            final(self).index > old(self).index,
            final(self).chars@ == old(self).chars@,
            ({
                let cs = old(self).chars@;
                let i = old(self).index as int;
                let lc1 = next_lc('"', old(self).lc());
                match string_scan(cs, i + 1) {
                    StrScan::Done(v, j) => r matches Ok(Token::String(t)) && t@ == v
                        && final(self).index == j && final(self).lc() == lc_to(cs, i + 1, j, lc1),
                    StrScan::EndInEscape => lexed_as(r, Lexed::Fail(utf8_len(cs), "Unexpected end of string"@))
                        && final(self).index == cs.len() && final(self).lc() == lc_to(cs, i + 1, cs.len() as int, lc1),
                    StrScan::Unterminated => lexed_as(r, Lexed::Fail(utf8_len(cs), "Unterminated string literal"@))
                        && final(self).index == cs.len() && final(self).lc() == lc_to(cs, i + 1, cs.len() as int, lc1),
                }
            }),
    {
        let ghost cs = self.chars@;
        let ghost i0 = self.index as int;
        self.advance();
        let ghost lc1 = self.lc();
        let mut value = String::new();
        loop
            invariant
                self.wf(),
                self.chars@ == cs,
                i0 + 1 <= self.index,
                0 <= i0,
                i0 == old(self).index,
                cs == old(self).chars@,
                lc1 == next_lc('"', old(self).lc()),
                string_scan(cs, i0 + 1) == prepend(value@, string_scan(cs, self.index as int)),
                self.lc() == lc_to(cs, i0 + 1, self.index as int, lc1),
            decreases cs.len() - self.index,
        {
            let idx = self.index;
            proof {
                if idx < cs.len() {
                    lemma_lc_to_step(cs, i0 + 1, idx as int, lc1);
                }
                assert(cs.take(cs.len() as int) =~= cs);
            }
            match self.peek() {
                Some('"') => {
                    self.advance();
                    assert(value@ + Seq::<char>::empty() =~= value@);
                    return Ok(Token::String(value));
                }
                Some('\\') => {
                    self.advance();
                    let ghost v0 = value@;
                    proof {
                        if idx + 1 < cs.len() {
                            lemma_lc_to_step(cs, i0 + 1, idx + 1, lc1);
                        }
                    }
                    match self.advance() {
                        Some(c) => {
                            let e = if c == 'n' { '\n' } else if c == 't' { '\t' } else if c == 'r' { '\r' } else { c };
                            push_char(&mut value, e);
                            proof {
                                let rest = string_scan(cs, idx + 2);
                                assert(prepend(v0, prepend(seq![e], rest)) == prepend(value@, rest)) by {
                                    match rest {
                                        StrScan::Done(x, j) => { assert(v0 + (seq![e] + x) =~= v0.push(e) + x); }
                                        _ => {}
                                    }
                                }
                            }
                        }
                        None => {
                            return Err(ForthError::LexError { position: self.position, message: "Unexpected end of string".to_owned() });
                        }
                    }
                }
                Some(ch) => {
                    let ghost v0 = value@;
                    push_char(&mut value, ch);
                    self.advance();
                    proof {
                        let rest = string_scan(cs, idx + 1);
                        assert(prepend(v0, prepend(seq![ch], rest)) == prepend(value@, rest)) by {
                            match rest {
                                StrScan::Done(x, j) => { assert(v0 + (seq![ch] + x) =~= v0.push(ch) + x); }
                                _ => {}
                            }
                        }
                    }
                }
                None => {
                    return Err(ForthError::LexError { position: self.position, message: "Unterminated string literal".to_owned() });
                }
            }
        }
    }

    /// Reads the rest of a number whose first character `first` is read.
    fn parse_number(&mut self, first: char) -> (r: Result<Token, ForthError>)
        requires
            old(self).wf(),
        ensures
            final(self).wf(),
            final(self).index >= old(self).index,
            final(self).chars@ == old(self).chars@,
            ({
                let (l, j, lc) = number_spec(old(self).chars@, old(self).index as int, old(self).lc(), first);
                lexed_as(r, l) && final(self).index == j && final(self).lc() == lc
            }),
    {
        let ghost cs = self.chars@;
        let ghost i0 = self.index as int;
        let ghost lc0 = self.lc();
        let mut text: Vec<char> = Vec::new();
        text.push(first);
        let mut is_float = false;
        assert(cs.subrange(i0, i0) =~= Seq::<char>::empty());
        assert(text@ =~= seq![first] + cs.subrange(i0, i0));
        while self.index < self.chars.len()
            invariant
                self.wf(),
                self.chars@ == cs,
                0 <= i0 <= self.index,
                num_scan(cs, i0, false) == num_scan(cs, self.index as int, is_float),
                text@ == seq![first] + cs.subrange(i0, self.index as int),
                self.lc() == lc_to(cs, i0, self.index as int, lc0),
            ensures
                num_scan(cs, self.index as int, is_float) == (self.index as int, is_float),
            decreases cs.len() - self.index,
        {
            let idx = self.index;
            let ch = self.chars[idx];
            proof { lemma_lc_to_step(cs, i0, idx as int, lc0); }
            if is_ascii_digit(ch) || (ch == '.' && !is_float) {
                if ch == '.' { is_float = true; }
                text.push(ch);
                self.advance();
                assert(text@ =~= seq![first] + cs.subrange(i0, self.index as int));
            } else if ch == 'e' || ch == 'E' {
                is_float = true;
                text.push(ch);
                self.advance();
                assert(text@ =~= seq![first] + cs.subrange(i0, self.index as int));
                if self.index < self.chars.len() && (self.chars[self.index] == '+' || self.chars[self.index] == '-') {
                    let sign = self.chars[self.index];
                    proof { lemma_lc_to_step(cs, i0, idx + 1, lc0); }
                    text.push(sign);
                    self.advance();
                    assert(text@ =~= seq![first] + cs.subrange(i0, self.index as int));
                }
            } else {
                break;
            }
        }
        let ghost j = self.index as int;
        let literal = string_from_chars(&text);
        if is_float {
            if float_text_valid(&text) {
                Ok(Token::Float(literal))
            } else {
                let mut msg = String::new();
                push_str(&mut msg, "Invalid float literal: ");
                push_str(&mut msg, literal.as_str());
                Err(ForthError::LexError { position: self.position, message: msg })
            }
        } else {
            match parse_i64(&text) {
                Some(v) => Ok(Token::Integer(v)),
                None => {
                    let mut msg = String::new();
                    push_str(&mut msg, "Invalid integer literal: ");
                    push_str(&mut msg, literal.as_str());
                    Err(ForthError::LexError { position: self.position, message: msg })
                }
            }
        }
    }

    /// Reads the rest of a word whose first character `first` is read.
    fn parse_word(&mut self, first: char) -> (r: Token)
        requires
            old(self).wf(),
        ensures
            final(self).wf(),
            final(self).index >= old(self).index,
            final(self).chars@ == old(self).chars@,
            ({
                let (l, j, lc) = word_spec(old(self).chars@, old(self).index as int, old(self).lc(), first);
                l == Lexed::Tok(token_view(r)) && final(self).index == j && final(self).lc() == lc
            }),
    {
        let ghost cs = self.chars@;
        let ghost i0 = self.index as int;
        let ghost lc0 = self.lc();
        let mut text: Vec<char> = Vec::new();
        text.push(first);
        assert(text@ =~= seq![first] + cs.subrange(i0, i0));
        while self.index < self.chars.len()
            && !(is_whitespace(self.chars[self.index]) || self.chars[self.index] == '(' || self.chars[self.index] == ')')
            invariant
                self.wf(),
                self.chars@ == cs,
                0 <= i0 <= self.index,
                word_end(cs, i0) == word_end(cs, self.index as int),
                text@ == seq![first] + cs.subrange(i0, self.index as int),
                self.lc() == lc_to(cs, i0, self.index as int, lc0),
            decreases cs.len() - self.index,
        {
            let ch = self.chars[self.index];
            proof { lemma_lc_to_step(cs, i0, self.index as int, lc0); }
            text.push(ch);
            self.advance();
            assert(text@ =~= seq![first] + cs.subrange(i0, self.index as int));
        }
        let word = string_from_chars(&text);
        let upper = to_uppercase(word.as_str());
        keyword_or_word(upper.as_str(), word)
    }

    /// A `(`: a stack effect (its content holds `--`) gives `LeftParen` with
    /// only the `(` read; a comment is skipped whole and lexing goes on after it.
    #[verifier::rlimit(40)]
    fn parse_paren_comment(&mut self) -> (r: Result<Token, ForthError>)
        requires
            old(self).wf(),
            old(self).index < old(self).chars@.len(),
            old(self).chars@[old(self).index as int] == '(',
        ensures
            final(self).wf(),
            final(self).chars@ == old(self).chars@,
            ({
                let (l, j, lc) = paren_spec(old(self).chars@, old(self).index as int, old(self).lc());
                lexed_as(r, l) && final(self).index == j && final(self).lc() == lc
            }),
            (r matches Ok(t) && !(t is Eof)) ==> final(self).index > old(self).index,
        decreases old(self).chars@.len() - old(self).index, 0int,
    {
        let ghost cs = self.chars@;
        let ghost i0 = self.index as int;
        let saved_index = self.index;
        let saved_position = self.position;
        let saved_line = self.line;
        let saved_column = self.column;
        self.advance();
        let ghost lc1 = self.lc();
        let mut content: Vec<char> = Vec::new();
        let mut depth: usize = 1;
        assert(content@ =~= cs.subrange(i0 + 1, i0 + 1));
        while depth > 0
            invariant
                self.wf(),
                self.chars@ == cs,
                0 <= i0 < self.index,
                i0 == old(self).index,
                cs == old(self).chars@,
                lc1 == next_lc(cs[i0], old(self).lc()),
                depth <= self.index + 1,
                depth > 0 ==> paren_close(cs, i0 + 1, 1) == paren_close(cs, self.index as int, depth as int),
                depth == 0 ==> paren_close(cs, i0 + 1, 1) == Some(self.index as int),
                content@ == cs.subrange(i0 + 1, self.index as int),
                self.lc() == lc_to(cs, i0 + 1, self.index as int, lc1),
            decreases cs.len() - self.index, depth,
        {
            let idx = self.index;
            proof {
                if idx < cs.len() { lemma_lc_to_step(cs, i0 + 1, idx as int, lc1); }
                assert(cs.take(cs.len() as int) =~= cs);
            }
            match self.peek() {
                Some('(') => {
                    content.push('(');
                    self.advance();
                    depth = depth + 1;
                    assert(content@ =~= cs.subrange(i0 + 1, self.index as int));
                }
                Some(')') => {
                    if depth > 1 {
                        depth = depth - 1;
                        content.push(')');
                        self.advance();
                        assert(content@ =~= cs.subrange(i0 + 1, self.index as int));
                    } else {
                        depth = 0;
                    }
                }
                Some(ch) => {
                    content.push(ch);
                    self.advance();
                    assert(content@ =~= cs.subrange(i0 + 1, self.index as int));
                }
                None => {
                    return Err(ForthError::LexError {
                        position: self.position,
                        message: "Unclosed parenthesized comment".to_owned(),
                    });
                }
            }
        }
        if has_double_dash(&content) {
            self.index = saved_index;
            self.position = saved_position;
            self.line = saved_line;
            self.column = saved_column;
            self.advance();
            Ok(Token::LeftParen)
        } else {
            let close = self.index;
            proof {
                lemma_paren_close_range(cs, i0 + 1, 1);
                lemma_lc_to_step(cs, i0 + 1, close as int, lc1);
            }
            self.advance();
            self.next_token()
        }
    }

    /// Reads the next token.
    pub fn next_token(&mut self) -> (r: Result<Token, ForthError>)
        requires
            old(self).wf(),
        ensures
            final(self).wf(),
            final(self).chars@ == old(self).chars@,
            ({
                let (l, j, lc) = next_spec(old(self).chars@, old(self).index as int, old(self).lc());
                lexed_as(r, l) && final(self).index == j && final(self).lc() == lc
            }),
            (r matches Ok(t) && !(t is Eof)) ==> final(self).index > old(self).index,
        decreases old(self).chars@.len() - old(self).index, 1int,
    {
        let ghost cs = self.chars@;
        let ghost i0 = self.index as int;
        let ghost lc0 = self.lc();
        self.skip_whitespace();
        proof { lemma_ws_end_range(cs, i0); }
        let s = self.index;
        let ghost lc1 = self.lc();
        proof {
            assert(cs.take(cs.len() as int) =~= cs);
        }
        if s >= self.chars.len() {
            return Ok(Token::Eof);
        }
        let c = self.chars[s];
        if c == ':' {
            self.advance();
            Ok(Token::Colon)
        } else if c == ';' {
            self.advance();
            Ok(Token::Semicolon)
        } else if c == '(' {
            self.parse_paren_comment()
        } else if c == ')' {
            self.advance();
            Ok(Token::RightParen)
        } else if c == '"' {
            self.parse_string()
        } else if c == '\\' {
            self.advance();
            self.skip_line_comment();
            proof {
                lemma_line_end_after(cs, s + 1);
                lemma_lc_to_trans(cs, s as int, s + 1, self.index as int, lc1);
            }
            self.next_token()
        } else if c == '-' {
            self.advance();
            if self.index < self.chars.len() && self.chars[self.index] == '-' {
                self.advance();
                Ok(Token::StackEffectSep)
            } else if self.index < self.chars.len() && is_ascii_digit(self.chars[self.index]) {
                self.parse_number('-')
            } else {
                let mut w = String::new();
                push_char(&mut w, '-');
                Ok(Token::Word(w))
            }
        } else if is_ascii_digit(c) {
            self.advance();
            let is_word = self.index < self.chars.len() && {
                let n = self.chars[self.index];
                !is_ascii_digit(n) && !is_whitespace(n) && n != '(' && n != ')' && n != '.'
            };
            if is_word {
                // Read again from the digit: the same place, one column further.
                self.column = self.column + 1;
                Ok(self.parse_word(c))
            } else {
                self.parse_number(c)
            }
        } else {
            self.advance();
            Ok(self.parse_word(c))
        }
    }

    /// Reads every token up to and including `Eof`.
    pub fn tokenize(&mut self) -> (r: Result<Vec<Token>, ForthError>)
        requires
            old(self).wf(),
        ensures
            final(self).wf(),
            match lex_all(old(self).chars@, old(self).index as int, old(self).lc()) {
                Ok(ts) => r matches Ok(v) && v@.map_values(|t: Token| token_view(t)) == ts,
                Err((p, m)) => lexed_as_error(r, p, m),
            },
    {
        let ghost cs = self.chars@;
        let ghost start = lex_all(cs, self.index as int, self.lc());
        let mut tokens: Vec<Token> = Vec::new();
        loop
            invariant
                self.wf(),
                self.chars@ == cs,
                cs == old(self).chars@,
                start == lex_all(old(self).chars@, old(self).index as int, old(self).lc()),
                start == append_lexed(tokens@.map_values(|t: Token| token_view(t)), lex_all(cs, self.index as int, self.lc())),
            decreases cs.len() - self.index,
        {
            let ghost i = self.index as int;
            let ghost lc = self.lc();
            let ghost prev = tokens@.map_values(|t: Token| token_view(t));
            match self.next_token() {
                Ok(token) => {
                    let eof = matches!(token, Token::Eof);
                    let ghost tv = token_view(token);
                    tokens.push(token);
                    proof {
                        assert(tokens@.map_values(|t: Token| token_view(t)) =~= prev.push(tv));
                        let rest = lex_all(cs, self.index as int, self.lc());
                        match rest {
                            Ok(ts) => { assert(prev + (seq![tv] + ts) =~= prev.push(tv) + ts); }
                            Err(_) => {}
                        }
                        if eof {
                            assert(prev + seq![tv] =~= prev.push(tv));
                        }
                    }
                    if eof {
                        return Ok(tokens);
                    }
                }
                Err(e) => {
                    return Err(e);
                }
            }
        }
    }
    /// Skips to just after the end of the line.
    fn skip_line_comment(&mut self)
        requires
            old(self).wf(),
        ensures
            final(self).wf(),
            final(self).chars@ == old(self).chars@,
            final(self).index == line_end(old(self).chars@, old(self).index as int),
            final(self).lc() == lc_to(old(self).chars@, old(self).index as int, final(self).index as int, old(self).lc()),
    {
        let ghost start = self.index as int;
        let ghost lc0 = self.lc();
        while self.index < self.chars.len()
            invariant
                self.wf(),
                self.chars@ == old(self).chars@,
                0 <= start <= self.index,
                start == old(self).index,
                lc0 == old(self).lc(),
                line_end(self.chars@, start) == line_end(self.chars@, self.index as int),
                self.lc() == lc_to(self.chars@, start, self.index as int, lc0),
            decreases self.chars@.len() - self.index,
        {
            proof { lemma_lc_to_step(self.chars@, start, self.index as int, lc0); }
            let ch = self.advance();
            if ch == Some('\n') {
                return;
            }
        }
    }
}

/// `s` holds `--`.
pub fn has_double_dash(s: &Vec<char>) -> (r: bool)
    ensures
        r == has_sep(s@),
{
    if s.len() < 2 {
        return false;
    }
    let mut k: usize = 0;
    while k + 1 < s.len()
        invariant
            k + 1 <= s.len(),
            forall|x: int| 0 <= x < k ==> !(s@[x] == '-' && #[trigger] s@[x + 1] == '-'),
        decreases s.len() - k,
    {
        if s[k] == '-' && s[k + 1] == '-' {
            return true;
        }
        k = k + 1;
    }
    false
}

/// The text `t` of a float literal is accepted by `f64`'s `FromStr`.
pub fn float_text_valid(t: &Vec<char>) -> (r: bool)
    ensures
        r == float_text_ok(t@),
{
    let mut k: usize = 0;
    while k < t.len() && !(t[k] == 'e' || t[k] == 'E')
        invariant
            k <= t.len(),
            exp_pos(t@, 0) == exp_pos(t@, k as int),
        decreases t.len() - k,
    {
        k = k + 1;
    }
    if k >= t.len() {
        return true;
    }
    let has_sign = k + 1 < t.len() && (t[k + 1] == '+' || t[k + 1] == '-');
    let start: usize = if has_sign { k + 2 } else { k + 1 };
    proof {
        let rest = t@.skip(k + 1);
        let digits = if rest.len() > 0 && (rest[0] == '+' || rest[0] == '-') { rest.skip(1) } else { rest };
        assert(digits =~= t@.subrange(start as int, t@.len() as int));
    }
    if start >= t.len() {
        return false;
    }
    let mut d: usize = start;
    assert(float_text_ok(t@) == all_digits(t@.subrange(start as int, t@.len() as int)));
    while d < t.len()
        invariant
            start <= d <= t.len(),
            start < t.len(),
            float_text_ok(t@) == all_digits(t@.subrange(start as int, t@.len() as int)),
            forall|x: int| start <= x < d ==> spec_is_digit(#[trigger] t@[x]),
        decreases t.len() - d,
    {
        if !is_ascii_digit(t[d]) {
            proof {
                let digits = t@.subrange(start as int, t@.len() as int);
                assert(digits[d - start] == t@[d as int]);
                assert(!all_digits(digits));
            }
            return false;
        }
        d = d + 1;
    }
    proof {
        let digits = t@.subrange(start as int, t@.len() as int);
        assert forall|x: int| 0 <= x < digits.len() implies spec_is_digit(#[trigger] digits[x]) by {
            assert(digits[x] == t@[start + x]);
        }
    }
    true
}

/// The token for the word `word` whose upper-case form is `upper`: the
/// keyword that `upper` spells, or the word itself.
pub fn keyword_or_word(upper: &str, word: String) -> (r: Token)
    ensures
        token_view(r) == word_token(word@, upper@),
{
    let u = chars_of(upper);
    if eq_lit(&u, "IF") { Token::If }
    else if eq_lit(&u, "THEN") { Token::Then }
    else if eq_lit(&u, "ELSE") { Token::Else }
    else if eq_lit(&u, "DO") { Token::Do }
    else if eq_lit(&u, "LOOP") { Token::Loop }
    else if eq_lit(&u, "+LOOP") { Token::PlusLoop }
    else if eq_lit(&u, "BEGIN") { Token::Begin }
    else if eq_lit(&u, "UNTIL") { Token::Until }
    else if eq_lit(&u, "WHILE") { Token::While }
    else if eq_lit(&u, "REPEAT") { Token::Repeat }
    else if eq_lit(&u, "VARIABLE") { Token::Variable }
    else if eq_lit(&u, "CONSTANT") { Token::Constant }
    else if eq_lit(&u, "IMMEDIATE") { Token::Immediate }
    else { Token::Word(word) }
}

} // verus!
