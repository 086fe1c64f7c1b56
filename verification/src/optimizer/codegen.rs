//! C code generation from the optimized IR.
use vstd::prelude::*;
use crate::text::{chars_of, push_char, push_str, i64_text, usize_text, decimal_text};
use crate::optimizer::error::OptimizerError;
use crate::optimizer::ir::{ForthIR, Instruction, WordDef};
use crate::frontend::lexer::char_len_utf8;
use crate::optimizer::semantics::{exec_instr, binary_value, unary_value};
use crate::optimizer::arith::{spec_wrapping_neg, spec_wrapping_abs, spec_wrapping_div, spec_wrapping_rem};

verus! {

/// `char::is_alphanumeric`: the Unicode `Alphabetic` or `Numeric` property.
pub uninterp spec fn alphanumeric(c: char) -> bool;

/// `char::is_numeric`: a Unicode `Nd`, `Nl` or `No` character.
pub uninterp spec fn numeric(c: char) -> bool;

/// Whether `c` is alphanumeric (`char::is_alphanumeric`), by the Unicode
/// tables of the standard library; only the name is stated.
#[verifier::external_body]
fn is_alphanumeric(c: char) -> (r: bool)
    ensures
        r == alphanumeric(c),
{
    c.is_alphanumeric()
}

/// Whether `c` is numeric (`char::is_numeric`), by the Unicode tables of
/// the standard library; only the name is stated.
#[verifier::external_body]
fn is_numeric(c: char) -> (r: bool)
    ensures
        r == numeric(c),
{
    c.is_numeric()
}

/// A name with every character that is not alphanumeric or `_` replaced by `_`.
pub open spec fn underscored(s: Seq<char>) -> Seq<char> {
    s.map_values(|c: char| if alphanumeric(c) || c == '_' { c } else { '_' })
}

/// A word name as a C identifier: characters other than alphanumerics and
/// `_` become `_`, and a leading numeric character becomes `_`.
pub open spec fn sanitized(s: Seq<char>) -> Seq<char> {
    let m = underscored(s);
    if m.len() > 0 && numeric(m[0]) { seq!['_'] + m.drop_first() } else { m }
}

/// The name can be sanitized: a leading numeric character that is kept is
/// one byte long (the rest of the name is taken after its first byte).
pub open spec fn sanitizable(s: Seq<char>) -> bool {
    let m = underscored(s);
    m.len() > 0 && numeric(m[0]) ==> char_len_utf8(m[0]) == 1
}

/// A word name as a C identifier.
pub fn sanitize_name(name: &str) -> (r: String)
    requires
        sanitizable(name@),
    ensures
        r@ == sanitized(name@),
{
    let cs = chars_of(name);
    let mut m: Vec<char> = Vec::new();
    let mut i: usize = 0;
    while i < cs.len()
        invariant
            i <= cs.len(),
            cs@ == name@,
            m@ == underscored(cs@).take(i as int),
        decreases cs.len() - i,
    {
        let c = cs[i];
        let d = if is_alphanumeric(c) || c == '_' { c } else { '_' };
        m.push(d);
        i = i + 1;
        assert(m@ =~= underscored(cs@).take(i as int));
    }
    assert(underscored(cs@).take(cs.len() as int) =~= underscored(cs@));
    let mut r = String::new();
    let start: usize = if m.len() > 0 && is_numeric(m[0]) {
        push_char(&mut r, '_');
        1
    } else {
        0
    };
    let mut k: usize = start;
    while k < m.len()
        invariant
            start <= k <= m.len(),
            start <= 1,
            r@ == (if start == 1 { seq!['_'] } else { Seq::empty() }) + m@.subrange(start as int, k as int),
        decreases m.len() - k,
    {
        push_char(&mut r, m[k]);
        k = k + 1;
        assert(r@ =~= (if start == 1 { seq!['_'] } else { Seq::empty() }) + m@.subrange(start as int, k as int));
    }
    assert(m@.subrange(start as int, m@.len() as int) =~= if start == 1 { m@.drop_first() } else { m@ });
    r
}

/// Whether a name can be sanitized (see `sanitizable`).
pub fn is_sanitizable(name: &str) -> (r: bool)
    ensures
        r == sanitizable(name@),
{
    let cs = chars_of(name);
    if cs.len() == 0 {
        return true;
    }
    let c = cs[0];
    let d = if is_alphanumeric(c) || c == '_' { c } else { '_' };
    assert(underscored(name@)[0] == d);
    if is_numeric(d) {
        (d as u32) < 0x80
    } else {
        true
    }
}

/// A word name as a C identifier, or `None` where a leading numeric character
/// that is kept takes more than one byte.
pub fn try_sanitize_name(name: &str) -> (r: Option<String>)
    ensures
        r is Some <==> sanitizable(name@),
        r matches Some(s) ==> s@ == sanitized(name@),
{
    if is_sanitizable(name) {
        Some(sanitize_name(name))
    } else {
        None
    }
}

/// The C line of an instruction other than a float literal.
pub open spec fn c_text(i: Instruction) -> Seq<char> {
    match i {
        Instruction::Literal(v) => "    PUSH("@ + decimal_text(v as int) + ");"@,
        Instruction::Dup => "    PUSH(TOS);"@,
        Instruction::Drop => "    sp--;"@,
        Instruction::Swap => "    { cell_t tmp = TOS; TOS = NOS; NOS = tmp; }"@,
        Instruction::Over => "    PUSH(NOS);"@,
        Instruction::Add => "    NOS += TOS; DROP;"@,
        Instruction::Sub => "    NOS -= TOS; DROP;"@,
        Instruction::Mul => "    NOS *= TOS; DROP;"@,
        Instruction::Div => "    NOS /= TOS; DROP;"@,
        Instruction::Mod => "    NOS %= TOS; DROP;"@,
        Instruction::Neg => "    TOS = -TOS;"@,
        Instruction::Abs => "    TOS = (TOS < 0) ? -TOS : TOS;"@,
        Instruction::And => "    NOS &= TOS; DROP;"@,
        Instruction::Or => "    NOS |= TOS; DROP;"@,
        Instruction::Xor => "    NOS ^= TOS; DROP;"@,
        Instruction::Not => "    TOS = ~TOS;"@,
        Instruction::Shl => "    NOS <<= TOS; DROP;"@,
        Instruction::Shr => "    NOS >>= TOS; DROP;"@,
        Instruction::Eq => "    NOS = (NOS == TOS) ? -1 : 0; DROP;"@,
        Instruction::Ne => "    NOS = (NOS != TOS) ? -1 : 0; DROP;"@,
        Instruction::Lt => "    NOS = (NOS < TOS) ? -1 : 0; DROP;"@,
        Instruction::Le => "    NOS = (NOS <= TOS) ? -1 : 0; DROP;"@,
        Instruction::Gt => "    NOS = (NOS > TOS) ? -1 : 0; DROP;"@,
        Instruction::Ge => "    NOS = (NOS >= TOS) ? -1 : 0; DROP;"@,
        Instruction::ZeroEq => "    TOS = (TOS == 0) ? -1 : 0;"@,
        Instruction::ZeroLt => "    TOS = (TOS < 0) ? -1 : 0;"@,
        Instruction::ZeroGt => "    TOS = (TOS > 0) ? -1 : 0;"@,
        Instruction::DupAdd => "    TOS = TOS + TOS;"@,
        Instruction::DupMul => "    TOS = TOS * TOS;"@,
        Instruction::IncOne => "    TOS++;"@,
        Instruction::DecOne => "    TOS--;"@,
        Instruction::MulTwo => "    TOS <<= 1;"@,
        Instruction::DivTwo => "    TOS >>= 1;"@,
        Instruction::LiteralAdd(n) => "    TOS += "@ + decimal_text(n as int) + ";"@,
        Instruction::LiteralMul(n) => "    TOS *= "@ + decimal_text(n as int) + ";"@,
        Instruction::CachedDup { .. } => "    PUSH(TOS);"@,
        Instruction::CachedSwap { .. } => "    { cell_t tmp = TOS; TOS = NOS; NOS = tmp; }"@,
        Instruction::FlushCache => "    /* cache flushed */"@,
        Instruction::Call(name) => "    "@ + sanitized(name@) + "();"@,
        Instruction::Return => "    return;"@,
        Instruction::Branch(t) => "    goto L"@ + decimal_text(t as int) + ";"@,
        Instruction::BranchIf(t) => "    if (TOS) { DROP; goto L"@ + decimal_text(t as int) + "; } DROP;"@,
        Instruction::BranchIfNot(t) => "    if (!TOS) { DROP; goto L"@ + decimal_text(t as int) + "; } DROP;"@,
        Instruction::Load => "    TOS = *(cell_t*)TOS;"@,
        Instruction::Store => "    *(cell_t*)TOS = NOS; sp -= 2;"@,
        Instruction::Load8 => "    TOS = *(uint8_t*)TOS;"@,
        Instruction::Store8 => "    *(uint8_t*)TOS = (uint8_t)NOS; sp -= 2;"@,
        Instruction::ToR => "    *rsp++ = TOS; DROP;"@,
        Instruction::FromR => "    PUSH(*--rsp);"@,
        Instruction::RFetch => "    PUSH(rsp[-1]);"@,
        Instruction::Label(name) => sanitized(name@) + ":"@,
        Instruction::Comment(text) => "    /* "@ + text@ + " */"@,
        Instruction::Nop => "    /* nop */"@,
        _ => "    /* unimplemented */"@,
    }
}

/// The names the instruction turns into C identifiers can be sanitized.
pub open spec fn inst_sanitizable(i: Instruction) -> bool {
    match i {
        Instruction::Call(n) => sanitizable(n@),
        Instruction::Label(n) => sanitizable(n@),
        _ => true,
    }
}

/// `r` is the C line of `i`, a float literal printed by `float_text`.
pub open spec fn rendered<F: Fn(u64) -> String>(i: Instruction, float_text: F, r: Seq<char>) -> bool {
    match i {
        Instruction::FloatLiteral(b) => exists|t: String| call_ensures(float_text, (b,), t)
            && r == "    PUSH_F("@ + t@ + ");"@,
        _ => r == c_text(i),
    }
}

/// The C code generator.
pub struct CCodegen {
    /// Dispatch through computed gotos.
    pub use_computed_goto: bool,
}

impl CCodegen {
    pub fn new() -> (r: Self)
        ensures
            r.use_computed_goto,
    {
        CCodegen { use_computed_goto: true }
    }

    /// The C line of one instruction; `float_text` prints a float literal
    /// from its bit pattern.
    pub fn generate_instruction<F: Fn(u64) -> String>(&self, inst: &Instruction, float_text: &F) -> (r: String)
        requires
            inst_sanitizable(*inst),
            forall|b: u64| call_requires(*float_text, (b,)),
        ensures
            rendered(*inst, *float_text, r@),
    {
        let mut r = String::new();
        match inst {
            Instruction::Literal(v) => {
                push_str(&mut r, "    PUSH(");
                let d = i64_text(*v);
                push_str(&mut r, d.as_str());
                push_str(&mut r, ");");
            }
            Instruction::FloatLiteral(b) => {
                let t = float_text(*b);
                push_str(&mut r, "    PUSH_F(");
                push_str(&mut r, t.as_str());
                push_str(&mut r, ");");
            }
            Instruction::Dup => push_str(&mut r, "    PUSH(TOS);"),
            Instruction::Drop => push_str(&mut r, "    sp--;"),
            Instruction::Swap => push_str(&mut r, "    { cell_t tmp = TOS; TOS = NOS; NOS = tmp; }"),
            Instruction::Over => push_str(&mut r, "    PUSH(NOS);"),
            Instruction::Add => push_str(&mut r, "    NOS += TOS; DROP;"),
            Instruction::Sub => push_str(&mut r, "    NOS -= TOS; DROP;"),
            Instruction::Mul => push_str(&mut r, "    NOS *= TOS; DROP;"),
            Instruction::Div => push_str(&mut r, "    NOS /= TOS; DROP;"),
            Instruction::Mod => push_str(&mut r, "    NOS %= TOS; DROP;"),
            Instruction::Neg => push_str(&mut r, "    TOS = -TOS;"),
            Instruction::Abs => push_str(&mut r, "    TOS = (TOS < 0) ? -TOS : TOS;"),
            Instruction::And => push_str(&mut r, "    NOS &= TOS; DROP;"),
            Instruction::Or => push_str(&mut r, "    NOS |= TOS; DROP;"),
            Instruction::Xor => push_str(&mut r, "    NOS ^= TOS; DROP;"),
            Instruction::Not => push_str(&mut r, "    TOS = ~TOS;"),
            Instruction::Shl => push_str(&mut r, "    NOS <<= TOS; DROP;"),
            Instruction::Shr => push_str(&mut r, "    NOS >>= TOS; DROP;"),
            Instruction::Eq => push_str(&mut r, "    NOS = (NOS == TOS) ? -1 : 0; DROP;"),
            Instruction::Ne => push_str(&mut r, "    NOS = (NOS != TOS) ? -1 : 0; DROP;"),
            Instruction::Lt => push_str(&mut r, "    NOS = (NOS < TOS) ? -1 : 0; DROP;"),
            Instruction::Le => push_str(&mut r, "    NOS = (NOS <= TOS) ? -1 : 0; DROP;"),
            Instruction::Gt => push_str(&mut r, "    NOS = (NOS > TOS) ? -1 : 0; DROP;"),
            Instruction::Ge => push_str(&mut r, "    NOS = (NOS >= TOS) ? -1 : 0; DROP;"),
            Instruction::ZeroEq => push_str(&mut r, "    TOS = (TOS == 0) ? -1 : 0;"),
            Instruction::ZeroLt => push_str(&mut r, "    TOS = (TOS < 0) ? -1 : 0;"),
            Instruction::ZeroGt => push_str(&mut r, "    TOS = (TOS > 0) ? -1 : 0;"),
            Instruction::DupAdd => push_str(&mut r, "    TOS = TOS + TOS;"),
            Instruction::DupMul => push_str(&mut r, "    TOS = TOS * TOS;"),
            Instruction::IncOne => push_str(&mut r, "    TOS++;"),
            Instruction::DecOne => push_str(&mut r, "    TOS--;"),
            Instruction::MulTwo => push_str(&mut r, "    TOS <<= 1;"),
            Instruction::DivTwo => push_str(&mut r, "    TOS >>= 1;"),
            Instruction::LiteralAdd(n) => {
                push_str(&mut r, "    TOS += ");
                let d = i64_text(*n);
                push_str(&mut r, d.as_str());
                push_str(&mut r, ";");
            }
            Instruction::LiteralMul(n) => {
                push_str(&mut r, "    TOS *= ");
                let d = i64_text(*n);
                push_str(&mut r, d.as_str());
                push_str(&mut r, ";");
            }
            Instruction::CachedDup { .. } => push_str(&mut r, "    PUSH(TOS);"),
            Instruction::CachedSwap { .. } => push_str(&mut r, "    { cell_t tmp = TOS; TOS = NOS; NOS = tmp; }"),
            Instruction::FlushCache => push_str(&mut r, "    /* cache flushed */"),
            Instruction::Call(name) => {
                push_str(&mut r, "    ");
                let s = sanitize_name(name.as_str());
                push_str(&mut r, s.as_str());
                push_str(&mut r, "();");
            }
            Instruction::Return => push_str(&mut r, "    return;"),
            Instruction::Branch(t) => {
                push_str(&mut r, "    goto L");
                let d = usize_text(*t);
                push_str(&mut r, d.as_str());
                push_str(&mut r, ";");
            }
            Instruction::BranchIf(t) => {
                push_str(&mut r, "    if (TOS) { DROP; goto L");
                let d = usize_text(*t);
                push_str(&mut r, d.as_str());
                push_str(&mut r, "; } DROP;");
            }
            Instruction::BranchIfNot(t) => {
                push_str(&mut r, "    if (!TOS) { DROP; goto L");
                let d = usize_text(*t);
                push_str(&mut r, d.as_str());
                push_str(&mut r, "; } DROP;");
            }
            Instruction::Load => push_str(&mut r, "    TOS = *(cell_t*)TOS;"),
            Instruction::Store => push_str(&mut r, "    *(cell_t*)TOS = NOS; sp -= 2;"),
            Instruction::Load8 => push_str(&mut r, "    TOS = *(uint8_t*)TOS;"),
            Instruction::Store8 => push_str(&mut r, "    *(uint8_t*)TOS = (uint8_t)NOS; sp -= 2;"),
            Instruction::ToR => push_str(&mut r, "    *rsp++ = TOS; DROP;"),
            Instruction::FromR => push_str(&mut r, "    PUSH(*--rsp);"),
            Instruction::RFetch => push_str(&mut r, "    PUSH(rsp[-1]);"),
            Instruction::Label(name) => {
                let s = sanitize_name(name.as_str());
                push_str(&mut r, s.as_str());
                push_str(&mut r, ":");
            }
            Instruction::Comment(text) => {
                push_str(&mut r, "    /* ");
                push_str(&mut r, text.as_str());
                push_str(&mut r, " */");
            }
            Instruction::Nop => push_str(&mut r, "    /* nop */"),
            _ => push_str(&mut r, "    /* unimplemented */"),
        }
        r
    }
}

/// The lines `rs`, each followed by a newline.
pub open spec fn joined_lines(rs: Seq<Seq<char>>) -> Seq<char>
    decreases rs.len(),
{
    if rs.len() == 0 { Seq::empty() } else { joined_lines(rs.drop_last()) + rs.last() + "\n"@ }
}

/// `text` is the C lines of `insts`, one per instruction.
pub open spec fn lines_of<F: Fn(u64) -> String>(insts: Seq<Instruction>, float_text: F, text: Seq<char>) -> bool {
    exists|rs: Seq<Seq<char>>| #[trigger] joined_lines(rs) == text && rs.len() == insts.len()
        && forall|k: int| 0 <= k < insts.len() ==> rendered(insts[k], float_text, #[trigger] rs[k])
}

/// Every name in the instructions can be sanitized.
pub open spec fn all_sanitizable(insts: Seq<Instruction>) -> bool {
    forall|k: int| 0 <= k < insts.len() ==> inst_sanitizable(#[trigger] insts[k])
}

/// The words' names and instructions can be sanitized.
pub open spec fn ir_sanitizable(ir: ForthIR) -> bool {
    &&& all_sanitizable(ir.main@)
    &&& forall|i: int| 0 <= i < ir.words@.len() ==> {
        &&& sanitizable((#[trigger] ir.words@[i]).name@)
        &&& all_sanitizable(ir.words@[i].instructions@)
    }
}

/// The header of a generated C file: includes, the cell type, the stacks and their macros.
pub open spec fn c_header() -> Seq<char> {
    HEADER@
}

pub const HEADER: &'static str = "
#include <stdint.h>
#include <stdbool.h>

typedef int64_t cell_t;

// Stack macros
#define STACK_SIZE 256
static cell_t stack[STACK_SIZE];
static cell_t* sp = stack;
static cell_t rstack[STACK_SIZE];
static cell_t* rsp = rstack;

#define TOS (sp[-1])
#define NOS (sp[-2])
#define THIRD (sp[-3])
#define PUSH(x) (*sp++ = (x))
#define DROP (sp--)

";

/// The C function of a word: its signature line, its lines and a closing brace.
pub open spec fn word_code<F: Fn(u64) -> String>(w: WordDef, float_text: F, text: Seq<char>) -> bool {
    exists|body: Seq<char>| #[trigger] lines_of(w.instructions@, float_text, body)
        && text == "void "@ + sanitized(w.name@) + "(void) /* "@ + "("@
            + decimal_text(w.stack_effect.consumed as int) + " -- "@
            + decimal_text(w.stack_effect.produced as int) + ")"@ + " */ {\n"@ + body + "}\n"@
}

/// A C code generation back end.
pub trait CodegenBackend {
    /// The code of a whole program.
    fn generate<F: Fn(u64) -> String>(&mut self, ir: &ForthIR, float_text: &F) -> (r: Result<String, OptimizerError>)
        requires
            ir_sanitizable(*ir),
            forall|b: u64| call_requires(*float_text, (b,)),
    ;

    /// The code of one word.
    fn generate_word<F: Fn(u64) -> String>(&mut self, word: &WordDef, float_text: &F) -> (r: Result<String, OptimizerError>)
        requires
            sanitizable(word.name@),
            all_sanitizable(word.instructions@),
            forall|b: u64| call_requires(*float_text, (b,)),
    ;
}

impl CCodegen {
    /// The lines of a sequence of instructions.
    fn generate_lines<F: Fn(u64) -> String>(&self, insts: &Vec<Instruction>, float_text: &F, out: &mut String)
        requires
            all_sanitizable(insts@),
            forall|b: u64| call_requires(*float_text, (b,)),
        ensures
            exists|body: Seq<char>| #[trigger] lines_of(insts@, *float_text, body) && final(out)@ == old(out)@ + body,
    {
        let ghost start = out@;
        let ghost mut rs: Seq<Seq<char>> = Seq::empty();
        let mut k: usize = 0;
        while k < insts.len()
            invariant
                k <= insts.len(),
                all_sanitizable(insts@),
                forall|b: u64| call_requires(*float_text, (b,)),
                rs.len() == k,
                forall|j: int| 0 <= j < k ==> rendered(insts@[j], *float_text, #[trigger] rs[j]),
                out@ == start + joined_lines(rs),
            decreases insts.len() - k,
        {
            let line = self.generate_instruction(&insts[k], float_text);
            push_str(out, line.as_str());
            push_str(out, "\n");
            proof {
                let rs0 = rs;
                rs = rs.push(line@);
                assert(rs.drop_last() =~= rs0);
                assert(out@ =~= start + joined_lines(rs));
            }
            k = k + 1;
        }
        assert(joined_lines(rs) == joined_lines(rs) && rs.len() == insts@.len());
        assert(lines_of(insts@, *float_text, joined_lines(rs)));
    }
}

impl CodegenBackend for CCodegen {
    fn generate_word<F: Fn(u64) -> String>(&mut self, word: &WordDef, float_text: &F) -> (r: Result<String, OptimizerError>)
        ensures
            r matches Ok(code) && word_code(*word, *float_text, code@),
    {
        let mut code = String::new();
        push_str(&mut code, "void ");
        let name = sanitize_name(word.name.as_str());
        push_str(&mut code, name.as_str());
        push_str(&mut code, "(void) /* ");
        let effect = word.stack_effect.display_text();
        push_str(&mut code, effect.as_str());
        push_str(&mut code, " */ {\n");
        let ghost head = code@;
        self.generate_lines(&word.instructions, float_text, &mut code);
        push_str(&mut code, "}\n");
        proof {
            let body = choose|body: Seq<char>| #[trigger] lines_of(word.instructions@, *float_text, body)
                && code@ == head + body + "}\n"@;
            assert(code@ =~= "void "@ + sanitized(word.name@) + "(void) /* "@ + "("@
                + decimal_text(word.stack_effect.consumed as int) + " -- "@
                + decimal_text(word.stack_effect.produced as int) + ")"@ + " */ {\n"@ + body + "}\n"@);
        }
        Ok(code)
    }

    fn generate<F: Fn(u64) -> String>(&mut self, ir: &ForthIR, float_text: &F) -> (r: Result<String, OptimizerError>)
        ensures
            r matches Ok(code) && exists|words: Seq<Seq<char>>, main: Seq<char>|
                #![trigger lines_of(ir.main@, *float_text, main), joined_lines(words)] {
                &&& words.len() == ir.words@.len()
                &&& (forall|i: int| 0 <= i < ir.words@.len() ==> word_code(ir.words@[i], *float_text, #[trigger] words[i]))
                &&& lines_of(ir.main@, *float_text, main)
                &&& code@ == c_header() + joined_lines(words) + "void forth_main(void) {\n"@ + main + "}\n"@
            },
    {
        let mut code = String::new();
        push_str(&mut code, HEADER);
        let ghost mut words: Seq<Seq<char>> = Seq::empty();
        let mut i: usize = 0;
        while i < ir.words.len()
            invariant
                i <= ir.words.len(),
                ir_sanitizable(*ir),
                forall|b: u64| call_requires(*float_text, (b,)),
                words.len() == i,
                forall|j: int| 0 <= j < i ==> word_code(ir.words@[j], *float_text, #[trigger] words[j]),
                code@ == c_header() + joined_lines(words),
            decreases ir.words.len() - i,
        {
            let w = match self.generate_word(&ir.words[i], float_text) {
                Ok(w) => w,
                Err(e) => return Err(e),
            };
            push_str(&mut code, w.as_str());
            push_str(&mut code, "\n");
            proof {
                let w0 = words;
                words = words.push(w@);
                assert(words.drop_last() =~= w0);
                assert(code@ =~= c_header() + joined_lines(words));
            }
            i = i + 1;
        }
        push_str(&mut code, "void forth_main(void) {\n");
        let ghost mid = code@;
        self.generate_lines(&ir.main, float_text, &mut code);
        push_str(&mut code, "}\n");
        proof {
            let main = choose|body: Seq<char>| #[trigger] lines_of(ir.main@, *float_text, body) && code@ == mid + body + "}\n"@;
            assert(code@ =~= c_header() + joined_lines(words) + "void forth_main(void) {\n"@ + main + "}\n"@);
        }
        Ok(code)
    }
}

impl Default for CCodegen {
    fn default() -> (r: Self)
        ensures
            r.use_computed_goto,
    {
        CCodegen::new()
    }
}


/// A C line that sets the second cell to -1 where `op` holds between it and
/// the top cell, else to 0, and drops the top cell.
pub open spec fn c_compare_line(op: Seq<char>) -> Seq<char> {
    "    NOS = (NOS "@ + op + " TOS) ? -1 : 0; DROP;"@
}

/// A C line that sets the top cell to -1 where `op` holds between it and
/// zero, else to 0.
pub open spec fn c_zero_test_line(op: Seq<char>) -> Seq<char> {
    "    TOS = (TOS "@ + op + " 0) ? -1 : 0;"@
}

/// A C line that applies `op` with assignment to the second cell and the
/// top cell, and drops the top cell.
pub open spec fn c_assign_line(op: Seq<char>) -> Seq<char> {
    "    NOS "@ + op + "= TOS; DROP;"@
}

/// What a C relational or equality operator says of two values.
pub open spec fn c_relation(op: Seq<char>, a: i64, b: i64) -> bool {
    if op == seq!['<'] { a < b }
    else if op == seq!['<', '='] { a <= b }
    else if op == seq!['>'] { a > b }
    else if op == seq!['>', '='] { a >= b }
    else if op == seq!['=', '='] { a == b }
    else if op == seq!['!', '='] { a != b }
    else { false }
}

/// What a C arithmetic or bitwise operator computes on two 64-bit cells,
/// wrapping around; division and remainder truncate toward zero and have no
/// value for a zero divisor.
pub open spec fn c_operation(op: Seq<char>, a: i64, b: i64) -> Option<i64> {
    if op == seq!['+'] { Some(a.wrapping_add(b)) }
    else if op == seq!['-'] { Some(a.wrapping_sub(b)) }
    else if op == seq!['*'] { Some(a.wrapping_mul(b)) }
    else if op == seq!['&'] { Some(a & b) }
    else if op == seq!['|'] { Some(a | b) }
    else if op == seq!['^'] { Some(a ^ b) }
    else if op == seq!['/'] { if b == 0 { None } else { Some(spec_wrapping_div(a, b)) } }
    else if op == seq!['%'] { if b == 0 { None } else { Some(spec_wrapping_rem(a, b)) } }
    else { None }
}

/// The operators, told apart by their characters.
proof fn lemma_operator_chars()
    ensures
        seq!['<'].len() == 1 && seq!['<'][0] == '<',
        seq!['>'].len() == 1 && seq!['>'][0] == '>',
        seq!['<', '='].len() == 2 && seq!['<', '='][0] == '<',
        seq!['>', '='].len() == 2 && seq!['>', '='][0] == '>',
        seq!['=', '='].len() == 2 && seq!['=', '='][0] == '=',
        seq!['!', '='].len() == 2 && seq!['!', '='][0] == '!',
        seq!['+'].len() == 1 && seq!['+'][0] == '+',
        seq!['-'].len() == 1 && seq!['-'][0] == '-',
        seq!['*'].len() == 1 && seq!['*'][0] == '*',
        seq!['&'].len() == 1 && seq!['&'][0] == '&',
        seq!['|'].len() == 1 && seq!['|'][0] == '|',
        seq!['^'].len() == 1 && seq!['^'][0] == '^',
        seq!['/'].len() == 1 && seq!['/'][0] == '/',
        seq!['%'].len() == 1 && seq!['%'][0] == '%',
{
}

/// The value of a C condition.
pub open spec fn c_truth(b: bool) -> i64 {
    if b { -1i64 } else { 0i64 }
}

proof fn lemma_compare_line(i: Instruction, op: Seq<char>)
    requires
        (i == Instruction::Eq && op == seq!['=', '=']) || (i == Instruction::Ne && op == seq!['!', '='])
        || (i == Instruction::Lt && op == seq!['<']) || (i == Instruction::Le && op == seq!['<', '='])
        || (i == Instruction::Gt && op == seq!['>']) || (i == Instruction::Ge && op == seq!['>', '=']),
    ensures
        c_text(i) == c_compare_line(op),
{
    reveal_strlit("    NOS = (NOS ");
    reveal_strlit(" TOS) ? -1 : 0; DROP;");
    reveal_strlit("    NOS = (NOS == TOS) ? -1 : 0; DROP;");
    reveal_strlit("    NOS = (NOS != TOS) ? -1 : 0; DROP;");
    reveal_strlit("    NOS = (NOS < TOS) ? -1 : 0; DROP;");
    reveal_strlit("    NOS = (NOS <= TOS) ? -1 : 0; DROP;");
    reveal_strlit("    NOS = (NOS > TOS) ? -1 : 0; DROP;");
    reveal_strlit("    NOS = (NOS >= TOS) ? -1 : 0; DROP;");
    assert(c_text(i) =~= c_compare_line(op));
}

proof fn lemma_zero_test_line(i: Instruction, op: Seq<char>)
    requires
        (i == Instruction::ZeroEq && op == seq!['=', '=']) || (i == Instruction::ZeroLt && op == seq!['<'])
        || (i == Instruction::ZeroGt && op == seq!['>']),
    ensures
        c_text(i) == c_zero_test_line(op),
{
    reveal_strlit("    TOS = (TOS ");
    reveal_strlit(" 0) ? -1 : 0;");
    reveal_strlit("    TOS = (TOS == 0) ? -1 : 0;");
    reveal_strlit("    TOS = (TOS < 0) ? -1 : 0;");
    reveal_strlit("    TOS = (TOS > 0) ? -1 : 0;");
    assert(c_text(i) =~= c_zero_test_line(op));
}

proof fn lemma_assign_line(i: Instruction, op: Seq<char>)
    requires
        (i == Instruction::Add && op == seq!['+']) || (i == Instruction::Sub && op == seq!['-'])
        || (i == Instruction::Mul && op == seq!['*']) || (i == Instruction::And && op == seq!['&'])
        || (i == Instruction::Or && op == seq!['|']) || (i == Instruction::Xor && op == seq!['^'])
        || (i == Instruction::Div && op == seq!['/']) || (i == Instruction::Mod && op == seq!['%']),
    ensures
        c_text(i) == c_assign_line(op),
{
    reveal_strlit("    NOS ");
    reveal_strlit("= TOS; DROP;");
    reveal_strlit("    NOS += TOS; DROP;");
    reveal_strlit("    NOS -= TOS; DROP;");
    reveal_strlit("    NOS *= TOS; DROP;");
    reveal_strlit("    NOS &= TOS; DROP;");
    reveal_strlit("    NOS |= TOS; DROP;");
    reveal_strlit("    NOS ^= TOS; DROP;");
    reveal_strlit("    NOS /= TOS; DROP;");
    reveal_strlit("    NOS %= TOS; DROP;");
    assert(c_text(i) =~= c_assign_line(op));
}

/// The C emitted for a comparison tests, with the C operator it writes, what
/// the instruction tests: the second cell becomes -1 exactly where the
/// instruction leaves true, else 0, and the top cell is dropped.
pub proof fn law_c_comparisons_follow_meaning(i: Instruction, st: Seq<i64>)
    requires
        i is Eq || i is Ne || i is Lt || i is Le || i is Gt || i is Ge,
        st.len() >= 2,
    ensures
        exists|op: Seq<char>| #[trigger] c_compare_line(op) == c_text(i)
            && exec_instr(i, st) == Some(st.drop_last().drop_last().push(
                c_truth(c_relation(op, st[st.len() - 2], st[st.len() - 1])))),
{
    let op: Seq<char> = match i {
        Instruction::Eq => seq!['=', '='],
        Instruction::Ne => seq!['!', '='],
        Instruction::Lt => seq!['<'],
        Instruction::Le => seq!['<', '='],
        Instruction::Gt => seq!['>'],
        _ => seq!['>', '='],
    };
    lemma_compare_line(i, op);
    let (a, b) = (st[st.len() - 2], st[st.len() - 1]);
    lemma_operator_chars();
    assert(binary_value(i, a, b) == Some(c_truth(c_relation(op, a, b))));
    assert(c_compare_line(op) == c_text(i));
}

/// The C emitted for a test against zero tests, with the C operator it
/// writes, what the instruction tests: the top cell becomes -1 exactly where
/// the instruction leaves true, else 0.
pub proof fn law_c_zero_tests_follow_meaning(i: Instruction, st: Seq<i64>)
    requires
        i is ZeroEq || i is ZeroLt || i is ZeroGt,
        st.len() >= 1,
    ensures
        exists|op: Seq<char>| #[trigger] c_zero_test_line(op) == c_text(i)
            && exec_instr(i, st) == Some(st.drop_last().push(c_truth(c_relation(op, st[st.len() - 1], 0)))),
{
    let op: Seq<char> = match i {
        Instruction::ZeroEq => seq!['=', '='],
        Instruction::ZeroLt => seq!['<'],
        _ => seq!['>'],
    };
    lemma_zero_test_line(i, op);
    let a = st[st.len() - 1];
    assert(binary_value(i, 0, 1) is None);
    lemma_operator_chars();
    assert(unary_value(i, a) == Some(c_truth(c_relation(op, a, 0))));
    assert(c_zero_test_line(op) == c_text(i));
}

/// The C emitted for an arithmetic or bitwise operation computes, with the C
/// operator it writes, what the instruction computes into the second cell,
/// and drops the top cell; it fails exactly where the instruction fails.
pub proof fn law_c_operations_follow_meaning(i: Instruction, st: Seq<i64>)
    requires
        i is Add || i is Sub || i is Mul || i is And || i is Or || i is Xor || i is Div || i is Mod,
        st.len() >= 2,
    ensures
        exists|op: Seq<char>| #[trigger] c_assign_line(op) == c_text(i)
            && exec_instr(i, st) == (match c_operation(op, st[st.len() - 2], st[st.len() - 1]) {
                Some(v) => Some(st.drop_last().drop_last().push(v)),
                None => None,
            }),
{
    let op: Seq<char> = match i {
        Instruction::Add => seq!['+'],
        Instruction::Sub => seq!['-'],
        Instruction::Mul => seq!['*'],
        Instruction::And => seq!['&'],
        Instruction::Or => seq!['|'],
        Instruction::Xor => seq!['^'],
        Instruction::Div => seq!['/'],
        _ => seq!['%'],
    };
    lemma_assign_line(i, op);
    let (a, b) = (st[st.len() - 2], st[st.len() - 1]);
    lemma_operator_chars();
    assert(binary_value(i, a, b) == c_operation(op, a, b));
    assert(c_assign_line(op) == c_text(i));
}

/// What a C statement of the generated code does to the data stack, for the
/// statements that work on the top cells alone (`TOS` is the top cell,
/// `NOS` the one below it, arithmetic wraps around); `None` for a stack too
/// shallow for it and for any other line.
pub open spec fn c_line_effect(line: Seq<char>, st: Seq<i64>) -> Option<Seq<i64>> {
    let n = st.len();
    if line == "    PUSH(TOS);"@ {
        if n >= 1 { Some(st.push(st[n - 1])) } else { None }
    }
    else if line == "    PUSH(NOS);"@ {
        if n >= 2 { Some(st.push(st[n - 2])) } else { None }
    }
    else if line == "    sp--;"@ {
        if n >= 1 { Some(st.drop_last()) } else { None }
    }
    else if line == "    { cell_t tmp = TOS; TOS = NOS; NOS = tmp; }"@ {
        if n >= 2 { Some(st.update(n - 1, st[n - 2]).update(n - 2, st[n - 1])) } else { None }
    }
    else if line == "    TOS = -TOS;"@ {
        if n >= 1 { Some(st.update(n - 1, spec_wrapping_neg(st[n - 1]))) } else { None }
    }
    else if line == "    TOS = ~TOS;"@ {
        if n >= 1 { Some(st.update(n - 1, !st[n - 1])) } else { None }
    }
    else if line == "    TOS = (TOS < 0) ? -TOS : TOS;"@ {
        if n >= 1 { Some(st.update(n - 1, if st[n - 1] < 0 { spec_wrapping_neg(st[n - 1]) } else { st[n - 1] })) } else { None }
    }
    else if line == "    TOS++;"@ {
        if n >= 1 { Some(st.update(n - 1, st[n - 1].wrapping_add(1))) } else { None }
    }
    else if line == "    TOS--;"@ {
        if n >= 1 { Some(st.update(n - 1, st[n - 1].wrapping_sub(1))) } else { None }
    }
    else if line == "    TOS = TOS + TOS;"@ {
        if n >= 1 { Some(st.update(n - 1, st[n - 1].wrapping_add(st[n - 1]))) } else { None }
    }
    else if line == "    TOS = TOS * TOS;"@ {
        if n >= 1 { Some(st.update(n - 1, st[n - 1].wrapping_mul(st[n - 1]))) } else { None }
    }
    else if line == "    TOS <<= 1;"@ {
        if n >= 1 { Some(st.update(n - 1, st[n - 1] << 1u32)) } else { None }
    }
    else if line == "    TOS >>= 1;"@ {
        if n >= 1 { Some(st.update(n - 1, st[n - 1] >> 1u32)) } else { None }
    }
    else {
        None
    }
}

/// The statements of `c_line_effect`, told apart by their lengths and characters.
proof fn lemma_c_statement_chars()
    ensures
        "    PUSH(TOS);"@.len() == 14,
        "    PUSH(NOS);"@.len() == 14,
        "    sp--;"@.len() == 9,
        "    { cell_t tmp = TOS; TOS = NOS; NOS = tmp; }"@.len() == 47,
        "    TOS = -TOS;"@.len() == 15,
        "    TOS = ~TOS;"@.len() == 15,
        "    TOS = (TOS < 0) ? -TOS : TOS;"@.len() == 33,
        "    TOS++;"@.len() == 10,
        "    TOS--;"@.len() == 10,
        "    TOS = TOS + TOS;"@.len() == 20,
        "    TOS = TOS * TOS;"@.len() == 20,
        "    TOS <<= 1;"@.len() == 14,
        "    TOS >>= 1;"@.len() == 14,
        "    PUSH(NOS);"@[4] == 'P',
        "    PUSH(NOS);"@[9] == 'N',
        "    PUSH(TOS);"@[4] == 'P',
        "    PUSH(TOS);"@[9] == 'T',
        "    TOS <<= 1;"@[4] == 'T',
        "    TOS <<= 1;"@[8] == '<',
        "    TOS = -TOS;"@[10] == '-',
        "    TOS = TOS * TOS;"@[14] == '*',
        "    TOS = TOS + TOS;"@[14] == '+',
        "    TOS = ~TOS;"@[10] == '~',
        "    TOS >>= 1;"@[4] == 'T',
        "    TOS >>= 1;"@[8] == '>',
        "    TOS++;"@[7] == '+',
        "    TOS--;"@[7] == '-',
{
    reveal_strlit("    PUSH(TOS);");
    reveal_strlit("    PUSH(NOS);");
    reveal_strlit("    sp--;");
    reveal_strlit("    { cell_t tmp = TOS; TOS = NOS; NOS = tmp; }");
    reveal_strlit("    TOS = -TOS;");
    reveal_strlit("    TOS = ~TOS;");
    reveal_strlit("    TOS = (TOS < 0) ? -TOS : TOS;");
    reveal_strlit("    TOS++;");
    reveal_strlit("    TOS--;");
    reveal_strlit("    TOS = TOS + TOS;");
    reveal_strlit("    TOS = TOS * TOS;");
    reveal_strlit("    TOS <<= 1;");
    reveal_strlit("    TOS >>= 1;");
}

/// The C emitted for a stack or one-cell instruction does to the data stack
/// what the instruction does: the statement's own effect is the
/// instruction's meaning, on every stack.
pub proof fn law_c_statements_follow_meaning(i: Instruction, st: Seq<i64>)
    requires
        i is Dup || i is Drop || i is Swap || i is Over || i is Neg || i is Not || i is Abs || i is IncOne
            || i is DecOne || i is DupAdd || i is DupMul || i is MulTwo || i is DivTwo,
    ensures
        c_line_effect(c_text(i), st) == exec_instr(i, st),
{
    lemma_c_statement_chars();
    let n = st.len();
    if n >= 2 {
        assert(st.update(n - 1, st[n - 2]).update(n - 2, st[n - 1]) =~= st.drop_last().drop_last().push(st[n - 1]).push(st[n - 2]));
    }
    if n >= 1 {
        let a = st[n - 1];
        assert(binary_value(i, 0, 1) is None);
        assert forall|v: i64| #[trigger] st.update(n - 1, v) == st.drop_last().push(v) by {
            assert(st.update(n - 1, v) =~= st.drop_last().push(v));
        }
        assert(a.wrapping_shl(1) == a << 1u32);
        assert(a.wrapping_shr(1) == a >> 1u32);
        assert(spec_wrapping_abs(a) == if a < 0 { spec_wrapping_neg(a) } else { a });
    }
}

} // verus!
