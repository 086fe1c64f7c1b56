//! Errors of the front end.
use vstd::prelude::*;
use crate::text::{push_str, usize_text, decimal_text};

verus! {

/// An error of the front end.
#[derive(Debug, Clone, PartialEq)]
pub enum ForthError {
    ParseError { line: usize, column: usize, message: String },
    LexError { position: usize, message: String },
    UndefinedWord { word: String, line: Option<usize> },
    StackUnderflow { word: String, expected: usize, found: usize },
    StackMismatch { word: String, then_depth: usize, else_depth: usize, message: String },
    StackOverflow { max: usize },
    TypeError { expected: String, found: String, location: Option<String> },
    InvalidStackEffect { declaration: String },
    RedefinitionError { word: String },
    ControlStructureMismatch { expected: String, found: String },
    InvalidImmediateWord { word: String },
    SSAConversionError { message: String },
    InternalError { message: String },
}

/// The text an error displays.
pub open spec fn forth_error_text(e: ForthError) -> Seq<char> {
    match e {
        ForthError::ParseError { line, column, message } =>
            "Parse error at line "@ + decimal_text(line as int) + ", column "@ + decimal_text(column as int)
                + ": "@ + message@,
        ForthError::LexError { position, message } =>
            "Lexical error at position "@ + decimal_text(position as int) + ": "@ + message@,
        ForthError::UndefinedWord { word, .. } => "Undefined word: "@ + word@,
        ForthError::StackUnderflow { word, expected, found } =>
            "Stack underflow in word '"@ + word@ + "': expected "@ + decimal_text(expected as int)
                + " items, found "@ + decimal_text(found as int),
        ForthError::StackMismatch { word, message, .. } => "Stack depth mismatch in "@ + word@ + ": "@ + message@,
        ForthError::StackOverflow { max } => "Stack overflow: maximum depth "@ + decimal_text(max as int) + " exceeded"@,
        ForthError::TypeError { expected, found, .. } => "Type error: expected "@ + expected@ + ", found "@ + found@,
        ForthError::InvalidStackEffect { declaration } => "Invalid stack effect declaration: "@ + declaration@,
        ForthError::RedefinitionError { word } => "Redefinition of word: "@ + word@,
        ForthError::ControlStructureMismatch { expected, found } =>
            "Control structure mismatch: expected "@ + expected@ + ", found "@ + found@,
        ForthError::InvalidImmediateWord { word } => "Invalid immediate word usage: "@ + word@,
        ForthError::SSAConversionError { message } => "SSA conversion error: "@ + message@,
        ForthError::InternalError { message } => "Internal compiler error: "@ + message@,
    }
}

fn push_usize(s: &mut String, n: usize)
    ensures
        final(s)@ == old(s)@ + decimal_text(n as int),
{
    let t = usize_text(n);
    push_str(s, t.as_str());
}

impl ForthError {
    /// A parse error at a source position.
    pub fn parse_error(line: usize, column: usize, message: String) -> (r: Self)
        ensures
            r == (ForthError::ParseError { line, column, message }),
    {
        ForthError::ParseError { line, column, message }
    }

    /// A reference to a word that is not defined.
    pub fn undefined_word(word: String) -> (r: Self)
        ensures
            r == (ForthError::UndefinedWord { word, line: None }),
    {
        ForthError::UndefinedWord { word, line: None }
    }

    /// A type mismatch.
    pub fn type_error(expected: String, found: String) -> (r: Self)
        ensures
            r == (ForthError::TypeError { expected, found, location: None }),
    {
        ForthError::TypeError { expected, found, location: None }
    }

    /// An identical copy of this error.
    pub fn duplicate(&self) -> (r: Self)
        ensures
            r == *self,
    {
        match self {
            ForthError::ParseError { line, column, message } =>
                ForthError::ParseError { line: *line, column: *column, message: message.clone() },
            ForthError::LexError { position, message } =>
                ForthError::LexError { position: *position, message: message.clone() },
            ForthError::UndefinedWord { word, line } =>
                ForthError::UndefinedWord { word: word.clone(), line: *line },
            ForthError::StackUnderflow { word, expected, found } =>
                ForthError::StackUnderflow { word: word.clone(), expected: *expected, found: *found },
            ForthError::StackMismatch { word, then_depth, else_depth, message } =>
                ForthError::StackMismatch { word: word.clone(), then_depth: *then_depth, else_depth: *else_depth, message: message.clone() },
            ForthError::StackOverflow { max } => ForthError::StackOverflow { max: *max },
            ForthError::TypeError { expected, found, location } => {
                let location = match location {
                    Some(l) => Some(l.clone()),
                    None => None,
                };
                ForthError::TypeError { expected: expected.clone(), found: found.clone(), location }
            },
            ForthError::InvalidStackEffect { declaration } =>
                ForthError::InvalidStackEffect { declaration: declaration.clone() },
            ForthError::RedefinitionError { word } => ForthError::RedefinitionError { word: word.clone() },
            ForthError::ControlStructureMismatch { expected, found } =>
                ForthError::ControlStructureMismatch { expected: expected.clone(), found: found.clone() },
            ForthError::InvalidImmediateWord { word } => ForthError::InvalidImmediateWord { word: word.clone() },
            ForthError::SSAConversionError { message } => ForthError::SSAConversionError { message: message.clone() },
            ForthError::InternalError { message } => ForthError::InternalError { message: message.clone() },
        }
    }

    /// The text this error displays.
    pub fn message(&self) -> (r: String)
        ensures
            r@ == forth_error_text(*self),
    {
        let mut r = String::new();
        match self {
            ForthError::ParseError { line, column, message } => {
                push_str(&mut r, "Parse error at line ");
                push_usize(&mut r, *line);
                push_str(&mut r, ", column ");
                push_usize(&mut r, *column);
                push_str(&mut r, ": ");
                push_str(&mut r, message.as_str());
            }
            ForthError::LexError { position, message } => {
                push_str(&mut r, "Lexical error at position ");
                push_usize(&mut r, *position);
                push_str(&mut r, ": ");
                push_str(&mut r, message.as_str());
            }
            ForthError::UndefinedWord { word, .. } => {
                push_str(&mut r, "Undefined word: ");
                push_str(&mut r, word.as_str());
            }
            ForthError::StackUnderflow { word, expected, found } => {
                push_str(&mut r, "Stack underflow in word '");
                push_str(&mut r, word.as_str());
                push_str(&mut r, "': expected ");
                push_usize(&mut r, *expected);
                push_str(&mut r, " items, found ");
                push_usize(&mut r, *found);
            }
            ForthError::StackMismatch { word, message, .. } => {
                push_str(&mut r, "Stack depth mismatch in ");
                push_str(&mut r, word.as_str());
                push_str(&mut r, ": ");
                push_str(&mut r, message.as_str());
            }
            ForthError::StackOverflow { max } => {
                push_str(&mut r, "Stack overflow: maximum depth ");
                push_usize(&mut r, *max);
                push_str(&mut r, " exceeded");
            }
            ForthError::TypeError { expected, found, .. } => {
                push_str(&mut r, "Type error: expected ");
                push_str(&mut r, expected.as_str());
                push_str(&mut r, ", found ");
                push_str(&mut r, found.as_str());
            }
            ForthError::InvalidStackEffect { declaration } => {
                push_str(&mut r, "Invalid stack effect declaration: ");
                push_str(&mut r, declaration.as_str());
            }
            ForthError::RedefinitionError { word } => {
                push_str(&mut r, "Redefinition of word: ");
                push_str(&mut r, word.as_str());
            }
            ForthError::ControlStructureMismatch { expected, found } => {
                push_str(&mut r, "Control structure mismatch: expected ");
                push_str(&mut r, expected.as_str());
                push_str(&mut r, ", found ");
                push_str(&mut r, found.as_str());
            }
            ForthError::InvalidImmediateWord { word } => {
                push_str(&mut r, "Invalid immediate word usage: ");
                push_str(&mut r, word.as_str());
            }
            ForthError::SSAConversionError { message } => {
                push_str(&mut r, "SSA conversion error: ");
                push_str(&mut r, message.as_str());
            }
            ForthError::InternalError { message } => {
                push_str(&mut r, "Internal compiler error: ");
                push_str(&mut r, message.as_str());
            }
        }
        r
    }
}

} // verus!
