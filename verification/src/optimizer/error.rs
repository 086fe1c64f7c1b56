//! Errors reported by the optimizer.
use vstd::prelude::*;
use crate::text::{push_str, usize_text, decimal_text};

verus! {

/// An error of an optimization pass or of stack-effect verification.
#[derive(Debug)]
pub enum OptimizerError {
    StackUnderflow(usize),
    StackOverflow(usize),
    InvalidStackEffect(String),
    OptimizationFailed(String),
    ParseError(String),
}

/// The message an error displays.
pub open spec fn error_text(e: OptimizerError) -> Seq<char> {
    match e {
        OptimizerError::StackUnderflow(i) => "Stack underflow at instruction "@ + decimal_text(i as int),
        OptimizerError::StackOverflow(i) => "Stack overflow at instruction "@ + decimal_text(i as int),
        OptimizerError::InvalidStackEffect(s) => "Invalid stack effect: "@ + s@,
        OptimizerError::OptimizationFailed(s) => "Optimization failed: "@ + s@,
        OptimizerError::ParseError(s) => "Parse error: "@ + s@,
    }
}

/// The message an error displays.
pub fn optimizer_error_message(e: &OptimizerError) -> (r: String)
    ensures
        r@ == error_text(*e),
{
    let mut r = String::new();
    match e {
        OptimizerError::StackUnderflow(i) => {
            push_str(&mut r, "Stack underflow at instruction ");
            let t = usize_text(*i);
            push_str(&mut r, t.as_str());
        }
        OptimizerError::StackOverflow(i) => {
            push_str(&mut r, "Stack overflow at instruction ");
            let t = usize_text(*i);
            push_str(&mut r, t.as_str());
        }
        OptimizerError::InvalidStackEffect(s) => {
            push_str(&mut r, "Invalid stack effect: ");
            push_str(&mut r, s.as_str());
        }
        OptimizerError::OptimizationFailed(s) => {
            push_str(&mut r, "Optimization failed: ");
            push_str(&mut r, s.as_str());
        }
        OptimizerError::ParseError(s) => {
            push_str(&mut r, "Parse error: ");
            push_str(&mut r, s.as_str());
        }
    }
    r
}

} // verus!
