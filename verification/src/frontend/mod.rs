//! The front end: lexing, parsing, stack-effect and type inference, SSA.
pub mod error;
pub mod ast;
pub mod lexer;
pub mod parser;
pub mod ssa;
pub mod stack_effects;
pub mod semantic;
pub mod ssa_validator;
pub mod type_inference;
