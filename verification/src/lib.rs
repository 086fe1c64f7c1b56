//! A Forth compiler: front end (lexing, stack-effect and type inference, SSA)
//! and an optimizer over a stack-based IR.
pub mod text;
pub mod optimizer;
pub mod frontend;
