//! Optimization passes over the Forth IR.
pub mod error;
pub mod ir;
pub mod arith;
pub mod semantics;
pub mod constant_fold;
pub mod cranelift_peephole;
pub mod dead_code;
pub mod superinstructions;
pub mod stack_cache;
pub mod pipeline;
pub mod inline;
pub mod memory_opt;
pub mod type_specialization;
pub mod specializer;
pub mod codegen;
pub mod whole_program;
pub mod zero_cost;
pub mod analysis;
pub mod aggressive_inline;
pub mod pgo_superinstructions;
