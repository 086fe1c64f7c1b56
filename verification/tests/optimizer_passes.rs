use fastforth::optimizer::codegen::{CCodegen, CodegenBackend};
use fastforth::optimizer::constant_fold::ConstantFolder;
use fastforth::optimizer::cranelift_peephole::CraneliftPeephole;
use fastforth::optimizer::dead_code::DeadCodeEliminator;
use fastforth::optimizer::error::OptimizerError;
use fastforth::optimizer::inline::InlineOptimizer;
use fastforth::optimizer::ir::{ForthIR, Instruction, StackEffect, WordDef};
use fastforth::optimizer::pipeline::{OptimizationLevel, Optimizer};
use fastforth::optimizer::stack_cache::StackCacheOptimizer;
use fastforth::optimizer::superinstructions::SuperinstructionOptimizer;
use fastforth::optimizer::zero_cost::{ZeroCostConfig, ZeroCostOptimizer};

fn float_text(b: u64) -> String {
    format!("{}", f64::from_bits(b))
}

#[test]
fn test_fold_simple_arithmetic() {
    let folder = ConstantFolder::new();
    let ir = ForthIR::parse("2 3 +").unwrap();
    let folded = folder.fold(&ir).unwrap();
    assert_eq!(folded.main.len(), 1);
    assert!(matches!(folded.main[0], Instruction::Literal(5)));
}

#[test]
fn test_fold_complex_expression() {
    let folder = ConstantFolder::new();
    let ir = ForthIR::parse("2 3 + 4 *").unwrap();
    let folded = folder.fold(&ir).unwrap();
    assert_eq!(folded.main.len(), 1);
    assert!(matches!(folded.main[0], Instruction::Literal(20)));
}

#[test]
fn test_fold_dup_add() {
    let folder = ConstantFolder::new();
    let mut ir = ForthIR::new();
    ir.main = vec![Instruction::Literal(5), Instruction::DupAdd];
    let folded = folder.fold(&ir).unwrap();
    assert_eq!(folded.main.len(), 1);
    assert!(matches!(folded.main[0], Instruction::Literal(10)));
}

#[test]
fn test_fold_comparison() {
    let folder = ConstantFolder::new();
    let ir = ForthIR::parse("5 3 >").unwrap();
    let folded = folder.fold(&ir).unwrap();
    assert_eq!(folded.main.len(), 1);
    assert!(matches!(folded.main[0], Instruction::Literal(-1)));
}

#[test]
fn test_no_fold_with_unknown() {
    let folder = ConstantFolder::new();
    let mut ir = ForthIR::new();
    ir.main = vec![Instruction::Call("foo".to_string()), Instruction::Literal(5), Instruction::Add];
    let folded = folder.fold(&ir).unwrap();
    assert!(folded.main.len() >= 2);
    let has_add = folded.main.iter().any(|i| matches!(i, Instruction::Add));
    assert!(has_add);
}

#[test]
fn test_fold_bitwise() {
    let folder = ConstantFolder::new();
    let ir = ForthIR::parse("15 3 &").unwrap();
    let folded = folder.fold(&ir).unwrap();
    assert_eq!(folded.main.len(), 1);
    assert!(matches!(folded.main[0], Instruction::Literal(3)));
}

fn create_test_word(instructions: Vec<Instruction>) -> WordDef {
    WordDef::new("test".to_string(), instructions)
}

#[test]
fn test_strength_reduction_mul_power_of_2() {
    let mut peephole = CraneliftPeephole::new();
    let mut word = create_test_word(vec![Instruction::Literal(8), Instruction::Mul]);
    peephole.optimize_word(&mut word).unwrap();
    assert_eq!(word.instructions.len(), 2);
    assert_eq!(word.instructions[0], Instruction::Literal(3));
    assert_eq!(word.instructions[1], Instruction::Shl);
    assert_eq!(peephole.stats.strength_reductions, 1);
}

#[test]
fn test_strength_reduction_div_power_of_2() {
    let mut peephole = CraneliftPeephole::new();
    let mut word = create_test_word(vec![Instruction::Literal(4), Instruction::Div]);
    peephole.optimize_word(&mut word).unwrap();
    assert_eq!(word.instructions.len(), 2);
    assert_eq!(word.instructions[0], Instruction::Literal(2));
    assert_eq!(word.instructions[1], Instruction::Shr);
    assert_eq!(peephole.stats.strength_reductions, 1);
}

#[test]
fn test_constant_folding_add() {
    let mut peephole = CraneliftPeephole::new();
    let mut word = create_test_word(vec![Instruction::Literal(5), Instruction::Literal(3), Instruction::Add]);
    peephole.optimize_word(&mut word).unwrap();
    assert_eq!(word.instructions.len(), 1);
    assert_eq!(word.instructions[0], Instruction::Literal(8));
    assert_eq!(peephole.stats.constant_folds, 1);
}

#[test]
fn test_constant_folding_mul() {
    let mut peephole = CraneliftPeephole::new();
    let mut word = create_test_word(vec![Instruction::Literal(7), Instruction::Literal(6), Instruction::Mul]);
    peephole.optimize_word(&mut word).unwrap();
    assert_eq!(word.instructions.len(), 1);
    assert_eq!(word.instructions[0], Instruction::Literal(42));
}

#[test]
fn test_dead_store_elimination_dup_drop() {
    let mut peephole = CraneliftPeephole::new();
    let mut word = create_test_word(vec![Instruction::Dup, Instruction::Drop]);
    peephole.optimize_word(&mut word).unwrap();
    assert_eq!(word.instructions.len(), 0);
    assert_eq!(peephole.stats.dead_stores, 1);
}

#[test]
fn test_dead_store_elimination_literal_drop() {
    let mut peephole = CraneliftPeephole::new();
    let mut word = create_test_word(vec![Instruction::Literal(42), Instruction::Drop]);
    peephole.optimize_word(&mut word).unwrap();
    assert_eq!(word.instructions.len(), 0);
    assert_eq!(peephole.stats.dead_stores, 1);
}

#[test]
fn cranelift_peephole_test_swap_swap_elimination() {
    let mut peephole = CraneliftPeephole::new();
    let mut word = create_test_word(vec![Instruction::Swap, Instruction::Swap]);
    peephole.optimize_word(&mut word).unwrap();
    assert_eq!(word.instructions.len(), 0);
    assert_eq!(peephole.stats.dead_stores, 1);
}

#[test]
fn test_eliminate_dup_drop() {
    let eliminator = DeadCodeEliminator::new();
    let mut ir = ForthIR::new();
    ir.main = vec![Instruction::Literal(5), Instruction::Dup, Instruction::Drop];
    let optimized = eliminator.eliminate(&ir).unwrap();
    assert_eq!(optimized.main.len(), 1);
    assert!(matches!(optimized.main[0], Instruction::Literal(5)));
}

#[test]
fn test_eliminate_swap_swap() {
    let eliminator = DeadCodeEliminator::new();
    let ir = ForthIR::parse("1 2 swap swap +").unwrap();
    let optimized = eliminator.eliminate(&ir).unwrap();
    let swap_count = optimized.main.iter().filter(|i| matches!(i, Instruction::Swap)).count();
    assert_eq!(swap_count, 0);
}

#[test]
fn test_eliminate_literal_drop() {
    let eliminator = DeadCodeEliminator::new();
    let mut ir = ForthIR::new();
    ir.main = vec![Instruction::Literal(42), Instruction::Drop, Instruction::Literal(5)];
    let optimized = eliminator.eliminate(&ir).unwrap();
    assert_eq!(optimized.main.len(), 1);
    assert!(matches!(optimized.main[0], Instruction::Literal(5)));
}

#[test]
fn test_keep_side_effects() {
    let eliminator = DeadCodeEliminator::new();
    let mut ir = ForthIR::new();
    ir.main = vec![Instruction::Literal(42), Instruction::Literal(100), Instruction::Store];
    let optimized = eliminator.eliminate(&ir).unwrap();
    let has_store = optimized.main.iter().any(|i| matches!(i, Instruction::Store));
    assert!(has_store);
}

#[test]
fn test_eliminate_unused_computation() {
    let eliminator = DeadCodeEliminator::new();
    let mut ir = ForthIR::new();
    ir.main = vec![
        Instruction::Literal(1),
        Instruction::Literal(2),
        Instruction::Add,
        Instruction::Drop,
        Instruction::Literal(5),
    ];
    let optimized = eliminator.eliminate(&ir).unwrap();
    assert!(optimized.main.len() <= 2);
}

#[test]
fn test_elimination_stats() {
    let eliminator = DeadCodeEliminator::new();
    let ir = ForthIR::parse("1 2 3 dup drop swap swap").unwrap();
    let optimized = eliminator.eliminate(&ir).unwrap();
    let stats = eliminator.get_stats(&ir, &optimized);
    assert!(stats.instructions_eliminated > 0);
}

#[test]
fn test_inline_small_word() {
    let optimizer = InlineOptimizer::new(OptimizationLevel::Aggressive);
    let mut ir = ForthIR::new();
    let square = WordDef::new("square".to_string(), vec![Instruction::Dup, Instruction::Mul]);
    ir.add_word(square);
    ir.main = vec![Instruction::Literal(5), Instruction::Call("square".to_string())];
    let optimized = optimizer.inline(&ir).unwrap();
    let has_call = optimized.main.iter().any(|i| matches!(i, Instruction::Call(_)));
    assert!(!has_call);
    let has_dup = optimized.main.iter().any(|i| matches!(i, Instruction::Dup));
    let has_mul = optimized.main.iter().any(|i| matches!(i, Instruction::Mul));
    assert!(has_dup && has_mul);
}

#[test]
fn test_dont_inline_large_word() {
    let optimizer = InlineOptimizer::new(OptimizationLevel::Basic);
    let mut ir = ForthIR::new();
    let large_instructions = vec![Instruction::Dup; 20];
    let large = WordDef::new("large".to_string(), large_instructions);
    ir.add_word(large);
    ir.main = vec![Instruction::Call("large".to_string())];
    let optimized = optimizer.inline(&ir).unwrap();
    let has_call = optimized.main.iter().any(|i| matches!(i, Instruction::Call(_)));
    assert!(has_call);
}

#[test]
fn inline_test_dont_inline_recursive() {
    let optimizer = InlineOptimizer::new(OptimizationLevel::Aggressive);
    let mut ir = ForthIR::new();
    let recursive = WordDef::new(
        "factorial".to_string(),
        vec![Instruction::Dup, Instruction::Literal(1), Instruction::Gt, Instruction::Call("factorial".to_string())],
    );
    ir.add_word(recursive);
    ir.main = vec![Instruction::Literal(5), Instruction::Call("factorial".to_string())];
    let optimized = optimizer.inline(&ir).unwrap();
    let has_call = optimized.main.iter().any(|i| matches!(i, Instruction::Call(_)));
    assert!(has_call);
}

#[test]
fn test_inline_forced() {
    let optimizer = InlineOptimizer::new(OptimizationLevel::Standard);
    let mut ir = ForthIR::new();
    let mut word = WordDef::new("tiny".to_string(), vec![Instruction::Dup]);
    word.is_inline = true;
    ir.add_word(word);
    ir.main = vec![Instruction::Literal(5), Instruction::Call("tiny".to_string())];
    let optimized = optimizer.inline(&ir).unwrap();
    let has_call = optimized.main.iter().any(|i| matches!(i, Instruction::Call(_)));
    assert!(!has_call);
}

#[test]
fn inline_test_inline_stats() {
    let optimizer = InlineOptimizer::new(OptimizationLevel::Aggressive);
    let mut ir = ForthIR::new();
    let square = WordDef::new("square".to_string(), vec![Instruction::Dup, Instruction::Mul]);
    ir.add_word(square);
    ir.main = vec![
        Instruction::Literal(5),
        Instruction::Call("square".to_string()),
        Instruction::Call("square".to_string()),
    ];
    let optimized = optimizer.inline(&ir).unwrap();
    let stats = optimizer.get_stats(&ir, &optimized);
    assert_eq!(stats.calls_before, 2);
    assert_eq!(stats.calls_after, 0);
    assert_eq!(stats.calls_inlined, 2);
}

#[test]
fn test_instruction_stack_effect() {
    assert_eq!(Instruction::Dup.stack_effect(), StackEffect::new(1, 2));
    assert_eq!(Instruction::Add.stack_effect(), StackEffect::new(2, 1));
    assert_eq!(Instruction::Literal(42).stack_effect(), StackEffect::new(0, 1));
}

#[test]
fn test_parse_simple() {
    let ir = ForthIR::parse("1 2 + dup *").unwrap();
    assert_eq!(ir.main.len(), 5);
    assert!(matches!(ir.main[0], Instruction::Literal(1)));
    assert!(matches!(ir.main[1], Instruction::Literal(2)));
    assert!(matches!(ir.main[2], Instruction::Add));
}

#[test]
fn test_word_def_stack_effect() {
    let word = WordDef::new("square".to_string(), vec![Instruction::Dup, Instruction::Mul]);
    assert_eq!(word.stack_effect.consumed, 1);
    assert_eq!(word.stack_effect.produced, 1);
}

#[test]
fn test_verify_valid_sequence() {
    let ir = ForthIR::parse("1 2 + 3 *").unwrap();
    assert!(ir.verify().is_ok());
}

#[test]
fn test_verify_underflow() {
    let mut ir = ForthIR::new();
    ir.main = vec![Instruction::Add];
    assert!(matches!(ir.verify(), Err(OptimizerError::StackUnderflow(_))));
}

#[test]
fn test_optimizer_creation() {
    let opt = Optimizer::new(OptimizationLevel::Aggressive);
    assert_eq!(opt.level, OptimizationLevel::Aggressive);
}

#[test]
fn test_memory_optimizer_integration() {
    let opt = Optimizer::new(OptimizationLevel::Standard);
    let mem_opt = opt.memory_optimizer();
    let addr = format!("{:p}", mem_opt);
    assert!(addr != "0x0");
}

#[test]
fn test_c_codegen_simple() {
    let mut codegen = CCodegen::new();
    let ir = ForthIR::parse("1 2 +").unwrap();
    let code = codegen.generate(&ir, &float_text).unwrap();
    assert!(code.contains("PUSH(1)"));
    assert!(code.contains("PUSH(2)"));
    assert!(code.contains("+="));
}

#[test]
fn test_c_codegen_word() {
    let mut codegen = CCodegen::new();
    let word = WordDef::new("square".to_string(), vec![Instruction::Dup, Instruction::Mul]);
    let code = codegen.generate_word(&word, &float_text).unwrap();
    assert!(code.contains("void square"));
    assert!(code.contains("TOS"));
}

#[test]
fn test_optimize_literals() {
    let optimizer = StackCacheOptimizer::new(3);
    let ir = ForthIR::parse("1 2 3").unwrap();
    let optimized = optimizer.optimize(&ir).unwrap();
    assert!(optimized.main.len() >= 3);
}

#[test]
fn test_optimize_dup_add() {
    let optimizer = StackCacheOptimizer::new(3);
    let ir = ForthIR::parse("5 dup +").unwrap();
    let optimized = optimizer.optimize(&ir).unwrap();
    let has_cached_dup = optimized.main.iter().any(|i| matches!(i, Instruction::CachedDup { .. }));
    assert!(has_cached_dup);
}

#[test]
fn test_flush_on_call() {
    let optimizer = StackCacheOptimizer::new(3);
    let ir = ForthIR::parse("1 2 foo").unwrap();
    let optimized = optimizer.optimize(&ir).unwrap();
    let has_flush = optimized.main.iter().any(|i| matches!(i, Instruction::FlushCache));
    assert!(has_flush);
}

#[test]
fn test_dup_add_pattern() {
    let optimizer = SuperinstructionOptimizer::new();
    let ir = ForthIR::parse("5 dup +").unwrap();
    let optimized = optimizer.recognize(&ir).unwrap();
    assert!(optimized.main.iter().any(|i| matches!(i, Instruction::DupAdd)));
}

#[test]
fn test_dup_mul_pattern() {
    let optimizer = SuperinstructionOptimizer::new();
    let ir = ForthIR::parse("7 dup *").unwrap();
    let optimized = optimizer.recognize(&ir).unwrap();
    assert!(optimized.main.iter().any(|i| matches!(i, Instruction::DupMul)));
}

#[test]
fn test_inc_one_pattern() {
    let optimizer = SuperinstructionOptimizer::new();
    let ir = ForthIR::parse("5 1 +").unwrap();
    let optimized = optimizer.recognize(&ir).unwrap();
    assert!(optimized.main.iter().any(|i| matches!(i, Instruction::IncOne)));
}

#[test]
fn superinstructions_test_swap_swap_elimination() {
    let optimizer = SuperinstructionOptimizer::new();
    let ir = ForthIR::parse("1 2 swap swap +").unwrap();
    let optimized = optimizer.recognize(&ir).unwrap();
    assert!(optimized.main.iter().any(|i| matches!(i, Instruction::Nop)));
}

#[test]
fn test_zero_eq_pattern() {
    let optimizer = SuperinstructionOptimizer::new();
    let mut ir = ForthIR::new();
    ir.main = vec![Instruction::Literal(5), Instruction::Literal(0), Instruction::Eq];
    let optimized = optimizer.recognize(&ir).unwrap();
    assert!(optimized.main.iter().any(|i| matches!(i, Instruction::ZeroEq)));
}

#[test]
fn test_optimization_stats() {
    let optimizer = SuperinstructionOptimizer::new();
    let before = ForthIR::parse("1 2 3 dup + dup * swap swap").unwrap();
    let after = optimizer.recognize(&before).unwrap();
    let stats = optimizer.get_stats(&before, &after);
    assert!(stats.instructions_eliminated > 0);
    let reduction_percent = if stats.before_instructions > 0 {
        stats.instructions_eliminated as f64 / stats.before_instructions as f64 * 100.0
    } else {
        0.0
    };
    assert!(reduction_percent > 0.0);
}

#[test]
fn test_multiple_patterns() {
    let optimizer = SuperinstructionOptimizer::new();
    let ir = ForthIR::parse("5 dup + 1 + dup *").unwrap();
    let optimized = optimizer.recognize(&ir).unwrap();
    let superinst_count = optimized
        .main
        .iter()
        .filter(|i| matches!(i, Instruction::DupAdd | Instruction::IncOne | Instruction::DupMul))
        .count();
    assert!(superinst_count >= 2);
}

#[test]
fn test_unconditional_inline_tiny_words() {
    let optimizer = ZeroCostOptimizer::default();
    let mut ir = ForthIR::new();
    let three = WordDef::new("three".to_string(), vec![Instruction::Literal(3)]);
    ir.add_word(three);
    ir.main = vec![Instruction::Call("three".to_string()), Instruction::Call("three".to_string()), Instruction::Add];
    let optimized = optimizer.optimize(&ir).unwrap();
    let has_call = optimized.main.iter().any(|i| matches!(i, Instruction::Call(_)));
    assert!(!has_call, "Tiny word should be inlined");
    assert!(optimized.main.len() <= 2, "Should inline and optimize the code");
}

#[test]
fn test_constant_folding_full() {
    let optimizer = ZeroCostOptimizer::default();
    let mut ir = ForthIR::new();
    ir.main = vec![
        Instruction::Literal(5),
        Instruction::Dup,
        Instruction::Add,
        Instruction::Literal(2),
        Instruction::Div,
    ];
    let optimized = optimizer.optimize(&ir).unwrap();
    assert_eq!(optimized.main.len(), 1, "Expression should fold to single constant");
    assert!(matches!(optimized.main[0], Instruction::Literal(5)), "Result should be 5");
}

#[test]
fn zero_cost_test_algebraic_simplification_add_zero() {
    let optimizer = ZeroCostOptimizer::default();
    let mut ir = ForthIR::new();
    ir.main = vec![Instruction::Literal(5), Instruction::Literal(0), Instruction::Add];
    let optimized = optimizer.algebraic_simplify(&ir.main).unwrap();
    assert_eq!(optimized.len(), 1);
    assert!(matches!(optimized[0], Instruction::Literal(5)));
}

#[test]
fn test_algebraic_simplification_mul_zero() {
    let optimizer = ZeroCostOptimizer::default();
    let mut ir = ForthIR::new();
    ir.main = vec![Instruction::Literal(5), Instruction::Literal(0), Instruction::Mul];
    let optimized = optimizer.algebraic_simplify(&ir.main).unwrap();
    assert!(optimized.len() >= 1);
    assert!(optimized.iter().any(|i| matches!(i, Instruction::Literal(0))));
}

#[test]
fn test_algebraic_simplification_mul_one() {
    let optimizer = ZeroCostOptimizer::default();
    let mut ir = ForthIR::new();
    ir.main = vec![Instruction::Literal(5), Instruction::Literal(1), Instruction::Mul];
    let optimized = optimizer.algebraic_simplify(&ir.main).unwrap();
    assert_eq!(optimized.len(), 1);
    assert!(matches!(optimized[0], Instruction::Literal(5)));
}

#[test]
fn test_conditional_elimination_true() {
    let optimizer = ZeroCostOptimizer::default();
    let mut ir = ForthIR::new();
    ir.main = vec![Instruction::Literal(-1), Instruction::BranchIf(10)];
    let optimized = optimizer.eliminate_conditional_sequence(&ir.main).unwrap();
    assert_eq!(optimized.len(), 1);
    assert!(matches!(optimized[0], Instruction::Branch(10)));
}

#[test]
fn test_conditional_elimination_false() {
    let optimizer = ZeroCostOptimizer::default();
    let mut ir = ForthIR::new();
    ir.main = vec![Instruction::Literal(0), Instruction::BranchIf(10)];
    let optimized = optimizer.eliminate_conditional_sequence(&ir.main).unwrap();
    assert_eq!(optimized.len(), 0);
}

#[test]
fn test_macro_expansion_stack_depth() {
    let optimizer = ZeroCostOptimizer::default();
    let mut ir = ForthIR::new();
    ir.main = vec![Instruction::Literal(1), Instruction::Literal(2), Instruction::Dup, Instruction::Swap];
    let optimized = optimizer.expand_stack_ops(&ir.main).unwrap();
    let has_cached = optimized
        .iter()
        .any(|i| matches!(i, Instruction::CachedDup { .. } | Instruction::CachedSwap { .. }));
    assert!(has_cached, "Stack ops should be annotated with depth");
}

#[test]
fn test_loop_unrolling_simple() {
    let mut config = ZeroCostConfig::default();
    config.max_loop_unroll = 5;
    let optimizer = ZeroCostOptimizer::new(config);
    let mut ir = ForthIR::new();
    ir.main = vec![Instruction::Literal(3), Instruction::Literal(0), Instruction::Dup, Instruction::BranchIfNot(2)];
    let optimized = optimizer.unroll_loops(&ir).unwrap();
    assert!(optimized.main.len() > 0, "Should produce valid output");
}

#[test]
fn test_zero_cost_stats() {
    let optimizer = ZeroCostOptimizer::default();
    let mut before = ForthIR::new();
    before.main = vec![Instruction::Literal(2), Instruction::Literal(3), Instruction::Add];
    let mut after = ForthIR::new();
    after.main = vec![Instruction::Literal(5)];
    let stats = optimizer.get_stats(&before, &after);
    assert_eq!(stats.instructions_before, 3);
    assert_eq!(stats.instructions_after, 1);
    assert_eq!(stats.instructions_eliminated, 2);
    assert!(stats.constants_folded >= 1, "Should have folded at least one constant");
}

#[test]
fn zero_cost_test_full_optimization_pipeline() {
    let optimizer = ZeroCostOptimizer::default();
    let mut ir = ForthIR::new();
    let sum5 = WordDef::new(
        "sum5".to_string(),
        vec![Instruction::Literal(1), Instruction::Literal(2), Instruction::Add],
    );
    ir.add_word(sum5);
    ir.main = vec![Instruction::Call("sum5".to_string()), Instruction::Call("sum5".to_string()), Instruction::Add];
    let optimized = optimizer.optimize(&ir).unwrap();
    let stats = optimizer.get_stats(&ir, &optimized);
    println!("{:?}", stats);
    assert!(optimized.main.len() <= 3, "Should optimize significantly");
    let call_count = optimized.main.iter().filter(|i| matches!(i, Instruction::Call(_))).count();
    assert!(call_count == 0, "Calls should be inlined");
}

#[test]
fn test_nested_inline_and_fold() {
    let optimizer = ZeroCostOptimizer::default();
    let mut ir = ForthIR::new();
    let two = WordDef::new("two".to_string(), vec![Instruction::Literal(2)]);
    ir.add_word(two);
    let four = WordDef::new(
        "four".to_string(),
        vec![Instruction::Call("two".to_string()), Instruction::Call("two".to_string()), Instruction::Add],
    );
    ir.add_word(four);
    ir.main = vec![Instruction::Call("four".to_string())];
    let optimized = optimizer.optimize(&ir).unwrap();
    assert!(optimized.main.len() <= 2, "Should be highly optimized");
    let call_count = optimized.main.iter().filter(|i| matches!(i, Instruction::Call(_))).count();
    assert!(call_count == 0, "All calls should be inlined");
}

#[test]
fn over_drop_drop_becomes_drop() {
    let dce = DeadCodeEliminator::new();
    let out = dce.remove_trivial_ops(&[
        Instruction::Literal(1),
        Instruction::Literal(2),
        Instruction::Over,
        Instruction::Drop,
        Instruction::Drop,
    ]);
    assert_eq!(out, vec![Instruction::Literal(1), Instruction::Literal(2), Instruction::Drop]);
}
