use fastforth::optimizer::analysis::{ReachingDefinitions, StackDepthAnalysis, CFG};
use fastforth::optimizer::ir::{ForthIR, Instruction, StackEffect, WordDef};
use fastforth::optimizer::memory_opt::{AccessPattern, MemoryAccessType, MemoryOptimizer};
use fastforth::optimizer::pipeline::{OptimizationLevel, Optimizer};
use fastforth::optimizer::specializer::{TypeSpecializer, UsageProfile};
use fastforth::optimizer::type_specialization::{ConcreteType, TypeInferenceResults, TypeSignature};

#[test]
fn test_stack_depth_analysis() {
    let instructions = vec![Instruction::Literal(1), Instruction::Literal(2), Instruction::Add];
    let analysis = StackDepthAnalysis::analyze(&instructions);
    assert_eq!(analysis.get_depth(0), Some(0));
    assert_eq!(analysis.get_depth(1), Some(1));
    assert_eq!(analysis.get_depth(2), Some(2));
    assert_eq!(analysis.max_depth, 2);
}

#[test]
fn test_reaching_definitions() {
    let instructions = vec![Instruction::Literal(1), Instruction::Literal(2), Instruction::Add];
    let analysis = ReachingDefinitions::analyze(&instructions);
    let reaching = analysis.get_reaching(2).unwrap();
    assert!(reaching.contains(&0));
    assert!(reaching.contains(&1));
}

#[test]
fn test_alias_analysis_classification() {
    let opt = MemoryOptimizer::new();
    let instructions = vec![Instruction::Dup, Instruction::Load];
    let mem_ops = opt.build_memory_ops(&instructions).unwrap();
    assert_eq!(mem_ops.len(), 1);
    assert_eq!(mem_ops[0].access_type, MemoryAccessType::Stack);
}

#[test]
fn test_loop_detection_advanced() {
    let opt = MemoryOptimizer::new();
    let instructions = vec![Instruction::Literal(0), Instruction::Load, Instruction::Add, Instruction::Branch(0)];
    let loops = opt.detect_loops_advanced(&instructions);
    assert_eq!(loops.len(), 1);
    assert_eq!(loops[0].start, 0);
    assert_eq!(loops[0].end, 3);
}

#[test]
fn test_sequential_pattern_detection_advanced() {
    let opt = MemoryOptimizer::new();
    let instructions = vec![Instruction::Load, Instruction::Add, Instruction::Store];
    let pattern = opt.analyze_loop_pattern_advanced(&instructions, 0, 2);
    assert!(matches!(pattern, AccessPattern::Sequential { .. }));
}

#[test]
fn test_prefetch_insertion_advanced() {
    let opt = MemoryOptimizer::new();
    let instructions = vec![Instruction::Literal(0), Instruction::Load, Instruction::Branch(0)];
    let prefetched = opt.insert_prefetches_advanced(&instructions).unwrap();
    let has_prefetch = prefetched.iter().any(|i| {
        if let Instruction::Comment(s) = i {
            s.contains("PREFETCH")
        } else {
            false
        }
    });
    assert!(has_prefetch);
}

#[test]
fn test_cache_optimization_usage() {
    let opt = MemoryOptimizer::new();
    let instructions = vec![Instruction::Call("data_array".to_string()), Instruction::Load];
    let optimized = opt.optimize_cache_usage(&instructions).unwrap();
    assert!(optimized.len() >= instructions.len());
}

#[test]
fn test_stack_discipline_enforcement() {
    let opt = MemoryOptimizer::new();
    let instructions = vec![Instruction::Dup, Instruction::Load, Instruction::Drop];
    let optimized = opt.enforce_stack_discipline(&instructions).unwrap();
    assert!(!optimized.is_empty());
}

#[test]
fn memory_opt_test_full_optimization_pipeline() {
    let opt = MemoryOptimizer::new();
    let mut ir = ForthIR::new();
    ir.main = vec![
        Instruction::Literal(10),
        Instruction::Literal(0),
        Instruction::Dup,
        Instruction::Load,
        Instruction::Literal(1),
        Instruction::Add,
        Instruction::BranchIfNot(2),
    ];
    let optimized = opt.optimize(&ir).unwrap();
    assert!(optimized.main.len() >= ir.main.len());
}

#[test]
fn test_return_stack_classification() {
    let opt = MemoryOptimizer::new();
    let instructions = vec![Instruction::ToR, Instruction::FromR];
    let mem_ops = opt.build_memory_ops(&instructions).unwrap();
    assert_eq!(mem_ops.len(), 2);
    assert_eq!(mem_ops[0].access_type, MemoryAccessType::ReturnStack);
    assert_eq!(mem_ops[1].access_type, MemoryAccessType::ReturnStack);
}

#[test]
fn test_advanced_loop_detection() {
    let opt = MemoryOptimizer::new();
    let instructions = vec![Instruction::Literal(0), Instruction::Load, Instruction::Add, Instruction::Branch(0)];
    let loops = opt.detect_loops_advanced(&instructions);
    assert_eq!(loops.len(), 1);
    assert_eq!(loops[0].hotness, 1);
}

#[test]
fn test_cache_line_optimization() {
    let opt = MemoryOptimizer::new();
    let instructions = vec![
        Instruction::Call("data_array".to_string()),
        Instruction::Load,
        Instruction::Call("data_array".to_string()),
        Instruction::Load,
        Instruction::Call("data_array".to_string()),
        Instruction::Load,
    ];
    let optimized = opt.optimize_cache_usage(&instructions).unwrap();
    assert!(optimized.len() > instructions.len());
}

#[test]
fn test_formal_alias_analysis() {
    let opt = MemoryOptimizer::new();
    let instructions = vec![Instruction::Dup, Instruction::Load, Instruction::Dup, Instruction::Load];
    let mem_ops = opt.build_memory_ops(&instructions).unwrap();
    for op in &mem_ops {
        assert_eq!(op.access_type, MemoryAccessType::Stack);
    }
}

#[test]
fn memory_ops_record_dependencies() {
    let opt = MemoryOptimizer::new();
    // A store through a `dup`ed address, then a load through another `dup`:
    // the two address sets share the first `dup`, so the load depends on the store.
    let instructions = vec![Instruction::Dup, Instruction::Store, Instruction::Load];
    let mem_ops = opt.build_memory_ops(&instructions).unwrap();
    assert_eq!(mem_ops.len(), 2);
    assert_eq!(mem_ops[1].index, 2);
    assert_eq!(mem_ops[1].true_deps, vec![1]);
    assert!(mem_ops[1].anti_deps.is_empty());
    assert!(mem_ops[1].has_critical_deps());
    assert!(!mem_ops[0].has_critical_deps());
}

#[test]
fn test_usage_profile() {
    let mut profile = UsageProfile::new("test".to_string());
    profile.add_signature(TypeSignature::new(vec![ConcreteType::Int], vec![ConcreteType::Int]));
    assert_eq!(profile.call_count, 1);
    assert!(!profile.is_polymorphic);
    profile.add_signature(TypeSignature::new(vec![ConcreteType::Float], vec![ConcreteType::Float]));
    assert_eq!(profile.call_count, 2);
    assert!(profile.is_polymorphic);
    assert!(profile.should_specialize());
}

#[test]
fn test_specializer_creation() {
    let specializer = TypeSpecializer::new();
    assert_eq!(specializer.stats.words_analyzed, 0);
}

#[test]
fn test_basic_type_specialization() {
    let mut ir = ForthIR::new();
    let square = WordDef::new("square".to_string(), vec![Instruction::Dup, Instruction::Mul]);
    ir.add_word(square);
    let mut type_info = TypeInferenceResults::new();
    type_info.add_word_signature(
        "square".to_string(),
        TypeSignature::new(vec![ConcreteType::Int], vec![ConcreteType::Int]),
    );
    type_info.add_word_signature(
        "square".to_string(),
        TypeSignature::new(vec![ConcreteType::Float], vec![ConcreteType::Float]),
    );
    type_info.add_call_site(0, TypeSignature::new(vec![ConcreteType::Int], vec![ConcreteType::Int]));
    type_info.add_call_site(1, TypeSignature::new(vec![ConcreteType::Float], vec![ConcreteType::Float]));
    let mut specializer = TypeSpecializer::new();
    let stats = specializer.specialize(&mut ir, &type_info).unwrap();
    assert!(stats.specializations_created > 0, "Should create specializations");
    assert!(stats.words_analyzed > 0, "Should analyze words");
    println!("{:?}", stats);
}

#[test]
fn test_polymorphic_detection() {
    let mut ir = ForthIR::new();
    let dup_word = WordDef::new("dup".to_string(), vec![Instruction::Dup]);
    ir.add_word(dup_word);
    let mut type_info = TypeInferenceResults::new();
    type_info.add_word_signature(
        "dup".to_string(),
        TypeSignature::new(vec![ConcreteType::Int], vec![ConcreteType::Int, ConcreteType::Int]),
    );
    type_info.add_word_signature(
        "dup".to_string(),
        TypeSignature::new(vec![ConcreteType::Float], vec![ConcreteType::Float, ConcreteType::Float]),
    );
    let mut specializer = TypeSpecializer::new();
    let stats = specializer.specialize(&mut ir, &type_info).unwrap();
    assert!(stats.polymorphic_words > 0, "Should detect polymorphic words");
}

#[test]
fn test_optimizer_integration() {
    let mut ir = ForthIR::new();
    let add_square = WordDef::new(
        "add_square".to_string(),
        vec![Instruction::Add, Instruction::Dup, Instruction::Mul],
    );
    ir.add_word(add_square);
    let mut type_info = TypeInferenceResults::new();
    type_info.add_word_signature(
        "add_square".to_string(),
        TypeSignature::new(vec![ConcreteType::Int, ConcreteType::Int], vec![ConcreteType::Int]),
    );
    let mut optimizer = Optimizer::new(OptimizationLevel::Aggressive);
    let _optimized = optimizer.optimize_with_types(ir, &type_info).unwrap();
    let stats = optimizer.specialization_stats();
    println!("Optimization stats: {:?}", stats);
    assert!(stats.words_analyzed > 0, "Should have analyzed words");
}

#[test]
fn test_multiple_specializations_per_word() {
    let mut ir = ForthIR::new();
    let math_op = WordDef::new("math".to_string(), vec![Instruction::Dup, Instruction::Add]);
    ir.add_word(math_op);
    let mut type_info = TypeInferenceResults::new();
    for concrete_type in &[ConcreteType::Int, ConcreteType::Float, ConcreteType::Addr] {
        type_info.add_word_signature(
            "math".to_string(),
            TypeSignature::new(vec![concrete_type.clone()], vec![concrete_type.clone()]),
        );
    }
    let mut specializer = TypeSpecializer::new();
    let stats = specializer.specialize(&mut ir, &type_info).unwrap();
    assert!(
        stats.specializations_created >= 2,
        "Should create multiple specializations, got {}",
        stats.specializations_created
    );
}

#[test]
fn test_empty_ir_specialization() {
    let mut ir = ForthIR::new();
    let type_info = TypeInferenceResults::new();
    let mut specializer = TypeSpecializer::new();
    let stats = specializer.specialize(&mut ir, &type_info).unwrap();
    assert_eq!(stats.specializations_created, 0);
    assert_eq!(stats.words_analyzed, 0);
}

#[test]
fn test_call_site_rewriting() {
    let mut ir = ForthIR::new();
    ir.main = vec![
        Instruction::Literal(5),
        Instruction::Call("square".to_string()),
        Instruction::Literal(3),
        Instruction::Call("square".to_string()),
    ];
    let square = WordDef::new("square".to_string(), vec![Instruction::Dup, Instruction::Mul]);
    ir.add_word(square);
    let mut type_info = TypeInferenceResults::new();
    type_info.add_call_site(1, TypeSignature::new(vec![ConcreteType::Int], vec![ConcreteType::Int]));
    type_info.add_call_site(3, TypeSignature::new(vec![ConcreteType::Int], vec![ConcreteType::Int]));
    let mut specializer = TypeSpecializer::new();
    let stats = specializer.specialize(&mut ir, &type_info).unwrap();
    assert!(stats.call_sites_rewritten > 0, "Should rewrite call sites");
}

fn aggressive_run(main: Vec<Instruction>) -> ForthIR {
    let mut optimizer = Optimizer::new(OptimizationLevel::Aggressive);
    let mut ir = ForthIR::new();
    for i in main {
        ir.main.push(i);
    }
    optimizer.optimize(ir).unwrap()
}

#[test]
fn test_peephole_dup_mul_to_square() {
    let optimized = aggressive_run(vec![Instruction::Literal(5), Instruction::Dup, Instruction::Mul]);
    let has_dupmul = optimized.main.iter().any(|i| matches!(i, Instruction::DupMul));
    let has_25 = optimized.main.iter().any(|i| matches!(i, Instruction::Literal(25)));
    assert!(has_dupmul || has_25, "Should recognize dup mul pattern or fold");
}

#[test]
fn test_peephole_literal_zero_mul() {
    let optimized = aggressive_run(vec![Instruction::Literal(5), Instruction::Literal(0), Instruction::Mul]);
    assert!(optimized.main.len() <= 2, "Should optimize multiplication by zero");
    assert!(optimized.main.iter().any(|i| matches!(i, Instruction::Literal(0))));
}

#[test]
fn test_peephole_literal_one_mul() {
    let optimized = aggressive_run(vec![Instruction::Literal(5), Instruction::Literal(1), Instruction::Mul]);
    assert!(optimized.main.len() <= 2, "Should optimize multiplication by one");
}

#[test]
fn test_peephole_literal_add_fusion() {
    let optimized = aggressive_run(vec![Instruction::Literal(10), Instruction::Literal(42), Instruction::Add]);
    let has_literal_add = optimized.main.iter().any(|i| matches!(i, Instruction::LiteralAdd(_)));
    let has_52 = optimized.main.iter().any(|i| matches!(i, Instruction::Literal(52)));
    assert!(has_literal_add || has_52, "Should optimize addition");
}

#[test]
fn test_strength_reduction_mul_two() {
    let optimized = aggressive_run(vec![Instruction::Literal(5), Instruction::Literal(2), Instruction::Mul]);
    let has_10 = optimized.main.iter().any(|i| matches!(i, Instruction::Literal(10)));
    let has_optimization = optimized.main.iter().any(|i| matches!(i, Instruction::MulTwo | Instruction::Shl));
    assert!(has_10 || has_optimization || optimized.main.len() < 3, "Should optimize multiplication by 2");
}

#[test]
fn test_strength_reduction_div_two() {
    let optimized = aggressive_run(vec![Instruction::Literal(10), Instruction::Literal(2), Instruction::Div]);
    let has_5 = optimized.main.iter().any(|i| matches!(i, Instruction::Literal(5)));
    let has_optimization = optimized.main.iter().any(|i| matches!(i, Instruction::DivTwo | Instruction::Shr));
    assert!(has_5 || has_optimization || optimized.main.len() < 3, "Should optimize division by 2");
}

#[test]
fn optimization_coverage_tests_test_algebraic_simplification_add_zero() {
    let optimized = aggressive_run(vec![Instruction::Literal(5), Instruction::Literal(0), Instruction::Add]);
    let has_5 = optimized.main.iter().any(|i| matches!(i, Instruction::Literal(5)));
    assert!(has_5 || optimized.main.len() == 1, "Should optimize addition by zero");
}

#[test]
fn test_dead_code_elimination_unused_literal() {
    let optimized = aggressive_run(vec![Instruction::Literal(42), Instruction::Drop]);
    assert!(!optimized.main.iter().any(|i| matches!(i, Instruction::Literal(42))));
    assert!(!optimized.main.iter().any(|i| matches!(i, Instruction::Drop)));
}

#[test]
fn test_common_subexpression_elimination() {
    let optimized = aggressive_run(vec![
        Instruction::Literal(5),
        Instruction::Dup,
        Instruction::Mul,
        Instruction::Literal(3),
        Instruction::Dup,
        Instruction::Mul,
        Instruction::Add,
    ]);
    assert!(
        optimized.main.len() <= 3 || optimized.main.iter().any(|i| matches!(i, Instruction::Literal(34))),
        "Should optimize redundant patterns"
    );
}

#[test]
fn fixpoint_stops_when_nothing_changes() {
    let mut optimizer = Optimizer::new(OptimizationLevel::Basic);
    let ir = ForthIR::parse("2 3 +").unwrap();
    let out = optimizer.optimize_until_fixpoint(ir).unwrap();
    assert_eq!(out.main, vec![Instruction::Literal(5)]);
    let mut unoptimized = Optimizer::new(OptimizationLevel::Unoptimized);
    let ir = ForthIR::parse("1 2 swap").unwrap();
    let out = unoptimized.optimize_until_fixpoint(ir).unwrap();
    assert_eq!(out.main, vec![Instruction::Literal(1), Instruction::Literal(2), Instruction::Swap]);
}

#[test]
fn optimizer_keeps_word_names() {
    let mut optimizer = Optimizer::new(OptimizationLevel::Standard);
    let mut ir = ForthIR::new();
    ir.add_word(WordDef::new("sq".to_string(), vec![Instruction::Dup, Instruction::Mul]));
    ir.add_word(WordDef::new("inc".to_string(), vec![Instruction::Literal(1), Instruction::Add]));
    ir.main = vec![Instruction::Literal(3), Instruction::Call("sq".to_string())];
    let out = optimizer.optimize(ir).unwrap();
    assert_eq!(out.words.len(), 2);
    assert_eq!(out.words[0].name, "sq");
    assert_eq!(out.words[1].name, "inc");
    assert!(out.verify().is_ok());
    // `1 +` becomes `IncOne`; it changes the stack, so dead code elimination keeps it.
    assert_eq!(out.words[1].instructions, vec![Instruction::IncOne]);
    assert_eq!(out.words[1].stack_effect, StackEffect::new(1, 1));
}

#[test]
fn verify_checks_words_from_their_inputs() {
    let mut ir = ForthIR::new();
    ir.add_word(WordDef::new("sq".to_string(), vec![Instruction::Dup, Instruction::Mul]));
    assert!(ir.verify().is_ok());
    let mut bad = WordDef::new("bad".to_string(), vec![Instruction::Add]);
    bad.stack_effect = StackEffect::new(0, 0);
    ir.add_word(bad);
    assert!(matches!(
        ir.verify(),
        Err(fastforth::optimizer::error::OptimizerError::InvalidStackEffect(ref m))
            if m == "In word 'bad': Stack underflow at instruction 0"
    ));
}

#[test]
fn word_signatures_keep_each_distinct_signature_once() {
    let mut info = TypeInferenceResults::new();
    let int_sig = TypeSignature::new(vec![ConcreteType::Int], vec![ConcreteType::Int]);
    let float_sig = TypeSignature::new(vec![ConcreteType::Float], vec![ConcreteType::Float]);
    info.add_word_signature("sq".to_string(), int_sig.clone());
    info.add_word_signature("sq".to_string(), int_sig);
    assert_eq!(info.word_signatures.len(), 1);
    info.add_word_signature("sq".to_string(), float_sig);
    assert_eq!(info.word_signatures.len(), 2);
    assert_eq!(info.word_signatures[1].1.inputs, vec![ConcreteType::Float]);
}

#[test]
fn test_cfg_construction() {
    let instructions = vec![Instruction::Literal(1), Instruction::BranchIf(5), Instruction::Literal(2)];
    let cfg = CFG::build(&instructions);
    assert!(cfg.blocks.len() > 0);
}

#[test]
fn cfg_blocks_end_at_branches_and_labels() {
    let instructions = vec![
        Instruction::Literal(1),
        Instruction::BranchIf(5),
        Instruction::Label("l".to_string()),
        Instruction::Literal(2),
        Instruction::Add,
    ];
    let cfg = CFG::build(&instructions);
    assert_eq!(cfg.blocks.len(), 3);
    assert_eq!(cfg.blocks[0].instructions, vec![Instruction::Literal(1), Instruction::BranchIf(5)]);
    assert_eq!(cfg.blocks[1].instructions, vec![Instruction::Label("l".to_string())]);
    assert_eq!(cfg.blocks[1].start_index, 2);
    assert_eq!(cfg.blocks[2].instructions, vec![Instruction::Literal(2), Instruction::Add]);
    assert_eq!(cfg.blocks[2].start_index, 3);
    assert_eq!(cfg.entry, 0);
    assert!(cfg.get_block(3).is_none());
    let empty = CFG::build(&[]);
    assert_eq!(empty.blocks.len(), 1);
    assert!(empty.blocks[0].instructions.is_empty());
}
