use fastforth::text::{i64_text, usize_text};
use fastforth::optimizer::codegen::{is_sanitizable, sanitize_name, try_sanitize_name};
use fastforth::optimizer::cranelift_peephole::is_power_of_2;
use fastforth::optimizer::ir::StackEffect;
use fastforth::optimizer::memory_opt::{MemoryOptimizer, PointsToSet};
use fastforth::optimizer::pipeline::OptimizationLevel;
use fastforth::optimizer::stack_cache::{CacheState, StackCacheOptimizer};
use fastforth::optimizer::type_specialization::{ConcreteType, TypeInferenceResults, TypeSignature};

#[test]
fn test_sanitize_name() {
    assert_eq!(sanitize_name("foo+bar"), "foo_bar");
    assert_eq!(sanitize_name("2dup"), "_dup");
    assert_eq!(sanitize_name("valid_name"), "valid_name");
}

#[test]
fn test_is_power_of_2() {
    assert!(is_power_of_2(1));
    assert!(is_power_of_2(2));
    assert!(is_power_of_2(4));
    assert!(is_power_of_2(8));
    assert!(is_power_of_2(1024));

    assert!(!is_power_of_2(0));
    assert!(!is_power_of_2(3));
    assert!(!is_power_of_2(6));
    assert!(!is_power_of_2(100));
    assert!(!is_power_of_2(-2));
}

#[test]
fn ir_test_stack_effect_composition() {
    let dup = StackEffect::new(1, 2);
    let add = StackEffect::new(2, 1);
    let composed = dup.compose(&add);

    assert_eq!(composed.consumed, 1);
    assert_eq!(composed.produced, 1);
}

#[test]
fn optimization_coverage_tests_test_stack_effect_composition() {
    let effect1 = StackEffect::new(2, 1);
    let effect2 = StackEffect::new(1, 2);

    let composed = effect1.compose(&effect2);

    assert_eq!(composed.consumed, 2);
    assert_eq!(composed.produced, 2);
}

#[test]
fn test_optimization_levels() {
    assert!(OptimizationLevel::Unoptimized < OptimizationLevel::Basic);
    assert!(OptimizationLevel::Basic < OptimizationLevel::Standard);
    assert!(OptimizationLevel::Standard < OptimizationLevel::Aggressive);
}

#[test]
fn test_memory_optimizer_creation() {
    let opt = MemoryOptimizer::new();
    assert!(opt.enable_alias_analysis);
    assert!(opt.enable_reordering);
    assert!(opt.enable_prefetch);
    assert!(opt.enable_cache_opt);
    assert!(opt.enable_stack_discipline);
    assert_eq!(opt.cache_line_size, 64);
}

#[test]
fn test_aggressive_configuration() {
    let opt = MemoryOptimizer::aggressive();
    assert_eq!(opt.prefetch_distance, 16);
    assert_eq!(opt.max_reorder_window, 32);
}

#[test]
fn test_points_to_analysis() {
    let pts1 = PointsToSet::new();
    let pts2 = PointsToSet::new();
    assert!(!pts1.may_alias(&pts2));
}

#[test]
fn test_cache_state() {
    let mut state = CacheState::new(3);
    assert_eq!(state.cached_depth, 0);
    assert_eq!(state.total_depth, 0);

    let optimizer = StackCacheOptimizer::new(3);
    optimizer.push_cache(&mut state);
    assert_eq!(state.cached_depth, 1);
    assert_eq!(state.total_depth, 1);

    optimizer.pop_cache(&mut state);
    assert_eq!(state.cached_depth, 0);
    assert_eq!(state.total_depth, 0);
}

#[test]
fn test_type_signature_mangling() {
    let sig = TypeSignature::new(vec![ConcreteType::Int, ConcreteType::Int], vec![ConcreteType::Int]);

    let mangled = sig.mangle_name("add");
    assert!(mangled.contains("INT"));
}

#[test]
fn test_concrete_type_suffix() {
    assert_eq!(ConcreteType::Int.suffix(), "INT");
    assert_eq!(ConcreteType::Float.suffix(), "FLOAT");
    assert_eq!(ConcreteType::Addr.suffix(), "ADDR");
}

#[test]
fn test_type_signature_display() {
    let sig = TypeSignature::new(vec![ConcreteType::Int, ConcreteType::Float], vec![ConcreteType::Bool]);

    let display = sig.display_text();
    assert!(display.contains("int"));
    assert!(display.contains("float"));
    assert!(display.contains("bool"));
}

#[test]
fn test_name_mangling() {
    let sig_int = TypeSignature::new(vec![ConcreteType::Int], vec![ConcreteType::Int]);

    let mangled = sig_int.mangle_name("square");
    assert!(mangled.contains("INT"), "Should contain type suffix");

    let sig_float = TypeSignature::new(vec![ConcreteType::Float], vec![ConcreteType::Float]);

    let mangled_float = sig_float.mangle_name("square");
    assert!(mangled_float.contains("FLOAT"), "Should contain type suffix");
    assert_ne!(mangled, mangled_float, "Different types should have different names");
}

#[test]
fn test_type_inference_results_builder() {
    let mut results = TypeInferenceResults::new();

    results.add_word_signature(
        "test".to_string(),
        TypeSignature::new(vec![ConcreteType::Int], vec![ConcreteType::Int]),
    );

    results.add_call_site(0, TypeSignature::new(vec![ConcreteType::Int], vec![ConcreteType::Int]));

    assert_eq!(results.word_signatures.len(), 1);
    assert_eq!(results.call_site_signatures.len(), 1);
}

#[test]
fn test_example_type_results() {
    let results = TypeInferenceResults::example();

    assert!(!results.word_signatures.is_empty(), "Example should have word signatures");
    assert!(!results.call_site_signatures.is_empty(), "Example should have call site signatures");
}

#[test]
fn test_concrete_type_specialization_checks() {
    assert!(ConcreteType::Int.needs_specialization());
    assert!(ConcreteType::Float.needs_specialization());
    assert!(!ConcreteType::String.needs_specialization());
}

#[test]
fn sanitizable_names_are_recognised() {
    assert!(is_sanitizable("foo+bar"));
    assert!(is_sanitizable("2dup"));
    assert!(is_sanitizable(""));
    assert!(!is_sanitizable("\u{0663}x"));
    assert_eq!(try_sanitize_name("2dup"), Some("_dup".to_string()));
    assert_eq!(try_sanitize_name("\u{0663}x"), None);
}

#[test]
fn decimal_text_of_integers() {
    assert_eq!(i64_text(0), "0");
    assert_eq!(i64_text(42), "42");
    assert_eq!(i64_text(-7), "-7");
    assert_eq!(i64_text(i64::MIN), "-9223372036854775808");
    assert_eq!(i64_text(i64::MAX), "9223372036854775807");
    assert_eq!(usize_text(1024), "1024");
}
