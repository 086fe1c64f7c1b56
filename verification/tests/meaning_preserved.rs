use fastforth::frontend::error::ForthError;
use fastforth::frontend::ssa::{Register, SSAConverter, SSAFunction, SSAInstruction, UnaryOperator};
use fastforth::frontend::ssa_validator::SSAValidator;
use fastforth::optimizer::codegen::CCodegen;
use fastforth::optimizer::constant_fold::ConstantFolder;
use fastforth::optimizer::dead_code::DeadCodeEliminator;
use fastforth::optimizer::ir::{ForthIR, Instruction, StackEffect};
use fastforth::optimizer::pipeline::OptimizationLevel;
use fastforth::optimizer::specializer::specialize_instruction;
use fastforth::optimizer::stack_cache::StackCacheOptimizer;
use fastforth::optimizer::superinstructions::SuperinstructionOptimizer;
use fastforth::optimizer::type_specialization::{ConcreteType, TypeSignature};
use fastforth::optimizer::whole_program::WholeProgramOptimizer;

#[test]
fn folding_keeps_constant_after_call() {
    let mut ir = ForthIR::new();
    ir.main = vec![Instruction::Call("foo".to_string()), Instruction::Literal(5), Instruction::Add];
    let out = ConstantFolder::new().fold(&ir).unwrap();
    assert_eq!(out.main, ir.main);
}

#[test]
fn folding_still_folds_constants() {
    let ir = ForthIR::parse("2 3 + 4 *").unwrap();
    let out = ConstantFolder::new().fold(&ir).unwrap();
    assert_eq!(out.main, vec![Instruction::Literal(20)]);
}

#[test]
fn propagation_replaces_operands() {
    let wpo = WholeProgramOptimizer::new(OptimizationLevel::Aggressive);
    let out = wpo
        .propagate_in_sequence(&[Instruction::Literal(2), Instruction::Literal(3), Instruction::Add])
        .unwrap();
    assert_eq!(out, vec![Instruction::Literal(5)]);
}

#[test]
fn stack_cache_keeps_drop() {
    let opt = StackCacheOptimizer::new(3);
    let ir = ForthIR::parse("1 2 drop").unwrap();
    let out = opt.optimize(&ir).unwrap();
    assert_eq!(
        out.main,
        vec![Instruction::Literal(1), Instruction::Literal(2), Instruction::Drop, Instruction::FlushCache]
    );
}

#[test]
fn specialization_keeps_fused_operations() {
    let sig = TypeSignature::new(vec![ConcreteType::Int], vec![ConcreteType::Int]);
    assert_eq!(specialize_instruction(&Instruction::DupAdd, &sig), Instruction::DupAdd);
    assert_eq!(specialize_instruction(&Instruction::LiteralMul(3), &sig), Instruction::LiteralMul(3));
}

#[test]
fn c_code_for_dup_pushes() {
    let g = CCodegen::new();
    let text = g.generate_instruction(&Instruction::Dup, &|_b: u64| String::new());
    assert_eq!(text, "    PUSH(TOS);");
}

#[test]
fn stack_effects_follow_stack_comments() {
    assert_eq!(Instruction::Rot.stack_effect(), StackEffect::new(3, 3));
    assert_eq!(Instruction::Nip.stack_effect(), StackEffect::new(2, 1));
    assert_eq!(Instruction::Tuck.stack_effect(), StackEffect::new(2, 3));
    assert_eq!(Instruction::OverAdd.stack_effect(), StackEffect::new(2, 2));
    assert_eq!(Instruction::CachedOver { depth: 2 }.stack_effect(), StackEffect::new(2, 3));
}

#[test]
fn dead_code_keeps_drop_after_call() {
    let mut ir = ForthIR::new();
    ir.main = vec![Instruction::Call("foo".to_string()), Instruction::Drop];
    let out = DeadCodeEliminator::new().eliminate(&ir).unwrap();
    assert_eq!(out.main, ir.main);
}

#[test]
fn superinstructions_rewrite_swap_over_only() {
    let opt = SuperinstructionOptimizer::new();
    let mut ir = ForthIR::new();
    ir.main = vec![Instruction::Literal(1), Instruction::Literal(2), Instruction::Over, Instruction::Swap];
    let out = opt.recognize(&ir).unwrap();
    assert_eq!(out.main, ir.main);
    ir.main = vec![Instruction::Swap, Instruction::Over];
    let out = opt.recognize(&ir).unwrap();
    assert_eq!(out.main, vec![Instruction::Tuck]);
}

#[test]
fn validator_reports_use_before_definition_in_block() {
    let mut f = SSAFunction::new("f".to_string(), 0);
    f.blocks[0].instructions = vec![
        SSAInstruction::UnaryOp { dest: Register(1), op: UnaryOperator::Negate, operand: Register(0) },
        SSAInstruction::LoadInt { dest: Register(0), value: 5 },
        SSAInstruction::Return { values: vec![Register(1)] },
    ];
    let mut v = SSAValidator::new(&f);
    match v.validate() {
        Err(ForthError::SSAConversionError { message }) => {
            assert_eq!(message, "Register %0 used before its definition in block bb0")
        }
        other => panic!("unexpected {:?}", other),
    }
}

#[test]
fn rot_on_fresh_converter() {
    let mut conv = SSAConverter::new();
    let mut stack = vec![Register(0), Register(1), Register(2)];
    assert!(conv.convert_word_call(&"rot".to_string(), &mut stack).is_ok());
    assert_eq!(stack, vec![Register(1), Register(2), Register(0)]);
    let mut short = vec![Register(0)];
    let r = conv.convert_word_call(&"swap".to_string(), &mut short);
    assert!(matches!(r, Err(ForthError::StackUnderflow { expected: 2, found: 1, .. })));
    assert_eq!(short, vec![Register(0)]);
}
