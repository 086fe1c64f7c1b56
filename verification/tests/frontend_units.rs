use fastforth::frontend::ast::{SourceLocation, StackType, Token, Word};
use fastforth::frontend::error::ForthError;
use fastforth::frontend::lexer::Lexer;
use fastforth::frontend::parser::parse_program;
use fastforth::frontend::semantic::{analyze, validate_program};
use fastforth::frontend::ssa::{convert_to_ssa, BasicBlock, BinaryOperator, BlockId, Register, SSAFunction, SSAInstruction};
use fastforth::frontend::ssa_validator::SSAValidator;
use fastforth::frontend::stack_effects::StackEffectInference;
use fastforth::frontend::type_inference::TypeInference;

fn word_ref(name: &str) -> Word {
    Word::WordRef { name: name.to_string(), location: SourceLocation::default() }
}

#[test]
fn test_tokenize_simple() {
    let mut lexer = Lexer::new(": double 2 * ;");
    let tokens = lexer.tokenize().unwrap();
    assert_eq!(tokens[0], Token::Colon);
    assert_eq!(tokens[1], Token::Word("double".to_string()));
    assert_eq!(tokens[2], Token::Integer(2));
    assert_eq!(tokens[3], Token::Word("*".to_string()));
    assert_eq!(tokens[4], Token::Semicolon);
}

#[test]
fn test_tokenize_with_comment() {
    let mut lexer = Lexer::new(": test ( n -- n*2 ) 2 * ;");
    let tokens = lexer.tokenize().unwrap();
    assert!(tokens.iter().any(|t| matches!(t, Token::Colon)));
}

#[test]
fn test_tokenize_control_structures() {
    let mut lexer = Lexer::new("IF 1 ELSE 0 THEN");
    let tokens = lexer.tokenize().unwrap();
    assert_eq!(tokens[0], Token::If);
    assert_eq!(tokens[1], Token::Integer(1));
    assert_eq!(tokens[2], Token::Else);
    assert_eq!(tokens[3], Token::Integer(0));
    assert_eq!(tokens[4], Token::Then);
}

#[test]
fn test_tokenize_float() {
    let mut lexer = Lexer::new("3.14159 1.0e-10");
    let tokens = lexer.tokenize().unwrap();
    match &tokens[0] {
        Token::Float(f) => {
            let v: f64 = f.parse().unwrap();
            assert!((v - 3.14159).abs() < 0.0001)
        }
        _ => panic!("Expected float token"),
    }
}

#[test]
fn test_validate_simple() {
    let program = parse_program(": double 2 * ;").unwrap();
    assert!(analyze(&program).is_ok());
}

#[test]
fn test_undefined_word() {
    let program = parse_program(": test undefined-word ;").unwrap();
    let result = analyze(&program);
    assert!(result.is_err());
    if let Err(ForthError::UndefinedWord { word, .. }) = result {
        assert_eq!(word, "undefined-word");
    } else {
        panic!("Expected UndefinedWord error");
    }
}

#[test]
fn test_stack_effect_mismatch() {
    let program = parse_program(": test ( n -- n n ) drop ;").unwrap();
    let result = analyze(&program);
    assert!(result.is_err());
}

#[test]
fn test_valid_control_structures() {
    let program = parse_program(": abs dup 0 < IF negate THEN ;").unwrap();
    assert!(analyze(&program).is_ok());
}

#[test]
fn test_nested_words() {
    let program = parse_program(
        ": double 2 * ;
         : quadruple double double ;",
    )
    .unwrap();
    assert!(analyze(&program).is_ok());
}

#[test]
fn test_validation_result() {
    let program = parse_program(": test 1 2 + ;").unwrap();
    let result = validate_program(&program);
    assert!(result.passed);
    assert!(result.errors.is_empty());
}

#[test]
fn stack_effects_test_infer_arithmetic() {
    let inference = StackEffectInference::new();
    let words = vec![Word::IntLiteral(2), Word::IntLiteral(3), word_ref("+")];
    let effect = inference.infer_sequence(&words).unwrap();
    assert_eq!(effect.inputs.len(), 0);
    assert_eq!(effect.outputs.len(), 1);
}

#[test]
fn test_infer_dup() {
    let inference = StackEffectInference::new();
    let words = vec![word_ref("dup")];
    let effect = inference.infer_sequence(&words).unwrap();
    assert_eq!(effect.inputs.len(), 1);
    assert_eq!(effect.outputs.len(), 2);
}

#[test]
fn test_analyze_program() {
    let program = parse_program(": double ( n -- n*2 ) 2 * ;").unwrap();
    let mut inference = StackEffectInference::new();
    let effects = inference.analyze_program(&program).unwrap();
    let found = effects.iter().find(|(n, _)| n == "double");
    assert!(found.is_some());
    let effect = &found.unwrap().1;
    assert_eq!(effect.inputs.len(), 1);
    assert_eq!(effect.outputs.len(), 1);
}

#[test]
fn test_stack_manipulation() {
    let inference = StackEffectInference::new();
    let words = vec![Word::IntLiteral(1), Word::IntLiteral(2), word_ref("swap")];
    let effect = inference.infer_sequence(&words).unwrap();
    assert_eq!(effect.outputs.len(), 2);
}

#[test]
fn type_inference_test_infer_arithmetic() {
    let mut inference = TypeInference::new();
    let words = vec![Word::IntLiteral(2), Word::IntLiteral(3), word_ref("+")];
    let (inputs, outputs) = inference.infer_sequence(&words).unwrap();
    assert_eq!(inputs.len(), 0);
    assert_eq!(outputs.len(), 1);
    assert_eq!(outputs[0], StackType::Int);
}

#[test]
fn test_infer_polymorphic() {
    let mut inference = TypeInference::new();
    let words = vec![word_ref("dup")];
    let (inputs, outputs) = inference.infer_sequence(&words).unwrap();
    assert_eq!(inputs.len(), 1);
    assert_eq!(outputs.len(), 2);
}

#[test]
fn test_type_error() {
    let mut inference = TypeInference::new();
    let words = vec![
        Word::IntLiteral(1),
        Word::IntLiteral(2),
        word_ref("<"),
        Word::IntLiteral(3),
        word_ref("+"),
    ];
    let result = inference.infer_sequence(&words);
    assert!(result.is_ok());
}

#[test]
fn test_convert_simple() {
    let program = parse_program(": double ( n -- n*2 ) 2 * ;").unwrap();
    let functions = convert_to_ssa(&program).unwrap();
    assert_eq!(functions.len(), 1);
    assert_eq!(functions[0].name, "double");
}

#[test]
fn test_convert_with_stack_ops() {
    let program = parse_program(": square ( n -- n^2 ) dup * ;").unwrap();
    let functions = convert_to_ssa(&program).unwrap();
    assert_eq!(functions.len(), 1);
    let func = &functions[0];
    assert!(!func.blocks.is_empty());
}

#[test]
fn test_ssa_display() {
    let program = parse_program(": add-one ( n -- n+1 ) 1 + ;").unwrap();
    let functions = convert_to_ssa(&program).unwrap();
    let output = functions[0].display_text();
    assert!(output.contains("define add-one"));
}

#[test]
fn test_stack_underflow_detection() {
    let program = parse_program(": underflow ( -- ) dup + ;").unwrap();
    let result = convert_to_ssa(&program);
    assert!(result.is_err(), "Expected stack underflow error");
    if let Err(ForthError::StackUnderflow { word, expected, found }) = result {
        assert_eq!(word, "dup");
        assert_eq!(expected, 1);
        assert_eq!(found, 0);
    } else {
        panic!("Expected StackUnderflow error, got: {:?}", result);
    }
}

#[test]
fn ssa_test_maximum_stack_depth() {
    let mut source = String::from(": max-stack");
    for i in 0..150 {
        source.push_str(&format!(" {}", i));
    }
    source.push_str(" ;");
    let program = parse_program(&source).unwrap();
    let functions = convert_to_ssa(&program).unwrap();
    assert_eq!(functions.len(), 1);
    let func = &functions[0];
    assert!(!func.blocks.is_empty());
}

#[test]
fn test_complex_control_flow_phi_nodes() {
    let program = parse_program(
        ": complex-phi ( n -- result )
            dup 0 > IF
                10 +
            ELSE
                20 -
            THEN
        ;",
    )
    .unwrap();
    let functions = convert_to_ssa(&program).unwrap();
    assert_eq!(functions.len(), 1);
    let func = &functions[0];
    let has_phi = func
        .blocks
        .iter()
        .any(|block| block.instructions.iter().any(|inst| matches!(inst, SSAInstruction::Phi { .. })));
    assert!(has_phi, "Expected Phi node for IF-ELSE merge");
}

#[test]
fn test_nested_loops_ssa() {
    let program = parse_program(
        ": nested-loops ( -- )
            10 0 DO
                5 0 DO
                    i j +
                LOOP
            LOOP
        ;",
    )
    .unwrap();
    let functions = convert_to_ssa(&program).unwrap();
    assert_eq!(functions.len(), 1);
    let func = &functions[0];
    assert!(func.blocks.len() > 1, "Nested loops should create multiple blocks");
}

#[test]
fn test_string_literal_ssa_conversion() {
    let program = parse_program(r#": test-string " Hello World " ;"#).unwrap();
    let functions = convert_to_ssa(&program).unwrap();
    assert_eq!(functions.len(), 1);
    let func = &functions[0];
    let has_load_string = func.blocks[0]
        .instructions
        .iter()
        .any(|inst| matches!(inst, SSAInstruction::LoadString { .. }));
    assert!(has_load_string, "Expected LoadString instruction for string literal");
}

#[test]
fn test_stack_manipulation_ssa() {
    let program = parse_program(": stack-ops ( a b c -- b c a b ) rot swap dup ;").unwrap();
    let functions = convert_to_ssa(&program).unwrap();
    assert_eq!(functions.len(), 1);
    assert_eq!(functions[0].parameters.len(), 3);
}

#[test]
fn test_memory_operations_ssa() {
    let program = parse_program(": mem-test ( addr value -- ) swap ! ;").unwrap();
    let functions = convert_to_ssa(&program).unwrap();
    assert_eq!(functions.len(), 1);
    let func = &functions[0];
    let has_store = func.blocks[0].instructions.iter().any(|inst| matches!(inst, SSAInstruction::Store { .. }));
    assert!(has_store, "Expected Store instruction");
}

#[test]
fn test_file_io_operations_ssa() {
    let program = parse_program(
        r#": test-file ( -- )
            " test.txt " r/o open-file
            close-file
        ;"#,
    )
    .unwrap();
    let functions = convert_to_ssa(&program).unwrap();
    assert_eq!(functions.len(), 1);
    let func = &functions[0];
    let has_file_ops = func.blocks[0].instructions.iter().any(|inst| {
        matches!(inst, SSAInstruction::FileOpen { .. }) || matches!(inst, SSAInstruction::FileClose { .. })
    });
    assert!(has_file_ops, "Expected file I/O instructions");
}

#[test]
fn test_begin_while_repeat_ssa() {
    let program = parse_program(
        ": while-loop ( n -- )
            BEGIN
                dup 0 >
            WHILE
                1 -
            REPEAT
            drop
        ;",
    )
    .unwrap();
    let functions = convert_to_ssa(&program).unwrap();
    assert_eq!(functions.len(), 1);
    let func = &functions[0];
    assert!(func.blocks.len() >= 3, "WHILE-REPEAT should create multiple blocks");
}

#[test]
fn test_empty_function_body() {
    let program = parse_program(": noop ;").unwrap();
    let functions = convert_to_ssa(&program).unwrap();
    assert_eq!(functions.len(), 1);
    let func = &functions[0];
    let has_return = func.blocks[0].instructions.iter().any(|inst| matches!(inst, SSAInstruction::Return { .. }));
    assert!(has_return, "Empty function should have return instruction");
}

#[test]
fn test_parameter_inference() {
    let program = parse_program(": inferred-params dup * + ;").unwrap();
    let functions = convert_to_ssa(&program).unwrap();
    assert_eq!(functions.len(), 1);
    let func = &functions[0];
    assert!(func.parameters.len() >= 2, "Should infer at least 2 parameters");
}

#[test]
fn test_recurse_generates_self_call() {
    let program = parse_program(
        ": factorial ( n -- n! )
            dup 1 > IF
                dup 1 - recurse *
            THEN
        ;",
    )
    .unwrap();
    let functions = convert_to_ssa(&program).unwrap();
    assert_eq!(functions.len(), 1);
    let func = &functions[0];
    assert_eq!(func.name, "factorial");
    let has_self_call = func.blocks.iter().any(|block| {
        block
            .instructions
            .iter()
            .any(|inst| matches!(inst, SSAInstruction::Call { name, .. } if name == "factorial"))
    });
    assert!(has_self_call, "RECURSE should generate a self-call to 'factorial'");
}

#[test]
fn test_valid_simple_function() {
    let mut func = SSAFunction::new("add-one".to_string(), 1);
    func.blocks[0].instructions = vec![
        SSAInstruction::LoadInt { dest: Register(1), value: 1 },
        SSAInstruction::BinaryOp { dest: Register(2), op: BinaryOperator::Add, left: Register(0), right: Register(1) },
        SSAInstruction::Return { values: vec![Register(2)] },
    ];
    let mut validator = SSAValidator::new(&func);
    assert!(validator.validate().is_ok());
}

#[test]
fn test_multiple_assignment_error() {
    let mut func = SSAFunction::new("bad".to_string(), 0);
    func.blocks[0].instructions = vec![
        SSAInstruction::LoadInt { dest: Register(0), value: 1 },
        SSAInstruction::LoadInt { dest: Register(0), value: 2 },
        SSAInstruction::Return { values: vec![Register(0)] },
    ];
    let mut validator = SSAValidator::new(&func);
    assert!(validator.validate().is_err());
}

#[test]
fn test_undefined_register_error() {
    let mut func = SSAFunction::new("bad".to_string(), 0);
    func.blocks[0].instructions = vec![
        SSAInstruction::LoadInt { dest: Register(0), value: 1 },
        SSAInstruction::BinaryOp { dest: Register(2), op: BinaryOperator::Add, left: Register(0), right: Register(99) },
        SSAInstruction::Return { values: vec![Register(2)] },
    ];
    let mut validator = SSAValidator::new(&func);
    assert!(validator.validate().is_err());
}

#[test]
fn validator_messages_name_the_fault() {
    let mut func = SSAFunction::new("bad".to_string(), 0);
    func.blocks[0].instructions = vec![
        SSAInstruction::LoadInt { dest: Register(0), value: 1 },
        SSAInstruction::LoadInt { dest: Register(0), value: 2 },
    ];
    match func.validate() {
        Err(ForthError::SSAConversionError { message }) => {
            assert_eq!(message, "Register %0 assigned multiple times (violation of SSA form)")
        }
        other => panic!("unexpected {:?}", other),
    }
    let mut func = SSAFunction::new("undef".to_string(), 0);
    func.blocks[0].instructions = vec![SSAInstruction::Return { values: vec![Register(7)] }];
    match func.validate() {
        Err(ForthError::SSAConversionError { message }) => {
            assert_eq!(message, "Register %7 used in block bb0 but never defined")
        }
        other => panic!("unexpected {:?}", other),
    }
}

#[test]
fn validator_finds_unreachable_block() {
    let mut func = SSAFunction::new("f".to_string(), 0);
    func.blocks[0].instructions = vec![SSAInstruction::Return { values: vec![] }];
    let mut b1 = BasicBlock::new(BlockId(1));
    b1.instructions = vec![SSAInstruction::Return { values: vec![] }];
    func.blocks.push(b1);
    match func.validate() {
        Err(ForthError::SSAConversionError { message }) => {
            assert_eq!(message, "Unreachable block bb1 detected (not connected to entry block bb0)")
        }
        other => panic!("unexpected {:?}", other),
    }
}

fn diamond(phi_incoming: Vec<(BlockId, Register)>) -> SSAFunction {
    let mut func = SSAFunction::new("diamond".to_string(), 1);
    func.blocks[0].instructions = vec![SSAInstruction::Branch {
        condition: Register(0),
        true_block: BlockId(1),
        false_block: BlockId(2),
    }];
    let mut b1 = BasicBlock::new(BlockId(1));
    b1.instructions = vec![
        SSAInstruction::LoadInt { dest: Register(1), value: 10 },
        SSAInstruction::Jump { target: BlockId(3) },
    ];
    let mut b2 = BasicBlock::new(BlockId(2));
    b2.instructions = vec![
        SSAInstruction::LoadInt { dest: Register(2), value: 20 },
        SSAInstruction::Jump { target: BlockId(3) },
    ];
    let mut b3 = BasicBlock::new(BlockId(3));
    b3.instructions = vec![
        SSAInstruction::Phi { dest: Register(3), incoming: phi_incoming },
        SSAInstruction::Return { values: vec![Register(3)] },
    ];
    func.blocks.push(b1);
    func.blocks.push(b2);
    func.blocks.push(b3);
    func
}

#[test]
fn validator_accepts_diamond_with_phi() {
    let func = diamond(vec![(BlockId(1), Register(1)), (BlockId(2), Register(2))]);
    assert!(func.validate().is_ok());
}

#[test]
fn validator_rejects_phi_missing_predecessor() {
    let func = diamond(vec![(BlockId(1), Register(1))]);
    match func.validate() {
        Err(ForthError::SSAConversionError { message }) => assert_eq!(
            message,
            "Phi node for %3 in block bb3 missing incoming value from predecessor bb2"
        ),
        other => panic!("unexpected {:?}", other),
    }
}

#[test]
fn validator_rejects_phi_from_non_predecessor() {
    let func = diamond(vec![(BlockId(1), Register(1)), (BlockId(2), Register(2)), (BlockId(0), Register(0))]);
    match func.validate() {
        Err(ForthError::SSAConversionError { message }) => assert_eq!(
            message,
            "Phi node for %3 in block bb3 has incoming value from non-predecessor bb0"
        ),
        other => panic!("unexpected {:?}", other),
    }
}

#[test]
fn validator_rejects_use_in_non_dominated_block() {
    let mut func = diamond(vec![(BlockId(1), Register(1)), (BlockId(2), Register(2))]);
    func.blocks[3].instructions[1] = SSAInstruction::Return { values: vec![Register(1)] };
    match func.validate() {
        Err(ForthError::SSAConversionError { message }) => assert_eq!(
            message,
            "Register %1 used in block bb3 but defined in non-dominating block bb1"
        ),
        other => panic!("unexpected {:?}", other),
    }
}

#[test]
fn validator_rejects_phi_after_other_instruction() {
    let mut func = diamond(vec![(BlockId(1), Register(1)), (BlockId(2), Register(2))]);
    func.blocks[3].instructions.insert(0, SSAInstruction::LoadInt { dest: Register(4), value: 0 });
    match func.validate() {
        Err(ForthError::SSAConversionError { message }) => {
            assert_eq!(message, "Phi node for %3 not at start of block bb3")
        }
        other => panic!("unexpected {:?}", other),
    }
}

#[test]
fn type_inference_unifies_if_branches() {
    let mut inference = TypeInference::new();
    let words = vec![Word::If { then_branch: vec![Word::IntLiteral(1)], else_branch: Some(vec![Word::IntLiteral(2), Word::IntLiteral(3)]) }];
    match inference.infer_sequence(&words) {
        Err(ForthError::TypeError { expected, found, location }) => {
            assert_eq!(expected, "1 outputs");
            assert_eq!(found, "2 outputs");
            assert_eq!(location, Some("IF branches".to_string()));
        }
        other => panic!("unexpected {:?}", other),
    }
}

#[test]
fn type_inference_reports_mismatch() {
    let mut inference = TypeInference::new();
    let words = vec![Word::StringLiteral("s".to_string()), Word::IntLiteral(1), word_ref("+")];
    match inference.infer_sequence(&words) {
        Err(ForthError::TypeError { expected, found, location }) => {
            assert_eq!(expected, "int");
            assert_eq!(found, "string");
            assert_eq!(location, None);
        }
        other => panic!("unexpected {:?}", other),
    }
}

#[test]
fn type_inference_swap_resolves_types() {
    let mut inference = TypeInference::new();
    let words = vec![Word::IntLiteral(1), Word::StringLiteral("x".to_string()), word_ref("swap")];
    let (inputs, outputs) = inference.infer_sequence(&words).unwrap();
    assert!(inputs.is_empty());
    // The first declared input is unified with the top of the stack.
    assert_eq!(outputs, vec![StackType::Int, StackType::String]);
}

#[test]
fn type_inference_definition_checks_declared_effect() {
    let program = parse_program(": two ( -- n ) 1 2 ;").unwrap();
    let mut inference = TypeInference::new();
    match inference.analyze_program(&program) {
        Err(ForthError::TypeError { location, .. }) => assert_eq!(location, Some("two".to_string())),
        other => panic!("unexpected {:?}", other),
    }
    let program = parse_program(": inc ( n -- n ) 1 + ;").unwrap();
    let mut inference = TypeInference::new();
    let types = inference.analyze_program(&program).unwrap();
    assert_eq!(types.len(), 1);
    assert_eq!(types[0].0, "inc");
    assert_eq!((types[0].1).0.len(), 1);
    assert_eq!((types[0].1).1.len(), 1);
}
