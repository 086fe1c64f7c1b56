use fastforth::frontend::ast::Word;
use fastforth::frontend::parser::parse_program;
use fastforth::frontend::semantic::analyze;
use fastforth::frontend::ssa::{convert_to_ssa, BasicBlock, BinaryOperator, BlockId, Register, SSAFunction, SSAInstruction};
use fastforth::frontend::stack_effects::StackEffectInference;
use fastforth::frontend::type_inference::TypeInference;

#[test]
fn test_parse_error_unmatched_then() {
    let source = ": test ( n -- n ) THEN ;";
    let result = parse_program(source);
    assert!(result.is_err(), "Should fail on unmatched THEN");
    if let Ok(program) = result {
        let sem_result = analyze(&program);
        assert!(sem_result.is_err(), "Semantic analysis should catch unmatched THEN");
    }
}

#[test]
fn test_parse_error_unmatched_else() {
    let source = ": test ( n -- n ) ELSE 1 ;";
    let result = parse_program(source);
    assert!(result.is_err(), "Should fail on unmatched ELSE");
    if let Ok(program) = result {
        let sem_result = analyze(&program);
        assert!(sem_result.is_err(), "Should catch unmatched ELSE");
    }
}

#[test]
fn test_parse_error_unmatched_repeat() {
    let source = ": test ( n -- ) REPEAT ;";
    let result = parse_program(source);
    assert!(result.is_err(), "Should fail on REPEAT without BEGIN/WHILE");
    if let Ok(program) = result {
        let sem_result = analyze(&program);
        assert!(sem_result.is_err(), "Should catch unmatched REPEAT");
    }
}

#[test]
fn test_parse_error_missing_colon() {
    let source = "test ( n -- n ) dup ;";
    let result = parse_program(source);
    if let Ok(program) = result {
        assert_eq!(program.definitions.len(), 0);
        let sem_result = analyze(&program);
        assert!(sem_result.is_err(), "Should fail on undefined words");
    }
}

#[test]
fn test_semantic_error_undefined_word() {
    let source = ": test nonexistent-word ;";
    let program = parse_program(source).expect("Should parse");
    let result = analyze(&program);
    assert!(result.is_err(), "Should detect undefined word");
    let err = result.unwrap_err();
    assert!(
        err.message().contains("nonexistent-word") || err.message().contains("Undefined"),
        "Error should mention undefined word: {}",
        err.message()
    );
}

#[test]
fn test_semantic_error_multiple_undefined_words() {
    let source = r#"
        : test
            undefined1
            undefined2
            undefined3 ;
    "#;
    let program = parse_program(source).expect("Should parse");
    let result = analyze(&program);
    assert!(result.is_err(), "Should detect multiple undefined words");
}

#[test]
fn test_semantic_error_stack_underflow_simple() {
    let source = ": test ( -- n ) + ;";
    let program = parse_program(source).expect("Should parse");
    let result = analyze(&program);
    assert!(result.is_err(), "Should detect stack underflow in +");
    let err = result.unwrap_err();
    assert!(
        err.message().contains("underflow") || err.message().contains("Stack") || err.message().contains("Invalid stack effect"),
        "Error should mention stack underflow: {}",
        err.message()
    );
}

#[test]
fn test_semantic_error_stack_effect_mismatch_if_branches() {
    let source = r#"
        : test ( n -- ? )
            IF
                1 2
            ELSE
                3
            THEN ;
    "#;
    let program = parse_program(source).expect("Should parse");
    let result = analyze(&program);
    assert!(result.is_err(), "Should detect stack depth mismatch in branches");
    let err = result.unwrap_err();
    assert!(
        err.message().contains("mismatch") || err.message().contains("Stack") || err.message().contains("Invalid stack effect"),
        "Error should mention stack mismatch: {}",
        err.message()
    );
}

#[test]
fn test_semantic_error_declared_vs_actual_stack_effect() {
    let source = ": test ( n -- n n ) drop ;";
    let program = parse_program(source).expect("Should parse");
    let result = analyze(&program);
    assert!(result.is_err(), "Should detect stack effect mismatch");
}

#[test]
fn test_semantic_error_type_mismatch() {
    let source = r#"
        : test ( n -- )
            1.5 + ;
    "#;
    let program = parse_program(source).expect("Should parse");
    let mut type_inference = TypeInference::new();
    let result = type_inference.analyze_program(&program);
    if result.is_err() {
        let err = result.unwrap_err();
        assert!(
            err.message().contains("Type") || err.message().contains("type"),
            "Error should mention type error: {}",
            err.message()
        );
    }
}

#[test]
fn test_semantic_error_redefinition() {
    let source = r#"
        : dup ( n -- n n ) ;
        : dup ( n -- n n ) dup dup ;
    "#;
    let program = parse_program(source).expect("Should parse");
    let result = analyze(&program);
    if result.is_err() {
        let err = result.unwrap_err();
        println!("Redefinition error: {}", err.message());
    }
}

#[test]
fn test_semantic_error_return_stack_underflow() {
    let source = ": test ( -- n ) r> ;";
    let program = parse_program(source).expect("Should parse");
    let result = analyze(&program);
    if result.is_err() {
        println!("Return stack underflow detected: {}", result.unwrap_err().message());
    }
}

#[test]
fn test_semantic_error_return_stack_leak() {
    let source = ": test ( n -- ) >r ;";
    let program = parse_program(source).expect("Should parse");
    let result = analyze(&program);
    if result.is_err() {
        println!("Return stack leak detected: {}", result.unwrap_err().message());
    }
}

#[test]
fn test_semantic_error_control_structure_mismatch() {
    let source = r#"
        : test ( n -- )
            BEGIN
                dup 0 >
            THEN ;
    "#;
    let result = parse_program(source);
    if let Ok(program) = result {
        let sem_result = analyze(&program);
        assert!(sem_result.is_err(), "Should detect control structure mismatch");
    }
}

#[test]
fn test_ssa_error_invalid_control_flow() {
    let source = r#"
        : test ( flag -- )
            IF
                EXIT
            ELSE
                1 .
            THEN
            2 . ;
    "#;
    let program = parse_program(source).expect("Should parse");
    let sem_result = analyze(&program);
    if sem_result.is_err() {
        println!("Semantic analysis failed (EXIT not defined): {}", sem_result.unwrap_err().message());
        return;
    }
    let result = convert_to_ssa(&program);
    if result.is_err() {
        println!("SSA conversion error: {}", result.unwrap_err().message());
    } else {
        let functions = result.unwrap();
        assert!(!functions.is_empty());
    }
}

#[test]
fn test_ssa_error_complex_loop_exit() {
    let source = r#"
        : test ( n -- )
            BEGIN
                dup 0 >
            WHILE
                dup 5 = IF
                    EXIT
                THEN
                1 -
            REPEAT
            drop ;
    "#;
    let program = parse_program(source).expect("Should parse");
    let sem_result = analyze(&program);
    if sem_result.is_err() {
        println!("Semantic analysis failed (EXIT not defined): {}", sem_result.unwrap_err().message());
        return;
    }
    let result = convert_to_ssa(&program);
    assert!(result.is_ok(), "SSA conversion should handle complex loops");
}

#[test]
fn test_ssa_error_multiple_returns() {
    let source = r#"
        : test ( flag -- )
            IF
                EXIT
            THEN
            1 . ;
    "#;
    let program = parse_program(source).expect("Should parse");
    let sem_result = analyze(&program);
    if sem_result.is_err() {
        println!("Semantic analysis failed (EXIT not defined): {}", sem_result.unwrap_err().message());
        return;
    }
    let result = convert_to_ssa(&program);
    assert!(result.is_ok() || result.is_err(), "SSA handles or rejects multiple exits");
}

#[test]
fn test_ssa_phi_node_validation() {
    let source = r#"
        : test ( a b flag -- result )
            IF
                +
            ELSE
                -
            THEN ;
    "#;
    let program = parse_program(source).expect("Should parse");
    let _ = analyze(&program).expect("Should pass semantic analysis");
    let result = convert_to_ssa(&program);
    assert!(result.is_ok(), "SSA should create phi nodes for merged paths");
    if let Ok(functions) = result {
        let func = &functions[0];
        assert!(func.blocks.len() >= 3, "Should have entry, then, else, and merge blocks");
    }
}

#[test]
fn test_ssa_unreachable_code_detection() {
    let source = r#"
        : test ( -- )
            EXIT
            1 .
            2 .
            3 . ;
    "#;
    let program = parse_program(source).expect("Should parse");
    let sem_result = analyze(&program);
    if sem_result.is_err() {
        println!("Semantic analysis failed (EXIT not defined): {}", sem_result.unwrap_err().message());
        return;
    }
    let result = convert_to_ssa(&program);
    if result.is_ok() {
        println!("SSA conversion handled unreachable code");
    }
}

#[test]
fn test_error_message_includes_line_info() {
    let source = r#"
        : good-word 1 + ;
        : bad-word undefined-word ;
        : another-good 2 * ;
    "#;
    let program = parse_program(source).expect("Should parse");
    let result = analyze(&program);
    if let Err(err) = result {
        let error_msg = err.message();
        println!("Error with context: {}", error_msg);
        assert!(error_msg.contains("undefined") || error_msg.contains("Undefined"), "Should mention undefined word");
    }
}

#[test]
fn test_error_message_suggests_similar_words() {
    let source = ": test dupp ;";
    let program = parse_program(source).expect("Should parse");
    let result = analyze(&program);
    assert!(result.is_err(), "Should detect undefined word 'dupp'");
    let err = result.unwrap_err();
    println!("Error message: {}", err.message());
}

#[test]
fn test_error_message_stack_effect_details() {
    let source = ": test ( a b c -- result ) drop ;";
    let program = parse_program(source).expect("Should parse");
    let result = analyze(&program);
    if let Err(err) = result {
        println!("Stack effect error: {}", err.message());
    }
}

#[test]
fn test_error_recovery_continues_analysis() {
    let source = r#"
        : first undefined1 ;
        : second undefined2 ;
        : third undefined3 ;
    "#;
    let program = parse_program(source).expect("Should parse");
    let result = analyze(&program);
    assert!(result.is_err(), "Should detect undefined words");
}

#[test]
fn test_error_context_preservation() {
    let source = r#"
        : outer ( n -- n )
            inner-undefined ;

        : inner ( n -- n )
            dup * ;
    "#;
    let program = parse_program(source).expect("Should parse");
    let result = analyze(&program);
    assert!(result.is_err(), "Should detect undefined word");
    let err = result.unwrap_err();
    println!("Error with context: {}", err.message());
}

#[test]
fn test_extremely_deep_nesting() {
    let mut source = String::from(": test ( n -- n )\n");
    for _ in 0..100 {
        source.push_str("IF ");
    }
    source.push_str("dup ");
    for _ in 0..100 {
        source.push_str("THEN ");
    }
    source.push_str(";");
    let result = parse_program(&source);
    match result {
        Ok(program) => {
            let _ = analyze(&program);
        }
        Err(err) => {
            println!("Deep nesting error: {}", err.message());
        }
    }
}

#[test]
fn error_handling_tests_test_maximum_stack_depth() {
    let mut source = String::from(": test ( -- ... )\n");
    for i in 0..1000 {
        source.push_str(&format!("{} ", i));
    }
    source.push_str(";");
    let result = parse_program(&source);
    if let Ok(program) = result {
        let sem_result = analyze(&program);
        match sem_result {
            Ok(_) => println!("Large stack depth handled"),
            Err(err) => println!("Stack depth error: {}", err.message()),
        }
    }
}

#[test]
fn test_complete_pipeline() {
    let source = r#"
        : square ( n -- n*n )
            dup * ;

        : sum-of-squares ( a b -- a^2+b^2 )
            square swap square + ;
    "#;
    let program = parse_program(source).expect("Failed to parse");
    assert_eq!(program.definitions.len(), 2);
    analyze(&program).expect("Semantic analysis failed");
    let ssa_functions = convert_to_ssa(&program).expect("SSA conversion failed");
    assert_eq!(ssa_functions.len(), 2);
    println!("SSA for square:\n{}", ssa_functions[0].display_text());
    println!("\nSSA for sum-of-squares:\n{}", ssa_functions[1].display_text());
}

#[test]
fn test_fibonacci() {
    let source = r#"
        : fib ( n -- fib(n) )
            dup 2 < IF
                drop 1
            ELSE
                dup 1 - fib
                swap 2 - fib
                +
            THEN ;
    "#;
    let program = parse_program(source).expect("Failed to parse");
    assert_eq!(program.definitions.len(), 1);
    analyze(&program).expect("Semantic analysis failed");
    let ssa_functions = convert_to_ssa(&program).expect("SSA conversion failed");
    assert_eq!(ssa_functions.len(), 1);
}

#[test]
fn test_control_structures() {
    let source = r#"
        : countdown ( n -- )
            BEGIN
                dup .
                1 -
                dup 0 =
            UNTIL
            drop ;
    "#;
    let program = parse_program(source).expect("Failed to parse");
    analyze(&program).expect("Semantic analysis failed");
}

#[test]
fn test_complex_stack_manipulation() {
    let source = r#"
        : 2swap ( a b c d -- c d a b )
            rot >r rot r> ;

        : nip ( a b -- b )
            swap drop ;

        : tuck ( a b -- b a b )
            swap over ;
    "#;
    let program = parse_program(source).expect("Failed to parse");
    assert_eq!(program.definitions.len(), 3);
    analyze(&program).expect("Semantic analysis failed");
}

#[test]
fn test_error_detection_undefined_word() {
    let source = ": test undefined-word ;";
    let program = parse_program(source).expect("Failed to parse");
    let result = analyze(&program);
    assert!(result.is_err());
}

#[test]
fn test_error_detection_stack_mismatch() {
    let source = ": test ( n -- n n ) drop ;";
    let program = parse_program(source).expect("Failed to parse");
    let result = analyze(&program);
    assert!(result.is_err());
}

#[test]
fn test_type_inference() {
    let source = r#"
        : add-one ( n -- n+1 )
            1 + ;
    "#;
    let program = parse_program(source).expect("Failed to parse");
    let mut type_inference = TypeInference::new();
    let types = type_inference.analyze_program(&program).expect("Type inference failed");
    assert!(types.iter().any(|(n, _)| n == "add-one"));
}

#[test]
fn test_stack_effect_inference() {
    let source = r#"
        : double 2 * ;
        : triple 3 * ;
        : sum-doubled ( a b -- 2*(a+b) )
            + double ;
    "#;
    let program = parse_program(source).expect("Failed to parse");
    let mut stack_inference = StackEffectInference::new();
    let effects = stack_inference.analyze_program(&program).expect("Stack effect analysis failed");
    assert_eq!(effects.len(), 3);
    assert!(effects.iter().any(|(n, _)| n == "double"));
    assert!(effects.iter().any(|(n, _)| n == "triple"));
    assert!(effects.iter().any(|(n, _)| n == "sum-doubled"));
}

#[test]
fn test_nested_control_structures() {
    let source = r#"
        : collatz ( n -- )
            BEGIN
                dup 1 >
            WHILE
                dup 2 mod 0 = IF
                    2 /
                ELSE
                    3 * 1 +
                THEN
            REPEAT
            drop ;
    "#;
    let program = parse_program(source).expect("Failed to parse");
    analyze(&program).expect("Semantic analysis failed");
    let ssa_functions = convert_to_ssa(&program).expect("SSA conversion failed");
    assert_eq!(ssa_functions.len(), 1);
}

#[test]
fn test_variable_and_constant() {
    let source = r#"
        VARIABLE counter
        10 CONSTANT max-count

        : increment ( -- )
            counter @ 1 + counter ! ;
    "#;
    let program = parse_program(source).expect("Failed to parse");
    assert!(program.top_level_code.iter().any(|w| matches!(w, Word::Variable { .. })));
    assert!(program.top_level_code.iter().any(|w| matches!(w, Word::Constant { .. })));
}

#[test]
fn test_ssa_correctness() {
    let source = ": test 1 2 + 3 * ;";
    let program = parse_program(source).expect("Failed to parse");
    let ssa_functions = convert_to_ssa(&program).expect("SSA conversion failed");
    let func = &ssa_functions[0];
    assert!(!func.blocks.is_empty());
    assert!(!func.blocks[0].instructions.is_empty());
}

#[test]
fn test_polymorphic_words() {
    let source = r#"
        : identity ( x -- x )
            ;
    "#;
    let program = parse_program(source).expect("Failed to parse");
    let mut type_inference = TypeInference::new();
    let result = type_inference.analyze_program(&program);
    assert!(result.is_ok(), "Identity function should type-check");
}

#[test]
fn test_complex_arithmetic() {
    let source = r#"
        : quadratic ( a b c x -- result )
            >r              ( a b c )  ( R: x )
            swap r@ *       ( a c b*x )  ( R: x )
            swap r@ dup * * ( b*x a*x^2 )  ( R: x )
            + +             ( a*x^2+b*x+c )  ( R: x )
            r> drop ;       ( result )
    "#;
    let program = parse_program(source).expect("Failed to parse");
    analyze(&program).expect("Semantic analysis failed");
}

#[test]
fn test_floating_point() {
    let source = r#"
        : circle-area ( radius -- area )
            dup * 3.14159 * ;
    "#;
    let program = parse_program(source).expect("Failed to parse");
    assert!(program.definitions[0].body.iter().any(|w| matches!(w, Word::FloatLiteral(_))));
}

#[test]
fn test_string_literal_with_escapes() {
    let source = r#": test "line1\nline2\ttabbed\r\n\"quoted\"\\backslash" ;"#;
    let program = parse_program(source).expect("Failed to parse");
    assert_eq!(program.definitions.len(), 1);
    match &program.definitions[0].body[0] {
        Word::StringLiteral(s) => {
            assert!(s.contains('\n'));
            assert!(s.contains('\t'));
            assert!(s.contains('"'));
            assert!(s.contains('\\'));
        }
        _ => panic!("Expected StringLiteral"),
    }
}

#[test]
fn test_empty_string_literal() {
    let source = r#": test "" ;"#;
    let program = parse_program(source).expect("Failed to parse");
    assert_eq!(program.definitions.len(), 1);
    match &program.definitions[0].body[0] {
        Word::StringLiteral(s) => assert_eq!(s, ""),
        _ => panic!("Expected StringLiteral"),
    }
}

#[test]
fn test_deeply_nested_if_then_else() {
    let source = r#"
        : deep-nest
            0 < IF
                1 < IF
                    2 < IF
                        3
                    ELSE
                        4
                    THEN
                ELSE
                    5
                THEN
            ELSE
                6
            THEN
        ;
    "#;
    let program = parse_program(source).expect("Failed to parse");
    assert_eq!(program.definitions.len(), 1);
    match &program.definitions[0].body[2] {
        Word::If { then_branch, else_branch } => {
            assert!(!then_branch.is_empty());
            assert!(else_branch.is_some());
            let has_nested_if = then_branch.iter().any(|w| matches!(w, Word::If { .. }));
            assert!(has_nested_if, "Expected nested IF structure in then_branch");
        }
        _ => panic!("Expected If structure"),
    }
}

#[test]
fn test_empty_if_branches() {
    let source = ": test IF THEN ;";
    let program = parse_program(source).expect("Failed to parse");
    assert_eq!(program.definitions.len(), 1);
    match &program.definitions[0].body[0] {
        Word::If { then_branch, else_branch } => {
            assert!(then_branch.is_empty());
            assert!(else_branch.is_none());
        }
        _ => panic!("Expected If structure"),
    }
}

#[test]
fn test_multiple_consecutive_control_structures() {
    let source = r#"
        : test
            IF 1 THEN
            IF 2 THEN
            IF 3 THEN
        ;
    "#;
    let program = parse_program(source).expect("Failed to parse");
    assert_eq!(program.definitions.len(), 1);
    let if_count = program.definitions[0].body.iter().filter(|w| matches!(w, Word::If { .. })).count();
    assert_eq!(if_count, 3);
}

#[test]
fn test_begin_while_repeat_empty_body() {
    let source = ": test BEGIN WHILE REPEAT ;";
    let program = parse_program(source).expect("Failed to parse");
    assert_eq!(program.definitions.len(), 1);
    match &program.definitions[0].body[0] {
        Word::BeginWhileRepeat { condition, body } => {
            assert!(condition.is_empty());
            assert!(body.is_empty());
        }
        _ => panic!("Expected BeginWhileRepeat structure"),
    }
}

#[test]
fn test_definition_with_only_literals() {
    let source = ": test 1 2 3 4 5 ;";
    let program = parse_program(source).expect("Failed to parse");
    assert_eq!(program.definitions.len(), 1);
    assert_eq!(program.definitions[0].body.len(), 5);
    for (i, word) in program.definitions[0].body.iter().enumerate() {
        match word {
            Word::IntLiteral(n) => assert_eq!(*n, (i + 1) as i64),
            _ => panic!("Expected all IntLiterals"),
        }
    }
}

fn has_word_ref(words: &[Word], name: &str) -> bool {
    words.iter().any(|w| match w {
        Word::WordRef { name: n, .. } => n == name,
        Word::If { then_branch, else_branch } => {
            has_word_ref(then_branch, name) || else_branch.as_ref().map_or(false, |b| has_word_ref(b, name))
        }
        _ => false,
    })
}

#[test]
fn test_self_recursive_definition() {
    let source = r#"
        : factorial
            dup 1 > IF
                dup 1 - factorial *
            ELSE
                drop 1
            THEN
        ;
    "#;
    let program = parse_program(source).expect("Failed to parse");
    assert_eq!(program.definitions.len(), 1);
    assert!(has_word_ref(&program.definitions[0].body, "factorial"));
}

#[test]
fn test_validation_catches_multiple_assignment() {
    let mut func = SSAFunction::new("buggy_double_assign".to_string(), 1);
    func.blocks[0].instructions = vec![
        SSAInstruction::LoadInt { dest: Register(1), value: 10 },
        SSAInstruction::LoadInt { dest: Register(1), value: 20 },
        SSAInstruction::BinaryOp { dest: Register(2), op: BinaryOperator::Add, left: Register(0), right: Register(1) },
        SSAInstruction::Return { values: vec![Register(2)] },
    ];
    let result = func.validate();
    assert!(result.is_err(), "Validation should catch multiple assignment");
    let err = result.unwrap_err();
    assert!(err.message().contains("assigned multiple times"));
}

#[test]
fn test_validation_catches_use_of_undefined_register() {
    let mut func = SSAFunction::new("buggy_undefined_use".to_string(), 1);
    func.blocks[0].instructions = vec![
        SSAInstruction::LoadInt { dest: Register(1), value: 5 },
        SSAInstruction::BinaryOp { dest: Register(2), op: BinaryOperator::Mul, left: Register(1), right: Register(99) },
        SSAInstruction::Return { values: vec![Register(2)] },
    ];
    let result = func.validate();
    assert!(result.is_err(), "Validation should catch undefined register use");
    let err = result.unwrap_err();
    assert!(err.message().contains("never defined"));
}

#[test]
fn test_validation_accepts_correct_if_then_else() {
    let mut func = SSAFunction::new("correct_conditional".to_string(), 1);
    func.blocks.push(BasicBlock::new(BlockId(1)));
    func.blocks.push(BasicBlock::new(BlockId(2)));
    func.blocks.push(BasicBlock::new(BlockId(3)));
    func.blocks[0].instructions = vec![
        SSAInstruction::LoadInt { dest: Register(1), value: 10 },
        SSAInstruction::BinaryOp { dest: Register(2), op: BinaryOperator::Gt, left: Register(0), right: Register(1) },
        SSAInstruction::Branch { condition: Register(2), true_block: BlockId(1), false_block: BlockId(2) },
    ];
    func.blocks[1].instructions = vec![
        SSAInstruction::LoadInt { dest: Register(3), value: 2 },
        SSAInstruction::BinaryOp { dest: Register(4), op: BinaryOperator::Mul, left: Register(0), right: Register(3) },
        SSAInstruction::Jump { target: BlockId(3) },
    ];
    func.blocks[2].instructions = vec![
        SSAInstruction::LoadInt { dest: Register(5), value: 1 },
        SSAInstruction::BinaryOp { dest: Register(6), op: BinaryOperator::Add, left: Register(0), right: Register(5) },
        SSAInstruction::Jump { target: BlockId(3) },
    ];
    func.blocks[3].instructions = vec![
        SSAInstruction::Phi { dest: Register(7), incoming: vec![(BlockId(1), Register(4)), (BlockId(2), Register(6))] },
        SSAInstruction::Return { values: vec![Register(7)] },
    ];
    let result = func.validate();
    assert!(result.is_ok(), "Well-formed SSA should pass validation: {:?}", result);
}

#[test]
fn test_validation_catches_malformed_phi() {
    let mut func = SSAFunction::new("buggy_phi_placement".to_string(), 1);
    func.blocks.push(BasicBlock::new(BlockId(1)));
    func.blocks.push(BasicBlock::new(BlockId(2)));
    func.blocks[0].instructions =
        vec![SSAInstruction::Branch { condition: Register(0), true_block: BlockId(1), false_block: BlockId(2) }];
    func.blocks[1].instructions = vec![SSAInstruction::Jump { target: BlockId(2) }];
    func.blocks[2].instructions = vec![
        SSAInstruction::LoadInt { dest: Register(1), value: 42 },
        SSAInstruction::Phi { dest: Register(2), incoming: vec![(BlockId(0), Register(0)), (BlockId(1), Register(0))] },
        SSAInstruction::Return { values: vec![Register(2)] },
    ];
    let result = func.validate();
    assert!(result.is_err(), "Validation should catch misplaced Phi node");
    let err = result.unwrap_err();
    assert!(err.message().contains("not at start"));
}

#[test]
fn test_validation_performance_on_large_function() {
    let mut func = SSAFunction::new("large_function".to_string(), 1);
    let mut reg = 0;
    for i in 0..1000 {
        func.blocks[0].instructions.push(SSAInstruction::LoadInt { dest: Register(reg + 1), value: i });
        func.blocks[0].instructions.push(SSAInstruction::BinaryOp {
            dest: Register(reg + 2),
            op: BinaryOperator::Add,
            left: Register(reg),
            right: Register(reg + 1),
        });
        reg += 2;
    }
    func.blocks[0].instructions.push(SSAInstruction::Return { values: vec![Register(reg)] });
    let start = std::time::Instant::now();
    let result = func.validate();
    let duration = start.elapsed();
    assert!(result.is_ok(), "Large valid function should pass validation");
    assert!(duration.as_millis() < 100, "Validation should be fast, took {:?}", duration);
}
