use fastforth::frontend::ast::Word;
use fastforth::frontend::error::ForthError;
use fastforth::frontend::parser::parse_program;

#[test]
fn test_basic_pipeline() {
    let source = ": double 2 * ;";
    let program = parse_program(source).expect("Failed to parse");
    assert_eq!(program.definitions.len(), 1);
}

#[test]
fn test_parse_error_unclosed_definition() {
    let source = ": incomplete ( n -- n )";
    let result = parse_program(source);

    assert!(result.is_err(), "Should fail on unclosed definition");
    let err = result.unwrap_err();
    assert!(
        err.message().contains("Expected") || err.message().contains("Unterminated"),
        "Error should mention missing terminator: {}",
        err.message()
    );
}

#[test]
fn test_parse_error_unexpected_eof_in_definition() {
    let source = ": test ( n --";
    let result = parse_program(source);

    assert!(result.is_err(), "Should fail on unexpected EOF in definition");
    let err = result.unwrap_err();
    assert!(
        err.message().contains("Parse error")
            || err.message().contains("EOF")
            || err.message().contains("Unclosed")
            || err.message().contains("Lex"),
        "Error should mention parse error or EOF: {}",
        err.message()
    );
}

#[test]
fn test_parse_error_unexpected_eof_in_stack_comment() {
    let source = ": test ( n --";
    let result = parse_program(source);

    assert!(result.is_err(), "Should fail on unclosed stack comment");
}

#[test]
fn test_parse_error_invalid_number_literal() {
    let source = ": test 999999999999999999999999999999 ;";
    let result = parse_program(source);

    if let Ok(program) = result {
        assert_eq!(program.definitions.len(), 1);
    }
}

#[test]
fn test_parse_error_invalid_stack_effect_syntax() {
    let source = ": test ( n n -- ) ;";
    let result = parse_program(source);

    if let Ok(program) = result {
        assert_eq!(program.definitions.len(), 1);
    }
}

#[test]
fn test_parse_error_nested_definitions() {
    let source = r#"
        : outer ( n -- n )
            : inner ( n -- n ) dup ;
            inner ;
    "#;
    let result = parse_program(source);

    if let Ok(_program) = result {}
}

#[test]
fn test_empty_program() {
    let source = "";
    let result = parse_program(source);

    assert!(result.is_ok(), "Empty program should parse successfully");
    let program = result.unwrap();
    assert_eq!(program.definitions.len(), 0);
}

#[test]
fn test_only_comments() {
    let source = r#"
        ( This is a comment )
        \ This is also a comment
        ( Another comment )
    "#;
    let result = parse_program(source);

    assert!(result.is_ok(), "Program with only comments should parse");
    if let Ok(program) = result {
        assert_eq!(program.definitions.len(), 0);
    }
}

#[test]
fn test_very_long_word_name() {
    let long_name = "a".repeat(1000);
    let source = format!(": {} 1 + ;", long_name);

    let result = parse_program(&source);

    assert!(result.is_ok() || result.is_err());
}

#[test]
fn test_do_loop() {
    let source = r#"
        : print-range ( start end -- )
            DO
                i .
            LOOP ;
    "#;

    let _program = parse_program(source).expect("Failed to parse");
}

#[test]
fn test_immediate_words() {
    let source = r#"
        : [char] ( -- c )
            char
        ; IMMEDIATE
    "#;

    let program = parse_program(source).expect("Failed to parse");
    assert_eq!(program.definitions.len(), 1);
    assert!(program.definitions[0].immediate);
}

#[test]
fn test_string_literals() {
    let _source = r#"
        : hello ( -- )
            ." Hello, World!" cr ;
    "#;
}

#[test]
fn test_performance_large_program() {
    let mut source = String::new();

    for i in 0..100 {
        source.push_str(&format!(": func{} {} + ;\n", i, i));
    }

    let start = std::time::Instant::now();
    let program = parse_program(&source).expect("Failed to parse");
    let duration = start.elapsed();

    assert_eq!(program.definitions.len(), 100);

    assert!(duration.as_millis() < 50, "Parsing took too long: {:?}", duration);
}

#[test]
fn test_edge_cases() {
    let source = ": noop ;";
    let program = parse_program(source).expect("Failed to parse");
    assert_eq!(program.definitions.len(), 1);
    assert!(program.definitions[0].body.is_empty());

    let source = ": identity dup drop ;";
    let program = parse_program(source).expect("Failed to parse");
    assert_eq!(program.definitions[0].body.len(), 2);
}

#[test]
fn test_multiple_spaces_between_tokens() {
    let source = ":    double     2     *     ;";
    let program = parse_program(source).expect("Failed to parse");
    assert_eq!(program.definitions.len(), 1);
    assert_eq!(program.definitions[0].name, "double");
    assert_eq!(program.definitions[0].body.len(), 2);
}

#[test]
fn test_tabs_and_spaces_mixed() {
    let source = ":\tdouble\t2\t*\t;";
    let program = parse_program(source).expect("Failed to parse");
    assert_eq!(program.definitions.len(), 1);
    assert_eq!(program.definitions[0].name, "double");
}

#[test]
fn test_leading_trailing_whitespace() {
    let source = "   \n\t  : double 2 * ;  \n\t   ";
    let program = parse_program(source).expect("Failed to parse");
    assert_eq!(program.definitions.len(), 1);
    assert_eq!(program.definitions[0].name, "double");
}

#[test]
fn test_empty_lines_between_definitions() {
    let source = r#"
        : first 1 ;



        : second 2 ;

    "#;
    let program = parse_program(source).expect("Failed to parse");
    assert_eq!(program.definitions.len(), 2);
    assert_eq!(program.definitions[0].name, "first");
    assert_eq!(program.definitions[1].name, "second");
}

#[test]
fn test_newlines_in_definition() {
    let source = r#"
        : triple
            3
            *
        ;
    "#;
    let program = parse_program(source).expect("Failed to parse");
    assert_eq!(program.definitions.len(), 1);
    assert_eq!(program.definitions[0].body.len(), 2);
}

#[test]
fn test_nested_parenthesized_comments() {
    let source = ": test ( outer ( inner ) still-comment ) 1 ;";
    let program = parse_program(source).expect("Failed to parse");
    assert_eq!(program.definitions.len(), 1);
    assert_eq!(program.definitions[0].body.len(), 1);
}

#[test]
fn test_comment_after_colon() {
    let source = r#"
        : ( this is a comment right after colon ) test 1 ;
    "#;
    let program = parse_program(source).expect("Failed to parse");
    assert_eq!(program.definitions.len(), 1);
    assert_eq!(program.definitions[0].name, "test");
}

#[test]
fn test_line_comment_with_backslash() {
    let source = r#"
        \ This is a line comment
        : test 1 ;
        \ Another comment
    "#;
    let program = parse_program(source).expect("Failed to parse");
    assert_eq!(program.definitions.len(), 1);
    assert_eq!(program.definitions[0].name, "test");
}

#[test]
fn test_negative_numbers_in_stack_effect() {
    let source = ": test ( n -- n-1 ) -1 + ;";
    let program = parse_program(source).expect("Failed to parse");
    assert_eq!(program.definitions.len(), 1);
    assert!(program.definitions[0].stack_effect.is_some());
}

#[test]
fn test_forward_reference_in_definition() {
    let source = r#"
        : first second third ;
        : second 2 ;
        : third 3 ;
    "#;
    let program = parse_program(source).expect("Failed to parse");
    assert_eq!(program.definitions.len(), 3);
}

#[test]
fn test_word_names_with_special_characters() {
    let source = ": 2dup dup dup ; : >r ; : r> ; : @ ; : ! ;";
    let program = parse_program(source).expect("Failed to parse");
    assert_eq!(program.definitions.len(), 5);
    assert_eq!(program.definitions[0].name, "2dup");
    assert_eq!(program.definitions[1].name, ">r");
    assert_eq!(program.definitions[2].name, "r>");
    assert_eq!(program.definitions[3].name, "@");
    assert_eq!(program.definitions[4].name, "!");
}

#[test]
fn test_immediate_word_flag() {
    let source = ": test ; IMMEDIATE";
    let program = parse_program(source).expect("Failed to parse");
    assert_eq!(program.definitions.len(), 1);
    assert!(program.definitions[0].immediate);
}

#[test]
fn test_unterminated_definition() {
    let source = ": test 1 2 3";
    let result = parse_program(source);
    assert!(result.is_err());

    if let Err(ForthError::ParseError { message, .. }) = result {
        assert!(message.contains("Unterminated"));
    } else {
        panic!("Expected ParseError");
    }
}

#[test]
fn test_unterminated_if() {
    let source = ": test IF 1 2 3 ;";
    let result = parse_program(source);
    assert!(result.is_err());

    if let Err(ForthError::ParseError { message, .. }) = result {
        assert!(message.contains("Unexpected token") || message.contains("Unterminated IF"));
    } else {
        panic!("Expected ParseError");
    }
}

#[test]
fn test_unterminated_begin_until() {
    let source = ": test BEGIN 1 2 3 ;";
    let result = parse_program(source);
    assert!(result.is_err());

    if let Err(ForthError::ParseError { message, .. }) = result {
        assert!(message.contains("Unexpected token") || message.contains("Unterminated BEGIN"));
    } else {
        panic!("Expected ParseError");
    }
}

#[test]
fn test_unterminated_do_loop() {
    let source = ": test 10 0 DO i ;";
    let result = parse_program(source);
    assert!(result.is_err());

    if let Err(ForthError::ParseError { message, .. }) = result {
        assert!(message.contains("Unexpected token") || message.contains("Unterminated DO"));
    } else {
        panic!("Expected ParseError");
    }
}

#[test]
fn test_constant_without_value() {
    let source = "CONSTANT x";
    let result = parse_program(source);
    assert!(result.is_err());

    if let Err(ForthError::ParseError { message, .. }) = result {
        assert!(message.contains("constant value"));
    } else {
        panic!("Expected ParseError");
    }
}

#[test]
fn test_stack_effect_with_no_separator() {
    let source = ": test ( a b c ) 1 ;";
    let program = parse_program(source).expect("Failed to parse");
    assert_eq!(program.definitions.len(), 1);
}

#[test]
fn test_multiple_definitions_same_line() {
    let source = ": first 1 ; : second 2 ; : third 3 ;";
    let program = parse_program(source).expect("Failed to parse");
    assert_eq!(program.definitions.len(), 3);
    assert_eq!(program.definitions[0].name, "first");
    assert_eq!(program.definitions[1].name, "second");
    assert_eq!(program.definitions[2].name, "third");
}

#[test]
fn test_very_large_positive_number() {
    let source = ": test 9223372036854775807 ;";
    let program = parse_program(source).expect("Failed to parse");
    assert_eq!(program.definitions.len(), 1);
    match &program.definitions[0].body[0] {
        Word::IntLiteral(n) => assert_eq!(*n, i64::MAX),
        _ => panic!("Expected IntLiteral"),
    }
}

#[test]
fn test_very_large_negative_number() {
    let source = ": test -9223372036854775808 ;";
    let program = parse_program(source).expect("Failed to parse");
    assert_eq!(program.definitions.len(), 1);
    match &program.definitions[0].body[0] {
        Word::IntLiteral(n) => assert_eq!(*n, i64::MIN),
        _ => panic!("Expected IntLiteral"),
    }
}

#[test]
fn test_variable_and_constant_declarations() {
    let source = r#"
        VARIABLE x
        VARIABLE y
        42 CONSTANT answer
        -1 CONSTANT true
    "#;
    let program = parse_program(source).expect("Failed to parse");

    let var_count = program.top_level_code.iter().filter(|w| matches!(w, Word::Variable { .. })).count();
    assert_eq!(var_count, 2);

    let const_count = program.top_level_code.iter().filter(|w| matches!(w, Word::Constant { .. })).count();
    assert_eq!(const_count, 2);
}

#[test]
fn test_do_loop_with_empty_body() {
    let source = ": test 10 0 DO LOOP ;";
    let program = parse_program(source).expect("Failed to parse");
    assert_eq!(program.definitions.len(), 1);

    match &program.definitions[0].body[2] {
        Word::DoLoop { body, .. } => assert!(body.is_empty()),
        _ => panic!("Expected DoLoop structure"),
    }
}

#[test]
fn test_mixed_float_and_int_literals() {
    let source = ": test 1 2.0 3 4.5e-10 5 ;";
    let program = parse_program(source).expect("Failed to parse");
    assert_eq!(program.definitions.len(), 1);
    assert_eq!(program.definitions[0].body.len(), 5);

    assert!(matches!(program.definitions[0].body[0], Word::IntLiteral(_)));
    assert!(matches!(program.definitions[0].body[1], Word::FloatLiteral(_)));
    assert!(matches!(program.definitions[0].body[2], Word::IntLiteral(_)));
    assert!(matches!(program.definitions[0].body[3], Word::FloatLiteral(_)));
    assert!(matches!(program.definitions[0].body[4], Word::IntLiteral(_)));
}
