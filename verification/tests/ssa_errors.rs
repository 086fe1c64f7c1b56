use fastforth::frontend::ast::{Definition, Program, SourceLocation, StackEffect, StackType, Word};
use fastforth::frontend::error::ForthError;
use fastforth::frontend::ssa::{convert_to_ssa, BlockId, Register, SSAConverter, SSAInstruction};

#[test]
fn if_arms_with_different_depths_are_rejected() {
    let def = Definition {
        name: "t".to_string(),
        body: vec![
            Word::IntLiteral(1),
            Word::If { then_branch: vec![Word::IntLiteral(2)], else_branch: None },
        ],
        immediate: false,
        stack_effect: Some(StackEffect::new(vec![], vec![])),
        location: SourceLocation::default(),
    };
    let program = Program { definitions: vec![def], top_level_code: vec![] };
    match convert_to_ssa(&program) {
        Err(ForthError::StackMismatch { word, then_depth, else_depth, .. }) => {
            assert_eq!(word, "IF-THEN-ELSE");
            assert_eq!(then_depth, 1);
            assert_eq!(else_depth, 0);
        }
        other => panic!("expected a stack mismatch, got {:?}", other),
    }
}

#[test]
fn to_r_underflow_uses_up_a_register() {
    let mut conv = SSAConverter::new();
    let mut stack: Vec<Register> = Vec::new();
    let r = conv.convert_word_call(&">r".to_string(), &mut stack);
    assert_eq!(
        r,
        Err(ForthError::StackUnderflow { word: ">r".to_string(), expected: 1, found: 0 })
    );
    assert!(stack.is_empty());
    assert_eq!(conv.next_register, 1);
}

#[test]
fn rot_works_on_a_fresh_converter() {
    let mut conv = SSAConverter::new();
    let mut stack = vec![Register(0), Register(1), Register(2)];
    assert_eq!(conv.convert_word_call(&"rot".to_string(), &mut stack), Ok(()));
    assert_eq!(stack, vec![Register(1), Register(2), Register(0)]);
}

#[test]
fn if_else_branches_to_its_arms_and_merges_with_a_phi() {
    let def = Definition {
        name: "t".to_string(),
        body: vec![Word::If {
            then_branch: vec![Word::IntLiteral(1)],
            else_branch: Some(vec![Word::IntLiteral(2)]),
        }],
        immediate: false,
        stack_effect: Some(StackEffect::new(vec![StackType::Int], vec![StackType::Int])),
        location: SourceLocation::default(),
    };
    let program = Program { definitions: vec![def], top_level_code: vec![] };
    let fs = convert_to_ssa(&program).unwrap();
    assert_eq!(fs.len(), 1);
    let b = &fs[0].blocks;
    assert_eq!(b.len(), 4);
    assert_eq!(
        b[0].instructions,
        vec![SSAInstruction::Branch { condition: Register(0), true_block: BlockId(1), false_block: BlockId(3) }]
    );
    assert_eq!(
        b[1].instructions,
        vec![SSAInstruction::LoadInt { dest: Register(1), value: 1 }, SSAInstruction::Jump { target: BlockId(2) }]
    );
    assert_eq!(
        b[3].instructions,
        vec![SSAInstruction::LoadInt { dest: Register(2), value: 2 }, SSAInstruction::Jump { target: BlockId(2) }]
    );
    assert_eq!(
        b[2].instructions,
        vec![
            SSAInstruction::Phi { dest: Register(3), incoming: vec![(BlockId(1), Register(1)), (BlockId(3), Register(2))] },
            SSAInstruction::Return { values: vec![Register(3)] },
        ]
    );
}
