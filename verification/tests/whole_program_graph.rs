use fastforth::optimizer::ir::{ForthIR, Instruction, WordDef};
use fastforth::optimizer::pipeline::OptimizationLevel;
use fastforth::optimizer::whole_program::{CallGraph, WholeProgramOptimizer};

fn create_test_ir_with_dead_code() -> ForthIR {
    let mut ir = ForthIR::new();
    let unused = WordDef::new("unused".to_string(), vec![Instruction::Literal(2), Instruction::Mul]);
    ir.add_word(unused);
    let helper = WordDef::new("helper".to_string(), vec![Instruction::Literal(5), Instruction::Add]);
    ir.add_word(helper);
    ir.main = vec![Instruction::Literal(10), Instruction::Call("helper".to_string())];
    ir
}

#[test]
fn whole_program_test_call_graph_construction() {
    let ir = create_test_ir_with_dead_code();
    let call_graph = CallGraph::build(&ir);
    assert_eq!(call_graph.nodes.len(), 3);
    assert!(!call_graph.entry_points.is_empty());
}

#[test]
fn test_find_unreachable_words() {
    let ir = create_test_ir_with_dead_code();
    let call_graph = CallGraph::build(&ir);
    let unreachable = call_graph.find_unreachable();
    assert!(unreachable.contains(&"unused".to_string()));
    assert!(!unreachable.contains(&"helper".to_string()));
}

#[test]
fn test_eliminate_dead_words() {
    let ir = create_test_ir_with_dead_code();
    let call_graph = CallGraph::build(&ir);
    let unreachable = call_graph.find_unreachable();
    assert!(unreachable.contains(&"unused".to_string()));
    assert!(!unreachable.contains(&"helper".to_string()));
}

#[test]
fn test_recursive_detection() {
    let mut ir = ForthIR::new();
    let factorial = WordDef::new(
        "factorial".to_string(),
        vec![
            Instruction::Dup,
            Instruction::Literal(1),
            Instruction::Le,
            Instruction::Call("factorial".to_string()),
        ],
    );
    ir.add_word(factorial);
    let call_graph = CallGraph::build(&ir);
    assert!(call_graph.is_recursive("factorial"));
}

#[test]
fn dead_words_are_removed_and_live_ones_kept() {
    let ir = create_test_ir_with_dead_code();
    let call_graph = CallGraph::build(&ir);
    let wpo = WholeProgramOptimizer::new(OptimizationLevel::Basic);
    let out = wpo.eliminate_dead_words(&ir, &call_graph).unwrap();
    assert_eq!(out.main, ir.main);
    assert_eq!(out.words.len(), 1);
    assert_eq!(out.words[0].name, "helper");
    assert_eq!(out.words[0].instructions, vec![Instruction::Literal(5), Instruction::Add]);
}

#[test]
fn words_reached_through_other_words_stay() {
    let mut ir = ForthIR::new();
    ir.add_word(WordDef::new("c".to_string(), vec![Instruction::Literal(1)]));
    ir.add_word(WordDef::new("b".to_string(), vec![Instruction::Call("c".to_string())]));
    ir.add_word(WordDef::new("a".to_string(), vec![Instruction::Call("b".to_string())]));
    ir.add_word(WordDef::new("lonely".to_string(), vec![Instruction::Literal(7)]));
    ir.main = vec![Instruction::Call("a".to_string())];
    let call_graph = CallGraph::build(&ir);
    assert_eq!(call_graph.find_unreachable(), vec!["lonely".to_string()]);
    assert!(!call_graph.is_recursive("a"));
    assert_eq!(call_graph.get_call_count("c"), 1);
    let out = WholeProgramOptimizer::new(OptimizationLevel::Basic).eliminate_dead_words(&ir, &call_graph).unwrap();
    let names: Vec<String> = out.words.iter().map(|w| w.name.clone()).collect();
    assert_eq!(names, vec!["c".to_string(), "b".to_string(), "a".to_string()]);
}

#[test]
fn constants_propagate_through_main_and_words() {
    let mut ir = ForthIR::new();
    ir.add_word(WordDef::new(
        "seven".to_string(),
        vec![Instruction::Literal(3), Instruction::Literal(4), Instruction::Add],
    ));
    ir.main = vec![Instruction::Literal(2), Instruction::Literal(3), Instruction::Mul];
    let wpo = WholeProgramOptimizer::new(OptimizationLevel::Standard);
    let out = wpo.apply_constant_propagation(&ir).unwrap();
    assert_eq!(out.main, vec![Instruction::Literal(6)]);
    assert_eq!(out.words[0].instructions, vec![Instruction::Literal(7)]);
    assert_eq!(out.words[0].cost, 1);
    assert_eq!(out.words[0].stack_effect.consumed, 0);
    assert_eq!(out.words[0].stack_effect.produced, 1);
}

#[test]
fn specialization_opportunities_need_one_constant() {
    let mut ir = ForthIR::new();
    ir.add_word(WordDef::new("inc".to_string(), vec![Instruction::Literal(1), Instruction::Add]));
    ir.add_word(WordDef::new("twice".to_string(), vec![Instruction::Dup, Instruction::Add]));
    ir.main = vec![
        Instruction::Literal(4),
        Instruction::Call("inc".to_string()),
        Instruction::Literal(4),
        Instruction::Call("inc".to_string()),
        Instruction::Literal(1),
        Instruction::Call("twice".to_string()),
        Instruction::Literal(2),
        Instruction::Call("twice".to_string()),
    ];
    let call_graph = CallGraph::build(&ir);
    let wpo = WholeProgramOptimizer::new(OptimizationLevel::Aggressive);
    let opps = wpo.find_specialization_opportunities(&ir, &call_graph);
    assert_eq!(opps, vec![("inc".to_string(), 4)]);
}

#[test]
fn calls_after_the_constant_go_to_the_specialized_word() {
    let mut ir = ForthIR::new();
    ir.add_word(WordDef::new(
        "user".to_string(),
        vec![Instruction::Literal(4), Instruction::Call("inc".to_string())],
    ));
    ir.main = vec![
        Instruction::Literal(4),
        Instruction::Call("inc".to_string()),
        Instruction::Literal(5),
        Instruction::Call("inc".to_string()),
    ];
    let wpo = WholeProgramOptimizer::new(OptimizationLevel::Aggressive);
    let out = wpo.replace_calls_with_specialized(&ir, "inc", "inc__specialized_4", 4).unwrap();
    assert_eq!(
        out.main,
        vec![
            Instruction::Call("inc__specialized_4".to_string()),
            Instruction::Literal(5),
            Instruction::Call("inc".to_string()),
        ]
    );
    assert_eq!(out.words[0].instructions, vec![Instruction::Call("inc__specialized_4".to_string())]);
    assert_eq!(out.words[0].cost, 1);
}

#[test]
fn test_constant_propagation() {
    let optimizer = WholeProgramOptimizer::new(OptimizationLevel::Standard);
    let mut ir = ForthIR::new();
    ir.main = vec![Instruction::Literal(2), Instruction::Literal(3), Instruction::Add];
    let optimized = optimizer.optimize(&ir).unwrap();
    assert!(optimized.verify().is_ok());
    assert!(optimized.main.len() <= ir.main.len() + 1);
}

#[test]
fn test_specialization() {
    let optimizer = WholeProgramOptimizer::new(OptimizationLevel::Standard);
    let mut ir = ForthIR::new();
    let helper = WordDef::new("helper".to_string(), vec![Instruction::Dup, Instruction::Add]);
    ir.add_word(helper);
    ir.main = vec![Instruction::Literal(10), Instruction::Call("helper".to_string())];
    let optimized = optimizer.optimize(&ir).unwrap();
    assert!(optimized.verify().is_ok());
}

#[test]
fn whole_program_passes_on_a_small_program() {
    let mut ir = ForthIR::new();
    ir.add_word(WordDef::new("unused".to_string(), vec![Instruction::Literal(2), Instruction::Mul]));
    ir.add_word(WordDef::new("helper".to_string(), vec![Instruction::Literal(5), Instruction::Add]));
    ir.main = vec![Instruction::Literal(10), Instruction::Call("helper".to_string())];

    let none = WholeProgramOptimizer::new(OptimizationLevel::Unoptimized).optimize(&ir).unwrap();
    assert_eq!(none, ir);

    let basic = WholeProgramOptimizer::new(OptimizationLevel::Basic).optimize(&ir).unwrap();
    assert_eq!(basic.main, ir.main);
    assert_eq!(basic.words.len(), 1);
    assert_eq!(basic.words[0].name, "helper");

    // helper is called once and is cheap: it is inlined, then 10 5 + folds to 15.
    let standard = WholeProgramOptimizer::new(OptimizationLevel::Standard).optimize(&ir).unwrap();
    assert!(standard.words.is_empty());
    assert_eq!(standard.main, vec![Instruction::Literal(15)]);
}

#[test]
fn aggressive_level_specializes_for_a_constant_argument() {
    let mut ir = ForthIR::new();
    ir.add_word(WordDef::new("inc".to_string(), vec![Instruction::Literal(1), Instruction::Add]));
    ir.main = vec![
        Instruction::Literal(4),
        Instruction::Call("inc".to_string()),
        Instruction::Literal(4),
        Instruction::Call("inc".to_string()),
    ];
    let out = WholeProgramOptimizer::new(OptimizationLevel::Aggressive).optimize(&ir).unwrap();
    assert_eq!(
        out.main,
        vec![
            Instruction::Call("inc__specialized_4".to_string()),
            Instruction::Call("inc__specialized_4".to_string()),
        ]
    );
    assert_eq!(out.words.len(), 2);
    assert_eq!(out.words[1].name, "inc__specialized_4");
    assert_eq!(
        out.words[1].instructions,
        vec![Instruction::Literal(4), Instruction::Literal(1), Instruction::Add]
    );
}

#[test]
fn test_topological_order() {
    let mut ir = ForthIR::new();
    let a = WordDef::new("a".to_string(), vec![Instruction::Call("b".to_string())]);
    let b = WordDef::new("b".to_string(), vec![Instruction::Call("c".to_string())]);
    let c = WordDef::new("c".to_string(), vec![Instruction::Literal(1)]);
    ir.add_word(a);
    ir.add_word(b);
    ir.add_word(c);
    let call_graph = CallGraph::build(&ir);
    let topo = call_graph.topological_order();
    assert!(!topo.is_empty());
    assert!(topo.contains(&"a".to_string()));
    assert!(topo.contains(&"b".to_string()));
    assert!(topo.contains(&"c".to_string()));
}

#[test]
fn topological_order_puts_callees_first_and_cuts_cycles() {
    let mut ir = ForthIR::new();
    ir.add_word(WordDef::new("c".to_string(), vec![Instruction::Literal(1)]));
    ir.add_word(WordDef::new("b".to_string(), vec![Instruction::Call("c".to_string())]));
    ir.add_word(WordDef::new("a".to_string(), vec![Instruction::Call("b".to_string())]));
    let topo = CallGraph::build(&ir).topological_order();
    assert_eq!(topo, vec!["c".to_string(), "b".to_string(), "a".to_string()]);

    let mut cyclic = ForthIR::new();
    cyclic.add_word(WordDef::new("x".to_string(), vec![Instruction::Call("y".to_string())]));
    cyclic.add_word(WordDef::new("y".to_string(), vec![Instruction::Call("x".to_string())]));
    let topo = CallGraph::build(&cyclic).topological_order();
    assert_eq!(topo, vec!["y".to_string(), "x".to_string()]);
}

#[test]
fn topological_order_is_bottom_up_whatever_the_definition_order() {
    let mut ir = ForthIR::new();
    ir.add_word(WordDef::new("a".to_string(), vec![Instruction::Call("b".to_string())]));
    ir.add_word(WordDef::new("b".to_string(), vec![Instruction::Call("c".to_string())]));
    ir.add_word(WordDef::new("c".to_string(), vec![Instruction::Literal(1)]));
    let topo = CallGraph::build(&ir).topological_order();
    assert_eq!(topo, vec!["c".to_string(), "b".to_string(), "a".to_string()]);
}
