use fastforth::optimizer::aggressive_inline::CallGraph;
use fastforth::optimizer::ir::{ForthIR, Instruction, WordDef};

fn chain() -> ForthIR {
    let mut ir = ForthIR::new();
    let c = WordDef::new("c".to_string(), vec![Instruction::Dup]);
    let b = WordDef::new("b".to_string(), vec![Instruction::Call("c".to_string())]);
    let a = WordDef::new("a".to_string(), vec![Instruction::Call("b".to_string())]);
    ir.add_word(c);
    ir.add_word(b);
    ir.add_word(a);
    ir
}

#[test]
fn aggressive_inline_test_call_graph_construction() {
    let call_graph = CallGraph::build(&chain());
    assert_eq!(call_graph.get_callees("a"), vec!["b"]);
    assert_eq!(call_graph.get_callees("b"), vec!["c"]);
    assert!(call_graph.get_callees("c").is_empty());
}

#[test]
fn test_topological_sort() {
    let call_graph = CallGraph::build(&chain());
    let topo = call_graph.topological_sort();
    assert_eq!(topo.len(), 3);
    assert!(topo.contains(&"a".to_string()));
    assert!(topo.contains(&"b".to_string()));
    assert!(topo.contains(&"c".to_string()));
    let c_pos = topo.iter().position(|s| s == "c").unwrap();
    let b_pos = topo.iter().position(|s| s == "b").unwrap();
    let a_pos = topo.iter().position(|s| s == "a").unwrap();
    assert!(c_pos < b_pos, "c should come before b, got c_pos={}, b_pos={}", c_pos, b_pos);
    assert!(b_pos < a_pos, "b should come before a, got b_pos={}, a_pos={}", b_pos, a_pos);
}

#[test]
fn call_counts_are_per_caller_and_callee() {
    let mut ir = ForthIR::new();
    ir.add_word(WordDef::new("sq".to_string(), vec![Instruction::Dup, Instruction::Mul]));
    ir.add_word(WordDef::new(
        "quad".to_string(),
        vec![Instruction::Call("sq".to_string()), Instruction::Call("sq".to_string())],
    ));
    let g = CallGraph::build(&ir);
    assert_eq!(g.nodes.len(), 2);
    assert_eq!(g.nodes[0].instruction_count, 2);
    assert_eq!(g.get_call_count("quad", "sq"), 2);
    assert_eq!(g.get_call_count("sq", "quad"), 0);
    assert_eq!(g.get_call_count("nope", "sq"), 0);
    assert_eq!(g.edges.len(), 1);
    assert!(g.get_callees("nope").is_empty());
}

#[test]
fn test_cycle_detection() {
    let mut ir = ForthIR::new();
    let factorial = WordDef::new(
        "factorial".to_string(),
        vec![Instruction::Dup, Instruction::Call("factorial".to_string())],
    );
    ir.add_word(factorial);
    let call_graph = CallGraph::build(&ir);
    let cycles = call_graph.find_cycles();
    assert_eq!(cycles.len(), 1);
    assert!(cycles[0].contains(&"factorial".to_string()));
}

#[test]
fn mutual_recursion_is_one_cycle() {
    let mut ir = ForthIR::new();
    ir.add_word(WordDef::new("even".to_string(), vec![Instruction::Call("odd".to_string())]));
    ir.add_word(WordDef::new("odd".to_string(), vec![Instruction::Call("even".to_string())]));
    ir.add_word(WordDef::new("leaf".to_string(), vec![Instruction::Dup]));
    ir.add_word(WordDef::new("top".to_string(), vec![Instruction::Call("even".to_string())]));
    let cycles = CallGraph::build(&ir).find_cycles();
    assert_eq!(cycles, vec![vec!["even".to_string(), "odd".to_string()]]);
}
