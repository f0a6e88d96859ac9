use eqsat::checker::check_match;
use eqsat::egraph::EGraph;
use eqsat::rewrite::Rewrite;
use eqsat::rules::rules;
use eqsat::runner::{iterate, run, StopReason, DEFAULT_NODE_LIMIT};
use eqsat::term::{Constant, InvalidNumberError, Node, Op, Symbol};

const A: u32 = 1;
const B: u32 = 2;
const C: u32 = 3;

fn sym(id: u32) -> Node {
    Node::Symbol(Symbol { id })
}

fn num(x: f64) -> Node {
    Node::Constant(Constant::from_bits(x.to_bits()).unwrap())
}

fn wild() -> Node {
    Node::Symbol(Symbol::wildcard())
}

fn root_of(g: &mut EGraph, e: &Vec<Node>) -> usize {
    let ids = g.add_expr(e);
    *ids.last().unwrap()
}

fn only_rule(name: &str) -> Vec<Rewrite> {
    rules().into_iter().filter(|r| r.name == name).collect()
}

/// (* A (+ B C))
fn a_times_b_plus_c(c: u32) -> Vec<Node> {
    vec![sym(A), sym(B), sym(c), Node::Bin(Op::Add, 1, 2), Node::Bin(Op::Mul, 0, 3)]
}

#[test]
fn factoring_is_found_after_saturation() {
    let mut g = EGraph::new();
    let source = vec![sym(A), sym(B), Node::Bin(Op::Mul, 0, 1), sym(C), Node::Bin(Op::Mul, 0, 3), Node::Bin(Op::Add, 2, 4)];
    let root = root_of(&mut g, &source);
    let report = run(&mut g, &rules(), 5, DEFAULT_NODE_LIMIT);
    assert!(report.iterations <= 5);
    let target = a_times_b_plus_c(C);
    assert!(check_match(&g, root, &target, target.len() - 1));
}

#[test]
fn distinct_left_factors_do_not_match() {
    let mut g = EGraph::new();
    let source = vec![sym(A), sym(B), Node::Bin(Op::Mul, 0, 1), sym(C), wild(), Node::Bin(Op::Mul, 3, 4), Node::Bin(Op::Add, 2, 5)];
    let root = root_of(&mut g, &source);
    run(&mut g, &rules(), 5, DEFAULT_NODE_LIMIT);
    let target = a_times_b_plus_c(C);
    assert!(!check_match(&g, root, &target, target.len() - 1));
}

#[test]
fn wildcard_accepts_any_symbol() {
    let pattern = vec![sym(A), sym(B), wild(), Node::Bin(Op::Add, 1, 2), Node::Bin(Op::Mul, 0, 3)];
    for c in [C, 7, 42] {
        let mut g = EGraph::new();
        let root = root_of(&mut g, &a_times_b_plus_c(c));
        assert!(check_match(&g, root, &pattern, 4));
    }
}

#[test]
fn wildcard_does_not_hide_operator_mismatch() {
    let pattern = vec![sym(A), sym(B), wild(), Node::Bin(Op::Add, 1, 2), Node::Bin(Op::Mul, 0, 3)];
    let mut g = EGraph::new();
    let source = vec![sym(A), sym(B), sym(C), Node::Bin(Op::Add, 1, 2), Node::Bin(Op::Add, 0, 3)];
    let root = root_of(&mut g, &source);
    assert!(!check_match(&g, root, &pattern, 4));
}

#[test]
fn symbols_and_constants_must_be_equal_without_wildcard() {
    let mut g = EGraph::new();
    let root = root_of(&mut g, &vec![sym(A), num(2.0), Node::Bin(Op::Add, 0, 1)]);
    assert!(check_match(&g, root, &vec![sym(A), num(2.0), Node::Bin(Op::Add, 0, 1)], 2));
    assert!(!check_match(&g, root, &vec![sym(B), num(2.0), Node::Bin(Op::Add, 0, 1)], 2));
    assert!(!check_match(&g, root, &vec![sym(A), num(3.0), Node::Bin(Op::Add, 0, 1)], 2));
    assert!(!check_match(&g, root, &vec![sym(A), sym(A), Node::Bin(Op::Add, 0, 1)], 2));
}

#[test]
fn zero_identity_merges_with_constant() {
    let mut g = EGraph::new();
    let root = root_of(&mut g, &vec![num(5.0), num(0.0), Node::Bin(Op::Add, 0, 1)]);
    let five = root_of(&mut g, &vec![num(5.0)]);
    assert_ne!(g.find(root), g.find(five));
    let changed = iterate(&mut g, &only_rule("zero-add"));
    assert!(changed);
    assert_eq!(g.find(root), g.find(five));
}

#[test]
fn adding_twice_gives_same_class() {
    let mut g = EGraph::new();
    let e = vec![sym(A), sym(B), Node::Bin(Op::Mul, 0, 1)];
    let first = root_of(&mut g, &e);
    let len = g.len();
    let second = root_of(&mut g, &e);
    assert_eq!(first, second);
    assert_eq!(g.len(), len);
}

#[test]
fn unions_chain_transitively() {
    let mut g = EGraph::new();
    let a = g.add(sym(A));
    let b = g.add(sym(B));
    let c = g.add(sym(C));
    assert!(g.union(a, b));
    assert_eq!(g.find(a), g.find(b));
    assert_ne!(g.find(a), g.find(c));
    assert!(g.union(b, c));
    assert_eq!(g.find(a), g.find(c));
    assert!(!g.union(c, a));
}

#[test]
fn rebuild_restores_congruence() {
    let mut g = EGraph::new();
    let a = g.add(sym(A));
    let a2 = g.add(sym(7));
    let b = g.add(sym(B));
    let b2 = g.add(sym(8));
    let x = g.add(Node::Bin(Op::Add, a, b));
    let y = g.add(Node::Bin(Op::Add, a2, b2));
    assert_ne!(g.find(x), g.find(y));
    g.union(a, a2);
    g.union(b, b2);
    g.rebuild();
    assert_eq!(g.find(x), g.find(y));
    let len = g.len();
    let p = g.add(Node::Bin(Op::Add, a, b));
    let q = g.add(Node::Bin(Op::Add, a2, b2));
    assert_eq!(g.find(p), g.find(q));
    assert_eq!(g.len(), len);
}

#[test]
fn expansive_rules_stop_at_the_bound() {
    let mut g = EGraph::new();
    root_of(&mut g, &vec![sym(A)]);
    let report = run(&mut g, &rules(), 2, DEFAULT_NODE_LIMIT);
    assert_eq!(report.stop, StopReason::IterationLimit);
    assert_eq!(report.iterations, 2);
}

#[test]
fn node_bound_stops_growth() {
    let mut g = EGraph::new();
    let source = vec![sym(A), sym(B), Node::Bin(Op::Mul, 0, 1), sym(C), Node::Bin(Op::Mul, 0, 3), Node::Bin(Op::Add, 2, 4)];
    root_of(&mut g, &source);
    let report = run(&mut g, &rules(), 50, 100);
    assert_eq!(report.stop, StopReason::NodeLimit);
    assert!(g.len() > 100);
    assert!(report.iterations < 50);
}

#[test]
fn saturated_graph_stays_put() {
    let mut g = EGraph::new();
    root_of(&mut g, &vec![sym(A), sym(B), Node::Bin(Op::Add, 0, 1)]);
    let comm = only_rule("comm-add");
    let report = run(&mut g, &comm, 10, DEFAULT_NODE_LIMIT);
    assert_eq!(report.stop, StopReason::Saturated);
    assert!(report.iterations >= 1 && report.iterations <= 10);
    let nodes = g.nodes.clone();
    let parent = g.parent.clone();
    let again = run(&mut g, &comm, 10, DEFAULT_NODE_LIMIT);
    assert_eq!(again.stop, StopReason::Saturated);
    assert_eq!(again.iterations, 1);
    assert_eq!(g.nodes, nodes);
    assert_eq!(g.parent, parent);
}

#[test]
fn commutativity_is_discovered() {
    let mut g = EGraph::new();
    let root = root_of(&mut g, &vec![sym(A), sym(B), Node::Bin(Op::Mul, 0, 1)]);
    run(&mut g, &only_rule("comm-mul"), 3, DEFAULT_NODE_LIMIT);
    assert!(check_match(&g, root, &vec![sym(B), sym(A), Node::Bin(Op::Mul, 0, 1)], 2));
}

#[test]
fn cancellation_gives_zero() {
    let mut g = EGraph::new();
    let root = root_of(&mut g, &vec![sym(A), Node::Bin(Op::Sub, 0, 0)]);
    run(&mut g, &only_rule("cancel-sub"), 3, DEFAULT_NODE_LIMIT);
    assert!(check_match(&g, root, &vec![num(0.0)], 0));
}

#[test]
fn constants_refuse_nan_and_fold_negative_zero() {
    assert_eq!(Constant::from_bits(f64::NAN.to_bits()), Err(InvalidNumberError::NotANumber));
    assert_eq!(Constant::from_bits((-0.0f64).to_bits()).unwrap(), Constant::from_bits(0.0f64.to_bits()).unwrap());
    assert_eq!(Constant::from_bits(2.5f64.to_bits()).unwrap().bits(), 2.5f64.to_bits());
    assert!(Constant::from_bits(f64::INFINITY.to_bits()).is_ok());
}

#[test]
fn rule_list_is_complete() {
    let names: Vec<&str> = rules().iter().map(|r| r.name).collect();
    assert_eq!(
        names,
        vec!["comm-add", "comm-mul", "assoc-add", "assoc-mul", "sub-canon", "zero-add", "zero-mul", "one-mul", "add-zero", "mul-one", "cancel-sub", "distribute", "factor"]
    );
}

#[test]
fn subtraction_becomes_addition_of_negation() {
    let mut g = EGraph::new();
    let root = root_of(&mut g, &vec![sym(A), sym(B), Node::Bin(Op::Sub, 0, 1)]);
    let changed = iterate(&mut g, &only_rule("sub-canon"));
    assert!(changed);
    let target = vec![sym(A), num(-1.0), sym(B), Node::Bin(Op::Mul, 1, 2), Node::Bin(Op::Add, 0, 3)];
    assert!(check_match(&g, root, &target, 4));
    assert!(!check_match(&g, root, &vec![sym(A), num(1.0), sym(B), Node::Bin(Op::Mul, 1, 2), Node::Bin(Op::Add, 0, 3)], 4));
}

#[test]
fn division_is_left_alone() {
    let mut g = EGraph::new();
    let root = root_of(&mut g, &vec![sym(A), sym(B), Node::Bin(Op::Div, 0, 1)]);
    run(&mut g, &only_rule("comm-mul"), 3, DEFAULT_NODE_LIMIT);
    assert!(check_match(&g, root, &vec![sym(A), sym(B), Node::Bin(Op::Div, 0, 1)], 2));
    assert!(!check_match(&g, root, &vec![sym(B), sym(A), Node::Bin(Op::Div, 0, 1)], 2));
}

#[test]
fn two_wildcards_bind_independently() {
    let mut g = EGraph::new();
    let root = root_of(&mut g, &vec![sym(A), sym(B), Node::Bin(Op::Add, 0, 1)]);
    assert!(check_match(&g, root, &vec![wild(), wild(), Node::Bin(Op::Add, 0, 1)], 2));
}

#[test]
fn graph_starts_empty_and_nodes_are_shared() {
    let mut g = EGraph::new();
    assert_eq!(g.len(), 0);
    let ids = g.add_expr(&vec![sym(A), sym(A), Node::Bin(Op::Add, 0, 1)]);
    assert_eq!(ids[0], ids[1]);
    assert_eq!(g.len(), 2);
    assert_eq!(g.node(ids[2]), Node::Bin(Op::Add, ids[0], ids[0]));
}
