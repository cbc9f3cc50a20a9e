use csrre_core::scope::CounterfactualScope;
use csrre_core::types::{NodeId, EdgeId};

#[test]
fn scope_bounded_by_budget() {
    let adj = |n: NodeId| -> Vec<(NodeId, EdgeId)> {
        if n < 5 { vec![(n + 1, n * 10)] } else { vec![] }
    };
    let scope = CounterfactualScope::build(30, 0, 3, adj);
    assert!(scope.node_count() <= 3);
}

#[test]
fn intervened_edge_excluded() {
    let adj = |n: NodeId| -> Vec<(NodeId, EdgeId)> {
        match n {
            0 => vec![(1, 10), (2, 20)],
            1 => vec![(3, 30)],
            _ => vec![],
        }
    };
    let scope = CounterfactualScope::build(10, 0, 10, adj);
    assert!(!scope.contains_edge(10));
    assert!(scope.contains_edge(20));
}

#[test]
fn scope_reaches_everything_within_budget() {
    let adj = |n: NodeId| -> Vec<(NodeId, EdgeId)> {
        match n {
            0 => vec![(1, 10), (2, 20)],
            1 => vec![(3, 30)],
            2 => vec![(3, 40), (0, 50)],
            _ => vec![],
        }
    };
    let scope = CounterfactualScope::build(99, 0, 100, adj);
    assert_eq!(scope.node_count(), 4);
    for n in 0..4 { assert!(scope.contains_node(n)); }
    for e in [10, 20, 30, 40, 50] { assert!(scope.contains_edge(e)); }
    assert!(!scope.contains_node(4));
    assert_eq!(scope.budget, 100);
    assert_eq!(scope.intervened_edge, 99);
}

#[test]
fn intervened_edge_cuts_off_its_target() {
    let adj = |n: u64| -> Vec<(u64, u64)> {
        match n {
            0 => vec![(1, 10), (2, 20)],
            1 => vec![(3, 30)],
            _ => vec![],
        }
    };
    let s = CounterfactualScope::build(10, 0, 10, adj);
    assert!(!s.contains_edge(10));
    assert!(s.contains_edge(20));
    assert!(s.contains_node(2));
    assert!(!s.contains_node(1));
    assert!(!s.contains_node(3));
    assert_eq!(s.node_count(), 2);
}

#[test]
fn budget_caps_nodes_within_one_expansion() {
    // the root lists five neighbours; a budget of three stops after two of them
    let adj = |n: u64| -> Vec<(u64, u64)> {
        if n == 0 { vec![(1, 1), (2, 2), (3, 3), (4, 4), (5, 5)] } else { vec![] }
    };
    let s = CounterfactualScope::build(99, 0, 3, adj);
    assert_eq!(s.node_count(), 3);
    assert!(s.contains_node(0) && s.contains_node(1) && s.contains_node(2));
    assert!(!s.contains_node(3));
    assert!(s.contains_edge(1) && s.contains_edge(2));
    assert!(!s.contains_edge(3));
    // a zero budget keeps the root alone
    let z = CounterfactualScope::build(99, 0, 0, adj);
    assert_eq!(z.node_count(), 1);
    assert!(z.contains_node(0));
}

#[test]
fn nothing_is_reached_through_the_intervened_edge() {
    // 1 and 2 form a cycle that only the intervened edge 10 leads into
    let adj = |n: u64| -> Vec<(u64, u64)> {
        match n {
            0 => vec![(1, 10)],
            1 => vec![(2, 12)],
            2 => vec![(1, 21)],
            _ => vec![],
        }
    };
    let s = CounterfactualScope::build(10, 0, 10, adj);
    assert_eq!(s.node_count(), 1);
    assert!(s.contains_node(0));
    assert!(!s.contains_node(1) && !s.contains_node(2));
    assert!(!s.contains_edge(10) && !s.contains_edge(12) && !s.contains_edge(21));
}
