use csrre_core::bf_atms::{BfAtms, BfNode, SupportChange};
use csrre_core::env::singleton;
use csrre_core::scope::CounterfactualScope;
use csrre_core::types::{EdgeId, NodeId};

fn scope_of_pair() -> CounterfactualScope {
    let adj = |n: NodeId| -> Vec<(NodeId, EdgeId)> {
        if n == 1 { vec![(2, 7)] } else { vec![] }
    };
    CounterfactualScope::build(99, 1, 10, adj)
}

#[test]
fn intervention_retracts_dependent_labels() {
    let mut bf = BfAtms::new(scope_of_pair());
    // Node 1 labelled with assumption bit 0; node 2 labelled with bit 1.
    bf.seed_node(1, singleton(0));
    bf.seed_node(2, singleton(1));
    let active = singleton(0) | singleton(1);
    // Intervene on assumption bit 0 (the edge that node 1 depends on).
    let change = bf.run_intervention(singleton(0), active).unwrap();
    // Node 1 lost support; node 2 still supported.
    assert_eq!(change, SupportChange { before: 2, after: 1 });
    let fraction = (change.before - change.after) as f64 / change.before as f64;
    assert!(fraction > 0.0 && fraction <= 1.0);
}

#[test]
fn zero_assumption_bits_is_noop() {
    let mut bf = BfAtms::new(scope_of_pair());
    bf.seed_node(1, singleton(0));
    assert_eq!(bf.run_intervention(0, singleton(0)), None);
    // The node is still supported: a real intervention sees it before.
    assert_eq!(bf.run_intervention(singleton(5), singleton(0)), Some(SupportChange { before: 1, after: 1 }));
}

#[test]
fn empty_scope_intervention_is_noop() {
    let mut bf = BfAtms::new(scope_of_pair());
    bf.seed_node(42, singleton(0));
    assert_eq!(bf.run_intervention(singleton(0), singleton(0)), None);
}

#[test]
fn labels_stay_minimal() {
    let mut node = BfNode::new(3);
    node.add_label(0b011);
    node.add_label(0b001);
    assert_eq!(node.labels, vec![0b001]);
    node.add_label(0b111);
    assert_eq!(node.labels, vec![0b001]);
    node.add_label(0b110);
    assert_eq!(node.labels, vec![0b001, 0b110]);
    assert!(node.is_supported_in(0b101));
    assert!(!node.is_supported_in(0b100));
}

#[test]
fn label_set_is_bounded() {
    let mut node = BfNode::new(3);
    for b in 0..6u8 {
        node.add_label(singleton(b));
    }
    assert_eq!(node.labels, vec![1, 2, 4, 8]);
    assert!(!node.is_supported_in(singleton(5)));
}

#[test]
fn retraction_drops_overlapping_labels() {
    let mut node = BfNode::new(3);
    node.add_label(0b0011);
    node.add_label(0b0100);
    node.add_label(0b1000);
    node.retract_labels_using(0b0110);
    assert_eq!(node.labels, vec![0b1000]);
}
