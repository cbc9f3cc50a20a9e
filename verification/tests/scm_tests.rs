use csrre_core::scm::Scm;

fn pos(order: &[u64], x: u64) -> usize {
    order.iter().position(|&y| y == x).expect("node missing from the order")
}

#[test]
fn chain_is_ordered_parent_first() {
    let mut scm = Scm::new();
    scm.add_equation(2, vec![1]);
    scm.add_equation(3, vec![2]);
    assert_eq!(scm.topological_order(), vec![1, 2, 3]);
}

#[test]
fn diamond_lists_every_node_after_its_parents() {
    let mut scm = Scm::new();
    scm.add_equation(4, vec![2, 3]);
    scm.add_equation(2, vec![1]);
    scm.add_equation(3, vec![1]);
    let order = scm.topological_order();
    assert_eq!(order.len(), 4);
    assert!(pos(&order, 1) < pos(&order, 2));
    assert!(pos(&order, 1) < pos(&order, 3));
    assert!(pos(&order, 2) < pos(&order, 4));
    assert!(pos(&order, 3) < pos(&order, 4));
}

#[test]
fn cycle_and_its_descendants_are_left_out() {
    let mut scm = Scm::new();
    scm.add_equation(1, vec![2]);
    scm.add_equation(2, vec![1]);
    scm.add_equation(3, vec![1]);
    scm.add_equation(4, vec![]);
    assert_eq!(scm.topological_order(), vec![4]);
}

#[test]
fn intervention_cuts_incoming_edges() {
    let mut scm = Scm::new();
    scm.add_equation(1, vec![2]);
    scm.add_equation(2, vec![1]);
    scm.add_equation(3, vec![1]);
    let cut = scm.intervene(1);
    let order = cut.topological_order();
    assert_eq!(order.len(), 3);
    assert_eq!(order[0], 1);
    assert!(pos(&order, 1) < pos(&order, 2));
    assert!(pos(&order, 1) < pos(&order, 3));
    // The model intervened on is unchanged.
    assert!(scm.topological_order().is_empty());
}

#[test]
fn repeated_parent_counts_once_per_reading() {
    let mut scm = Scm::new();
    scm.add_equation(2, vec![1, 1]);
    assert_eq!(scm.topological_order(), vec![1, 2]);
}

#[test]
fn new_equation_replaces_the_old_one() {
    let mut scm = Scm::new();
    scm.add_equation(2, vec![1]);
    scm.add_equation(2, vec![3]);
    assert_eq!(scm.topological_order(), vec![3, 2]);
}

#[test]
fn empty_model_has_empty_order() {
    assert!(Scm::new().topological_order().is_empty());
}
