use csrre_core::atms_node::{BaseNode, NodeKind};
use csrre_core::env::singleton;
use csrre_core::justification::Justification;

#[test]
fn assumption_active_in_superset() {
    let n = BaseNode::assumption(1, 3);
    assert!(n.is_active_in(singleton(3) | singleton(5)));
}

#[test]
fn assumption_inactive_without_bit() {
    let n = BaseNode::assumption(1, 3);
    assert!(!n.is_active_in(singleton(5)));
}

#[test]
fn derived_inactive_until_labeled() {
    let n = BaseNode::derived(2);
    assert!(!n.is_active_in(singleton(0) | singleton(1)));
}

#[test]
fn set_label_first_time_always_accepted() {
    let mut n = BaseNode::derived(3);
    assert!(n.set_label(singleton(0) | singleton(1)));
    assert_eq!(n.label, Some(singleton(0) | singleton(1)));
}

#[test]
fn set_label_same_env_rejected() {
    let mut n = BaseNode::derived(3);
    n.set_label(singleton(0));
    assert!(!n.set_label(singleton(0)), "identical label must not trigger propagation");
}

#[test]
fn set_label_superset_rejected() {
    let mut n = BaseNode::derived(3);
    n.set_label(singleton(0));
    assert!(!n.set_label(singleton(0) | singleton(1)));
    assert_eq!(n.label, Some(singleton(0)));
}

#[test]
fn set_label_subset_accepted_replaces() {
    let mut n = BaseNode::derived(3);
    n.set_label(singleton(0) | singleton(1));
    assert!(n.set_label(singleton(0)));
    assert_eq!(n.label, Some(singleton(0)));
}

#[test]
fn set_label_incomparable_rejected() {
    let mut n = BaseNode::derived(4);
    n.set_label(singleton(0) | singleton(1));
    assert!(!n.set_label(singleton(2)));
    assert_eq!(n.label, Some(singleton(0) | singleton(1)));
    assert_eq!(n.kind, NodeKind::Derived);
    assert_eq!(BaseNode::assumption(9, 2).kind, NodeKind::Assumption);
    assert_eq!(BaseNode::assumption(9, 2).label, Some(4));
}

#[test]
fn derive_env_combines_antecedents() {
    let j = Justification::new(99, vec![1, 2, 3]);
    let env = j.derive_env(|id| match id {
        1 => Some(singleton(0)),
        2 => Some(singleton(1)),
        3 => Some(singleton(2)),
        _ => None,
    });
    assert_eq!(env, Some(singleton(0) | singleton(1) | singleton(2)));
}

#[test]
fn derive_env_missing_antecedent() {
    let j = Justification::new(99, vec![1, 2]);
    let env = j.derive_env(|id| if id == 1 { Some(singleton(0)) } else { None });
    assert_eq!(env, None);
}

#[test]
fn fact_derives_empty_env() {
    let j = Justification::fact(42);
    let env = j.derive_env(|_| None);
    assert_eq!(env, Some(0u64));
}

#[test]
fn watches_follow_antecedents() {
    let j = Justification::new(5, vec![10, 20, 30, 40]);
    assert_eq!(j.watched_antecedents(), vec![10, 20]);
    let single = Justification::new(5, vec![7]);
    assert_eq!(single.watched_antecedents(), vec![7, 7]);
    assert!(Justification::fact(5).watched_antecedents().is_empty());
    let mut k = Justification::new(5, vec![10, 20, 30, 40]);
    k.advance_watch(0, 4);
    assert_eq!(k.watched_antecedents(), vec![30, 20]);
    k.advance_watch(1, 4);
    assert_eq!(k.watched_antecedents(), vec![30, 40]);
    k.advance_watch(1, 4);
    assert_eq!(k.watched_antecedents(), vec![30, 40]);
    let mut small = Justification::new(5, vec![1, 2]);
    small.advance_watch(0, 2);
    assert_eq!(small.watched_antecedents(), vec![1, 2]);
}
