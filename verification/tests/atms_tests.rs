use csrre_core::atms::BaseAtms;
use csrre_core::env::singleton;
use csrre_core::justification::Justification;

#[test]
fn propagation_chain() {
    let mut atms = BaseAtms::new();
    // a(bit 0), b(bit 1) are assumptions
    atms.add_assumption(1, 0);
    atms.add_assumption(2, 1);
    // c derived from a, b
    atms.add_derived(3);
    let j = Justification::new(3, vec![1, 2]);
    atms.add_justification(j);
    atms.propagate(1);
    atms.propagate(2);
    let expected = singleton(0) | singleton(1);
    assert_eq!(atms.label_of(3), Some(expected));
}

#[test]
fn nogood_detected() {
    let mut atms = BaseAtms::new();
    atms.add_assumption(1, 0);
    let ng = singleton(0);
    let inconsistent = atms.add_nogood(ng);
    assert!(inconsistent.contains(&1));
}

#[test]
fn antecedents_of_works() {
    let mut atms = BaseAtms::new();
    atms.add_assumption(1, 0);
    atms.add_assumption(2, 1);
    atms.add_derived(3);
    let j = Justification::new(3, vec![1, 2]);
    atms.add_justification(j);
    let ants = atms.antecedents_of(3);
    assert!(ants.contains(&1));
    assert!(ants.contains(&2));
}

#[test]
fn add_justification_derives_when_antecedents_labelled() {
    let mut atms = BaseAtms::new();
    atms.add_assumption(1, 0);
    atms.add_assumption(2, 3);
    assert_eq!(atms.add_justification(Justification::new(5, vec![1, 2])), Some(singleton(0) | singleton(3)));
    assert_eq!(atms.add_justification(Justification::new(6, vec![1, 9])), None);
    // a justification whose antecedents are labelled labels its consequent at once
    assert_eq!(atms.label_of(5), Some(singleton(0) | singleton(3)));
    // one with an unlabelled antecedent leaves its consequent alone
    assert_eq!(atms.label_of(6), None);
}

#[test]
fn add_justification_labels_consequent_at_once() {
    let mut atms = BaseAtms::new();
    atms.add_assumption(1, 0);
    atms.add_assumption(2, 1);
    atms.add_derived(3);
    let r = atms.add_justification(Justification::new(3, vec![1, 2]));
    assert_eq!(r, Some(0b11u64));
    assert_eq!(atms.label_of(3), Some(0b11u64));
}

#[test]
fn add_justification_propagates_downstream() {
    let mut atms = BaseAtms::new();
    atms.add_assumption(1, 0);
    atms.add_assumption(2, 1);
    // 4 waits on 3, which is not labelled yet
    assert_eq!(atms.add_justification(Justification::new(4, vec![3, 2])), None);
    assert_eq!(atms.label_of(4), None);
    // labelling 3 carries on to 4 without a separate propagate call
    assert_eq!(atms.add_justification(Justification::new(3, vec![1])), Some(singleton(0)));
    assert_eq!(atms.label_of(3), Some(singleton(0)));
    assert_eq!(atms.label_of(4), Some(singleton(0) | singleton(1)));
}

#[test]
fn propagation_reaches_chains_and_reports_changes() {
    let mut atms = BaseAtms::new();
    atms.add_justification(Justification::new(3, vec![1]));
    atms.add_justification(Justification::new(4, vec![3, 2]));
    atms.add_assumption(1, 0);
    atms.add_assumption(2, 1);
    let updated = atms.propagate(1);
    assert_eq!(updated, vec![(3, singleton(0)), (4, singleton(0) | singleton(1))]);
    let updated = atms.propagate(2);
    assert_eq!(updated, vec![]);
    assert!(atms.is_active(4, singleton(0) | singleton(1) | singleton(5)));
    assert!(!atms.is_active(4, singleton(0)));
}

#[test]
fn cheaper_derivation_replaces_label() {
    let mut atms = BaseAtms::new();
    atms.add_assumption(1, 0);
    atms.add_assumption(2, 1);
    atms.add_justification(Justification::new(3, vec![1, 2]));
    atms.propagate(1);
    assert_eq!(atms.label_of(3), Some(singleton(0) | singleton(1)));
    assert_eq!(atms.add_justification(Justification::new(3, vec![1])), Some(singleton(0)));
    assert_eq!(atms.label_of(3), Some(singleton(0)));
    let updated = atms.propagate(1);
    assert_eq!(updated, vec![]);
    assert_eq!(atms.label_of(3), Some(singleton(0)));
    assert_eq!(atms.antecedents_of(3), vec![1, 2, 1]);
}

#[test]
fn deactivate_lists_nodes_within_env() {
    let mut atms = BaseAtms::new();
    atms.add_assumption(1, 0);
    atms.add_assumption(2, 1);
    atms.add_justification(Justification::new(3, vec![1, 2]));
    atms.propagate(1);
    assert_eq!(atms.deactivate(singleton(0)), vec![1]);
    assert_eq!(atms.deactivate(singleton(0) | singleton(1)), vec![1, 2, 3]);
    assert_eq!(atms.deactivate(singleton(4)), Vec::<u64>::new());
}

#[test]
fn cyclic_justifications_terminate() {
    let mut atms = BaseAtms::new();
    atms.add_justification(Justification::new(2, vec![1]));
    atms.add_justification(Justification::new(3, vec![2]));
    atms.add_justification(Justification::new(2, vec![3]));
    atms.add_assumption(1, 0);
    let updated = atms.propagate(1);
    assert_eq!(updated, vec![(2, singleton(0)), (3, singleton(0))]);
}
