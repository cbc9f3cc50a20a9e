use csrre_core::classes::{Granularity, Lifecycle};
use csrre_core::context_stack::ContextStack;
use csrre_core::lifting::ModalLiftingRule;
use csrre_core::transient_repr::{RepContent, Tr};
use csrre_core::types::{ModalMode, ModalType, TypeCategory};

fn make_tr() -> Tr {
    Tr::new(
        1,
        100,
        RepContent::Lambda("λx.pred(x)".into()),
        0b111,
        ModalType::atom(ModalMode::Diamond, TypeCategory(0)),
        Granularity::Sentence,
    )
}

fn update(referents: &[&str], conditions: &[&str]) -> RepContent {
    RepContent::DrsUpdate {
        referents: referents.iter().map(|s| s.to_string()).collect(),
        conditions: conditions.iter().map(|s| s.to_string()).collect(),
    }
}

#[test]
fn lifecycle_transitions() {
    let mut tr = make_tr();
    assert!(tr.is_active());
    tr.begin_dissolve();
    assert_eq!(tr.lifecycle, Lifecycle::Dissolving);
    tr.complete_dissolve();
    assert_eq!(tr.lifecycle, Lifecycle::Dissolved);
}

#[test]
fn push_pop_drs_lifts() {
    let mut stack = ContextStack::new();
    stack.push(1, None);
    stack.add_tr(
        RepContent::DrsUpdate { referents: vec!["x".into()], conditions: vec![] },
        0b01,
        ModalType::default(),
        Granularity::Discourse,
    );
    let (_, refs) = stack.pop().unwrap();
    assert!(refs.contains(&"x".into()));
}

#[test]
fn provenance_recorded_once() {
    let mut tr = make_tr();
    tr.add_provenance(7);
    tr.add_provenance(3);
    tr.add_provenance(7);
    assert_eq!(tr.provenance, vec![7, 3]);
}

#[test]
fn push_assigns_ids_and_parents() {
    let mut stack = ContextStack::new();
    assert_eq!(stack.depth(), 0);
    assert_eq!(stack.current_env(), 0);
    let a = stack.push(10, Some(2));
    let b = stack.push(11, None);
    assert_eq!((a, b), (0, 1));
    assert_eq!(stack.depth(), 2);
    assert_eq!(stack.current_env(), 0b11);
    assert_eq!(stack.current_trd(), None);
    stack.pop().unwrap();
    assert_eq!(stack.current_trd(), Some(2));
    assert_eq!(stack.current_env(), 0b01);
}

#[test]
fn pop_lifts_into_parent_and_dissolves() {
    let mut stack = ContextStack::new();
    stack.push(1, None);
    stack.add_tr(update(&["a"], &["p"]), 0b01, ModalType::default(), Granularity::Discourse);
    stack.push(2, None);
    let id = stack.add_tr(update(&["b", "a"], &["q"]), 0b11, ModalType::default(), Granularity::Discourse);
    assert_eq!(id, 1);
    let (trs, refs) = stack.pop().unwrap();
    assert_eq!(refs, vec!["b".to_string(), "a".to_string()]);
    assert_eq!(trs.len(), 1);
    assert_eq!(trs[0].lifecycle, Lifecycle::Dissolved);
    assert_eq!(trs[0].context_id, 1);
    let parent = stack.current_drs().unwrap();
    assert_eq!(parent.referents, vec!["a".to_string(), "b".to_string()]);
    let preds: Vec<(String, usize)> =
        parent.conditions.iter().map(|c| (c.predicate.clone(), c.origin_depth)).collect();
    assert_eq!(preds, vec![("p".to_string(), 1), ("q".to_string(), 2)]);
}

#[test]
fn pop_on_empty_stack_is_none() {
    let mut stack = ContextStack::new();
    assert!(stack.pop().is_none());
    assert!(stack.current_drs().is_none());
}

#[test]
fn add_tr_without_frame_uses_up_id() {
    let mut stack = ContextStack::new();
    assert_eq!(stack.add_tr(update(&["x"], &[]), 0, ModalType::default(), Granularity::Sentence), 0);
    stack.push(1, None);
    assert_eq!(stack.add_tr(update(&["y"], &[]), 0, ModalType::default(), Granularity::Sentence), 1);
    assert_eq!(stack.current_drs().unwrap().referents, vec!["y".to_string()]);
}

#[test]
fn shift_relifts_matching_representations() {
    let mut stack = ContextStack::new();
    stack.lifting.register_default(ModalLiftingRule::new(
        1,
        "box-to-diamond",
        ModalMode::Box,
        TypeCategory(3),
        ModalMode::Diamond,
        TypeCategory(4),
    ));
    stack.push(1, None);
    stack.add_tr(update(&["x"], &["p"]), 0b1, ModalType::atom(ModalMode::Box, TypeCategory(3)), Granularity::Discourse);
    stack.add_tr(update(&["y"], &[]), 0b1, ModalType::atom(ModalMode::Lozenge, TypeCategory(3)), Granularity::Discourse);
    let new_id = stack.shift(2, Some(5));
    assert_eq!(new_id, 1);
    assert_eq!(stack.depth(), 1);
    assert_eq!(stack.current_trd(), Some(5));
    assert_eq!(stack.current_env(), 0b1);
    let drs = stack.current_drs().unwrap();
    assert_eq!(drs.referents, vec!["x".to_string(), "y".to_string()]);
    assert!(drs.conditions.is_empty());
}

#[test]
fn sequential_shifts_reuse_the_bit() {
    let mut stack = ContextStack::new();
    stack.push(0, None);
    for i in 1..200u64 {
        stack.shift(i, None);
        assert_eq!(stack.current_env(), 0b1);
    }
}

#[test]
fn structured_content_is_carried_through() {
    let mut stack = ContextStack::new();
    stack.push(1, None);
    let value = serde_json::Value::String("select".to_string());
    stack.add_tr(RepContent::Structured(value.clone()), 0b1, ModalType::default(), Granularity::Sentence);
    assert!(stack.current_drs().unwrap().referents.is_empty());
    let (trs, refs) = stack.pop().unwrap();
    assert!(refs.is_empty());
    match &trs[0].content {
        RepContent::Structured(v) => assert_eq!(v, &value),
        _ => panic!("content changed"),
    }
}
