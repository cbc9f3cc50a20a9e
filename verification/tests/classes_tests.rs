use csrre_core::boundary::{infer_boundary_type, is_boundary_rule, is_leaf_fact, BoundaryType};
use csrre_core::classes::{AlgebraicNormalizer, NodeClass};
use csrre_core::query::Query;
use csrre_core::semantics::{fact_of, TypedFact};
use csrre_core::types::{Direction, ModalMode, ModalType, TypeCategory};

fn fact(mode: ModalMode, cat: u32) -> TypedFact {
    TypedFact { category: TypeCategory(cat), mode, direction: Direction::Right }
}

#[test]
fn node_class_assignment() {
    assert!(!NodeClass(0).is_assigned());
    assert!(NodeClass(3).is_assigned());
    assert_eq!(NodeClass::default(), NodeClass(0));
    let _ = AlgebraicNormalizer::new();
}

#[test]
fn boundary_rules_from_leaf_facts() {
    let leaf = fact(ModalMode::Diamond, 1);
    assert!(is_leaf_fact(&leaf));
    assert!(!is_leaf_fact(&fact(ModalMode::Diamond, 3)));
    assert!(!is_leaf_fact(&fact(ModalMode::Box, 1)));
    assert!(is_boundary_rule(&[leaf, leaf], fact(ModalMode::Diamond, 5)));
    assert!(!is_boundary_rule(&[leaf], fact(ModalMode::Diamond, 5)));
    assert!(!is_boundary_rule(&[leaf, leaf], fact(ModalMode::Diamond, 0)));
    assert!(!is_boundary_rule(&[leaf, fact(ModalMode::Box, 5)], fact(ModalMode::Diamond, 5)));
    assert_eq!(infer_boundary_type(fact(ModalMode::Diamond, 5)), BoundaryType::Merge);
    assert_eq!(infer_boundary_type(fact(ModalMode::Lozenge, 5)), BoundaryType::Split);
}

#[test]
fn query_defaults_and_expected_type() {
    let q = Query::new("who runs", 9, "en");
    assert_eq!(q.text, "who runs");
    assert_eq!(q.situation_id, 9);
    assert!(q.trd.is_none());
    assert_eq!(q.expected_type, ModalType::default());
    let ty = ModalType::functor(ModalMode::Box, TypeCategory(4), 1, Direction::Left);
    let q = q.with_expected_type(ty);
    assert_eq!(q.expected_type, ty);
    assert_eq!(q.target_language, "en");
    assert_eq!(fact_of(ty), TypedFact { category: TypeCategory(4), mode: ModalMode::Box, direction: Direction::Left });
}
