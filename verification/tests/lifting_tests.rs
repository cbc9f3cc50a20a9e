use csrre_core::lifting::{ModalLiftingRule, LiftingRuleRegistry};
use csrre_core::types::{ModalType, ModalMode, TypeCategory, Direction};
use csrre_core::transient_repr::{Tr, RepContent};
use csrre_core::classes::Granularity;

fn tr_of(ty: ModalType) -> Tr {
    Tr::new(1, 100, RepContent::Lambda("x".to_string()), 0b111, ty, Granularity::Sentence)
}

#[test]
fn rule_applies_matching_type() {
    let rule = ModalLiftingRule::new(
        1, "cat7-to-cat1",
        ModalMode::Diamond, TypeCategory(7),
        ModalMode::Diamond, TypeCategory(1),
    );
    let ty = ModalType::atom(ModalMode::Diamond, TypeCategory(7));
    let result = rule.apply(ty).unwrap();
    assert_eq!(result.category, TypeCategory(1));
    assert_eq!(result.mode, ModalMode::Diamond);
}

#[test]
fn rule_rejects_non_matching() {
    let rule = ModalLiftingRule::new(
        1, "cat7-to-cat1",
        ModalMode::Diamond, TypeCategory(7),
        ModalMode::Diamond, TypeCategory(1),
    );
    let ty = ModalType::atom(ModalMode::Box, TypeCategory(7));
    assert!(rule.apply(ty).is_none());
}

#[test]
fn registry_prefers_pair_rules_then_defaults() {
    let mut reg = LiftingRuleRegistry::new();
    let ty = ModalType::functor(ModalMode::Box, TypeCategory(3), 2, Direction::Left);
    assert_eq!(reg.lift_tr(&tr_of(ty), 1, 2), None);
    reg.register_default(ModalLiftingRule::new(
        9, "default", ModalMode::Box, TypeCategory(3), ModalMode::Diamond, TypeCategory(4)));
    let lifted = reg.lift_tr(&tr_of(ty), 1, 2).unwrap();
    assert_eq!(lifted, ModalType::functor(ModalMode::Diamond, TypeCategory(4), 2, Direction::Left));
    reg.register(1, 2, ModalLiftingRule::new(
        5, "pair", ModalMode::Box, TypeCategory(3), ModalMode::Lozenge, TypeCategory(8)));
    assert_eq!(reg.lift_tr(&tr_of(ty), 1, 2).unwrap().mode, ModalMode::Lozenge);
    assert_eq!(reg.lift_tr(&tr_of(ty), 2, 1).unwrap().mode, ModalMode::Diamond);
    reg.register(1, 2, ModalLiftingRule::new(
        6, "second", ModalMode::Box, TypeCategory(3), ModalMode::Box, TypeCategory(0)));
    assert_eq!(reg.lift_tr(&tr_of(ty), 1, 2).unwrap().category, TypeCategory(8));
    let other = ModalType::atom(ModalMode::Lozenge, TypeCategory(1));
    assert_eq!(reg.lift_tr(&tr_of(other), 1, 2), None);
}
