use csrre_core::type_check::{
    check_application, check_box_sharing, check_derivation, mode_to_int, SolverVerdict,
    TypeCheckResult,
};
use csrre_core::types::{Direction, ModalMode, ModalType, TypeCategory};
use csrre_core::type_check::mode_consistency_errors;
use std::collections::HashMap;

fn d(cat: TypeCategory, arity: u8) -> ModalType {
    ModalType::functor(ModalMode::Diamond, cat, arity, Direction::Right)
}

// The verdicts below are what a solver answers on the ground formula of each
// application: positive arity, equal modes, matching side.

#[test]
fn valid_application() {
    let f = d(TypeCategory(0), 1);
    let a = d(TypeCategory(6), 0);
    assert!(check_application(f, a, true, SolverVerdict::Sat).is_valid());
}

#[test]
fn saturated_functor_fails() {
    let f = d(TypeCategory(0), 0);
    let a = d(TypeCategory(6), 0);
    assert!(!check_application(f, a, true, SolverVerdict::Unsat).is_valid());
}

#[test]
fn mode_mismatch_fails() {
    let f = ModalType::functor(ModalMode::Diamond, TypeCategory(0), 1, Direction::Right);
    let a = ModalType::functor(ModalMode::Box, TypeCategory(0), 0, Direction::Right);
    assert!(!check_application(f, a, true, SolverVerdict::Unsat).is_valid());
}

#[test]
fn direction_mismatch_fails() {
    let f = ModalType::functor(ModalMode::Diamond, TypeCategory(0), 1, Direction::Right);
    let a = ModalType::functor(ModalMode::Diamond, TypeCategory(6), 0, Direction::Right);
    // arg_is_right=false but functor seeks Right → should fail
    assert!(!check_application(f, a, false, SolverVerdict::Unsat).is_valid());
}

#[test]
fn application_result_drops_one_argument() {
    let f = d(TypeCategory(3), 2);
    match check_application(f, d(TypeCategory(6), 0), true, SolverVerdict::Sat) {
        TypeCheckResult::Valid(t) => {
            assert_eq!(t.arity, 1);
            assert_eq!(t.category, TypeCategory(3));
        }
        TypeCheckResult::Invalid(m) => panic!("{}", m),
    }
    match check_application(f, d(TypeCategory(6), 0), true, SolverVerdict::Unknown) {
        TypeCheckResult::Invalid(m) => assert_eq!(m, "Z3 SMT returned UNKNOWN"),
        TypeCheckResult::Valid(_) => panic!("unknown verdict accepted"),
    }
}

#[test]
fn derivation_stops_at_first_failure() {
    match check_derivation(&[], &[]) {
        TypeCheckResult::Invalid(m) => assert_eq!(m, "empty derivation"),
        TypeCheckResult::Valid(_) => panic!("empty derivation accepted"),
    }
    let steps = [(d(TypeCategory(1), 2), d(TypeCategory(2), 0), true), (d(TypeCategory(4), 1), d(TypeCategory(2), 0), true)];
    match check_derivation(&steps, &[SolverVerdict::Sat, SolverVerdict::Sat]) {
        TypeCheckResult::Valid(t) => assert_eq!((t.category, t.arity), (TypeCategory(4), 0)),
        TypeCheckResult::Invalid(m) => panic!("{}", m),
    }
    match check_derivation(&steps, &[SolverVerdict::Unsat, SolverVerdict::Sat]) {
        TypeCheckResult::Invalid(m) => assert_eq!(m, "Z3 SMT solver returned UNSAT: Constraint violation"),
        TypeCheckResult::Valid(_) => panic!("failed step accepted"),
    }
}

#[test]
fn box_sharing_rules() {
    let b1 = ModalType::functor(ModalMode::Box, TypeCategory(1), 1, Direction::Right);
    let b2 = ModalType::functor(ModalMode::Box, TypeCategory(2), 2, Direction::Left);
    let arg = ModalType::atom(ModalMode::Box, TypeCategory(3));
    match check_box_sharing(b1, b2, arg) {
        TypeCheckResult::Valid(t) => assert_eq!((t.category, t.arity), (TypeCategory(1), 0)),
        TypeCheckResult::Invalid(m) => panic!("{}", m),
    }
    let dmd = d(TypeCategory(1), 1);
    assert!(!check_box_sharing(dmd, b2, arg).is_valid());
    let sat = ModalType::functor(ModalMode::Box, TypeCategory(1), 0, Direction::Right);
    match check_box_sharing(sat, b2, arg) {
        TypeCheckResult::Invalid(m) => assert_eq!(m, "box sharing: one functor is structurally saturated"),
        TypeCheckResult::Valid(_) => panic!("saturated functor accepted"),
    }
    assert_eq!(mode_to_int(ModalMode::Lozenge), 3);
}

#[test]
fn mode_consistency_errors_edge_by_edge() {
    let mut nodes = HashMap::new();
    nodes.insert(1u64, ModalType::functor(ModalMode::Diamond, TypeCategory(1), 1, Direction::Right));
    nodes.insert(2u64, ModalType::functor(ModalMode::Box, TypeCategory(2), 1, Direction::Left));
    let edges = [
        (1u64, 2u64, ModalMode::Diamond, true),
        (1, 3, ModalMode::Box, false),
        (9, 1, ModalMode::Diamond, true),
        (2, 1, ModalMode::Box, false),
    ];
    let verdicts = [SolverVerdict::Sat, SolverVerdict::Unsat, SolverVerdict::Unknown, SolverVerdict::Sat];
    assert_eq!(
        mode_consistency_errors(&nodes, &edges, &verdicts),
        vec![
            "edge (1→3): Z3 SMT proves mode contradiction".to_string(),
            "edge (1→3): structural SMT directional violation".to_string(),
            "src node 9 not in Z3 environment".to_string(),
        ]
    );
}
