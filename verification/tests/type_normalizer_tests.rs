use csrre_core::type_normalizer::{normalize_type, lpo_gt, RewriteRule, TypeNormalizer};
use csrre_core::classes::NodeClass;
use csrre_core::shapes::{ShapeGraph, ShapeNode};
use csrre_core::types::{Direction, ModalMode, ModalType, TypeCategory};

fn rule(lm: ModalMode, lc: u32, rm: ModalMode, rc: u32) -> RewriteRule {
    RewriteRule { lhs_mode: lm, lhs_cat: TypeCategory(lc), rhs_mode: rm, rhs_cat: TypeCategory(rc) }
}

#[test]
fn normalizes_single_rule() {
    let rules = vec![rule(ModalMode::Box, 3, ModalMode::Diamond, 1)];
    let (m, c) = normalize_type(ModalMode::Box, TypeCategory(3), &rules);
    assert_eq!(m, ModalMode::Diamond);
    assert_eq!(c, TypeCategory(1));
}

#[test]
fn lpo_box_gt_diamond() {
    assert!(lpo_gt((ModalMode::Box, TypeCategory(1), 0), (ModalMode::Diamond, TypeCategory(1), 0)));
}

#[test]
fn normalizes_through_chain() {
    let rules = vec![
        rule(ModalMode::Diamond, 5, ModalMode::Diamond, 2),
        rule(ModalMode::Lozenge, 1, ModalMode::Box, 9),
        rule(ModalMode::Box, 9, ModalMode::Diamond, 5),
        rule(ModalMode::Box, 9, ModalMode::Diamond, 0),
    ];
    assert_eq!(normalize_type(ModalMode::Lozenge, TypeCategory(1), &rules),
        (ModalMode::Diamond, TypeCategory(2)));
    assert_eq!(normalize_type(ModalMode::Box, TypeCategory(4), &rules),
        (ModalMode::Box, TypeCategory(4)));
    let t = TypeNormalizer::new(rules.clone());
    assert_eq!(t.rules.len(), 4);
}

#[test]
fn lpo_orders_lexicographically() {
    assert!(lpo_gt((ModalMode::Lozenge, TypeCategory(0), 0), (ModalMode::Box, TypeCategory(9), 9)));
    assert!(lpo_gt((ModalMode::Box, TypeCategory(2), 0), (ModalMode::Box, TypeCategory(1), 7)));
    assert!(lpo_gt((ModalMode::Box, TypeCategory(2), 3), (ModalMode::Box, TypeCategory(2), 2)));
    assert!(!lpo_gt((ModalMode::Box, TypeCategory(2), 2), (ModalMode::Box, TypeCategory(2), 2)));
    assert!(!lpo_gt((ModalMode::Diamond, TypeCategory(9), 9), (ModalMode::Box, TypeCategory(0), 0)));
}

#[test]
fn apply_to_graph_normalizes_node_types() {
    let normalizer = TypeNormalizer::new(vec![
        rule(ModalMode::Box, 3, ModalMode::Diamond, 2),
        rule(ModalMode::Diamond, 2, ModalMode::Diamond, 1),
    ]);
    let node = |id: u64, mode: ModalMode, cat: u32| ShapeNode {
        id,
        node_class: NodeClass(0),
        mtlg_type: ModalType::functor(mode, TypeCategory(cat), 2, Direction::Left),
        has_surface: false,
    };
    let mut g = ShapeGraph {
        nodes: vec![node(1, ModalMode::Box, 3), node(2, ModalMode::Lozenge, 3), node(1, ModalMode::Box, 3)],
        edges: vec![],
    };
    normalizer.apply_to_graph(&mut g);
    assert_eq!(g.nodes[0].mtlg_type, ModalType::functor(ModalMode::Diamond, TypeCategory(1), 2, Direction::Left));
    assert_eq!(g.nodes[1].mtlg_type, ModalType::functor(ModalMode::Lozenge, TypeCategory(3), 2, Direction::Left));
    // A later node with the same id is not looked up.
    assert_eq!(g.nodes[2].mtlg_type, ModalType::functor(ModalMode::Box, TypeCategory(3), 2, Direction::Left));
}
