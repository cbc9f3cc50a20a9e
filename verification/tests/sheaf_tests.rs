use csrre_core::classes::{EdgeClass, NodeClass};
use csrre_core::shapes::{ShapeEdge, ShapeGraph, ShapeNode};
use csrre_core::sheaf::{build_stalks, check_sheaf_coherence, SheafResult};
use csrre_core::types::{Direction, ModalMode, ModalType, TypeCategory};

fn diamond_type() -> ModalType {
    ModalType::functor(ModalMode::Diamond, TypeCategory(0), 1, Direction::Right)
}

fn node(id: u64, t: ModalType) -> ShapeNode {
    ShapeNode { id, node_class: NodeClass(0), mtlg_type: t, has_surface: false }
}

fn edge(src: usize, dst: usize, mode: ModalMode) -> ShapeEdge {
    ShapeEdge { src, dst, edge_class: EdgeClass(0), modal_mode: mode }
}

#[test]
fn coherent_triangle_passes() {
    let u_type = diamond_type();
    let applied = u_type.apply().unwrap();
    let w_type = applied.apply().unwrap_or(applied);
    let g = ShapeGraph {
        nodes: vec![node(1, u_type), node(2, applied), node(3, w_type)],
        edges: vec![
            edge(0, 1, ModalMode::Diamond),
            edge(1, 2, ModalMode::Diamond),
            edge(0, 2, ModalMode::Diamond),
        ],
    };
    let stalks = build_stalks(&g);
    let result = check_sheaf_coherence(&g, &stalks);
    assert!(result.is_coherent(), "violations: {:?}", result.violations);
}

#[test]
fn violation_count_not_h1() {
    let result = SheafResult { violation_count: 0, violations: vec![] };
    assert!(result.is_coherent());
    let _ = result.violation_count;
}

#[test]
fn lozenge_path_disagrees_with_box_edge() {
    let t = ModalType::functor(ModalMode::Box, TypeCategory(2), 1, Direction::Right);
    let g = ShapeGraph {
        nodes: vec![node(1, t), node(2, t), node(3, t)],
        edges: vec![edge(0, 1, ModalMode::Box), edge(1, 2, ModalMode::Lozenge), edge(0, 2, ModalMode::Box)],
    };
    let result = check_sheaf_coherence(&g, &build_stalks(&g));
    assert_eq!(result.violation_count, 1);
    let v = result.violations[0];
    assert_eq!((v.node_u, v.node_v, v.node_w), (1, 2, 3));
    assert_eq!(v.via_uv_vw_type.mode, ModalMode::Lozenge);
    assert_eq!(v.via_uv_vw_type.direction, Direction::Left);
    assert_eq!(v.via_uw_type, t);
}

#[test]
fn nodes_without_stalk_are_skipped() {
    let t = ModalType::functor(ModalMode::Box, TypeCategory(2), 1, Direction::Right);
    let g = ShapeGraph {
        nodes: vec![node(1, t), node(2, t), node(3, t)],
        edges: vec![edge(0, 1, ModalMode::Box), edge(1, 2, ModalMode::Lozenge), edge(0, 2, ModalMode::Box)],
    };
    let stalks = std::collections::HashMap::new();
    assert!(check_sheaf_coherence(&g, &stalks).is_coherent());
}
