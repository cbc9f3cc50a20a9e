use csrre_core::classes::{EdgeClass, NodeClass};
use csrre_core::shapes::{
    default_constraints, validate_shapes, ConstraintKind, ShapeConstraint, ShapeEdge, ShapeGraph,
    ShapeNode,
};
use csrre_core::types::{Direction, ModalMode, ModalType, TypeCategory};

fn node(id: u64, arity: u8, surface: bool) -> ShapeNode {
    ShapeNode {
        id,
        node_class: NodeClass(1),
        mtlg_type: ModalType::functor(ModalMode::Diamond, TypeCategory(id as u32), arity, Direction::Right),
        has_surface: surface,
    }
}

fn edge(src: usize, dst: usize, mode: ModalMode) -> ShapeEdge {
    ShapeEdge { src, dst, edge_class: EdgeClass(2), modal_mode: mode }
}

#[test]
fn valid_graph_no_violations() {
    let g = ShapeGraph { nodes: vec![node(1, 1, true)], edges: vec![] };
    let violations = validate_shapes(&g, &default_constraints());
    assert!(violations.iter().all(|v| v.constraint != "roots-typed"), "unexpected violations: {:?}", violations);
}

#[test]
fn default_constraint_names() {
    let names: Vec<String> = default_constraints().into_iter().map(|c| c.name).collect();
    assert_eq!(names, vec!["diamond-compat", "box-acyclic", "roots-typed"]);
}

#[test]
fn saturated_diamond_source_is_reported() {
    let g = ShapeGraph { nodes: vec![node(4, 0, true), node(6, 1, true)], edges: vec![edge(0, 1, ModalMode::Diamond)] };
    let v = validate_shapes(&g, &default_constraints());
    assert_eq!(v.len(), 1);
    assert_eq!(v[0].constraint, "diamond-compat");
    assert_eq!(v[0].node_id, Some(4));
    assert_eq!(v[0].message, "◇-edge from saturated node TypeCategory(4)→TypeCategory(6)");
}

#[test]
fn box_cycle_reported_at_first_node_reaching_it() {
    // 0 → 1 (diamond), 1 → 2 → 1 (box cycle), 3 isolated
    let g = ShapeGraph {
        nodes: vec![node(10, 1, true), node(11, 1, true), node(12, 1, true), node(13, 1, true)],
        edges: vec![edge(0, 1, ModalMode::Diamond), edge(1, 2, ModalMode::Box), edge(2, 1, ModalMode::Box)],
    };
    let v = validate_shapes(&g, &default_constraints());
    assert_eq!(v.len(), 1);
    assert_eq!(v[0].constraint, "box-acyclic");
    assert_eq!(v[0].node_id, Some(11));
    assert_eq!(v[0].message, "□-mode cycle detected");
}

#[test]
fn box_dag_passes() {
    let g = ShapeGraph {
        nodes: vec![node(1, 1, true), node(2, 1, true), node(3, 1, true)],
        edges: vec![edge(0, 1, ModalMode::Box), edge(0, 2, ModalMode::Box), edge(1, 2, ModalMode::Box)],
    };
    assert!(validate_shapes(&g, &default_constraints()).is_empty());
}

#[test]
fn untyped_root_is_reported() {
    let g = ShapeGraph { nodes: vec![node(7, 0, false), node(8, 0, false)], edges: vec![edge(0, 1, ModalMode::Box)] };
    let v = validate_shapes(&g, &default_constraints());
    assert_eq!(v.len(), 1);
    assert_eq!(v[0].node_id, Some(7));
    assert_eq!(v[0].message, "root node 7 lacks modal type annotation");
}

#[test]
fn min_outgoing_counts_edges_of_class() {
    let c = ShapeConstraint {
        name: "two-out".to_string(),
        kind: ConstraintKind::MinOutgoing { node_class: NodeClass(1), edge_class: EdgeClass(2), min: 2 },
    };
    let g = ShapeGraph {
        nodes: vec![node(21, 1, true), node(22, 1, true)],
        edges: vec![edge(0, 1, ModalMode::Box), edge(0, 1, ModalMode::Diamond), edge(1, 0, ModalMode::Box)],
    };
    let v = validate_shapes(&g, &[c]);
    assert_eq!(v.len(), 1);
    assert_eq!(v[0].node_id, Some(22));
    assert_eq!(v[0].message, "node 22 has 1 EdgeClass(2) edges, need ≥ 2");
}
