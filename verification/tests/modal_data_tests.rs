use csrre_core::modal_data::{canonicalize_path, ModalData, NodeShape};
use csrre_core::types::{ModalMode, TypeCategory};

#[test]
fn canonicalize_box_wins() {
    let (mode, _) = canonicalize_path(&[
        (ModalMode::Diamond, TypeCategory(0)),
        (ModalMode::Box, TypeCategory(0)),
    ])
    .unwrap();
    assert_eq!(mode, ModalMode::Box);
}

#[test]
fn canonicalize_lozenge_wins() {
    let (mode, _) = canonicalize_path(&[
        (ModalMode::Box, TypeCategory(0)),
        (ModalMode::Lozenge, TypeCategory(0)),
    ])
    .unwrap();
    assert_eq!(mode, ModalMode::Lozenge);
}

#[test]
fn canonicalize_short_path_and_category() {
    assert!(canonicalize_path(&[(ModalMode::Box, TypeCategory(4))]).is_none());
    let r = canonicalize_path(&[
        (ModalMode::Diamond, TypeCategory(0)),
        (ModalMode::Diamond, TypeCategory(7)),
        (ModalMode::Diamond, TypeCategory(9)),
    ]);
    assert_eq!(r, Some((ModalMode::Diamond, TypeCategory(7))));
}

#[test]
fn join_falls_back_on_conflict() {
    let mut a = ModalData { mode: ModalMode::Box, category: TypeCategory(3) };
    let flags = ModalData::join(&mut a, ModalData { mode: ModalMode::Box, category: TypeCategory(4) });
    assert_eq!(flags, (true, true));
    assert_eq!(a, ModalData { mode: ModalMode::Box, category: TypeCategory(0) });
    let copy = a;
    let same = ModalData::join(&mut a, copy);
    assert_eq!(same, (false, false));
}

#[test]
fn make_follows_node_shape() {
    let f = ModalData { mode: ModalMode::Lozenge, category: TypeCategory(5) };
    let body = ModalData { mode: ModalMode::Box, category: TypeCategory(8) };
    assert_eq!(ModalData::make(NodeShape::BoxApp, f, body), ModalData { mode: ModalMode::Box, category: TypeCategory(5) });
    assert_eq!(ModalData::make(NodeShape::Pred, f, body), ModalData { mode: ModalMode::Lozenge, category: TypeCategory(0) });
    assert_eq!(ModalData::make(NodeShape::Lam, f, body), body);
    assert_eq!(ModalData::make(NodeShape::Leaf, f, body), ModalData { mode: ModalMode::Diamond, category: TypeCategory(0) });
}
