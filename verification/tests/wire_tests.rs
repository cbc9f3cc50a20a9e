use csrre_core::types::{Direction, ModalMode, ModalType, TypeCategory};
use csrre_core::wire::{parse_mode, wire_modal_type};

#[test]
fn modes_are_read_by_name() {
    assert_eq!(parse_mode(Some("box")), ModalMode::Box);
    assert_eq!(parse_mode(Some("lozenge")), ModalMode::Lozenge);
    assert_eq!(parse_mode(Some("diamond")), ModalMode::Diamond);
    assert_eq!(parse_mode(Some("Box")), ModalMode::Diamond);
    assert_eq!(parse_mode(None), ModalMode::Diamond);
}

#[test]
fn wire_fields_give_functor_or_atom() {
    assert_eq!(
        wire_modal_type(Some("box"), Some(3), Some(2)),
        ModalType::functor(ModalMode::Box, TypeCategory(3), 2, Direction::Right)
    );
    assert_eq!(
        wire_modal_type(None, None, None),
        ModalType::atom(ModalMode::Diamond, TypeCategory(0))
    );
    assert_eq!(
        wire_modal_type(Some("lozenge"), Some(7), Some(0)),
        ModalType::atom(ModalMode::Lozenge, TypeCategory(7))
    );
}
