use csrre_core::slots::SlotOccupancyTracker;
use csrre_core::types::{ModalMode, ModalType, TypeCategory};

#[test]
fn observe_counts_per_slot() {
    let mut t = SlotOccupancyTracker::new();
    let ty = ModalType::atom(ModalMode::Diamond, TypeCategory(2));
    t.observe(1, "cat", 7, ty);
    t.observe(2, "feline", 7, ty);
    t.observe(1, "cat", 7, ty);
    t.observe(2, "feline", 7, ty);
    t.observe(3, "dog", 8, ty);
    let pairs = t.qualifying_pairs(2);
    assert_eq!(pairs, vec![(1, 2, 2, 2)]);
    assert_eq!(t.qualifying_pairs(3), vec![]);
    let pairs = t.qualifying_pairs(1);
    assert_eq!(pairs, vec![(1, 2, 2, 2)]);
}

#[test]
fn different_modes_are_different_slots() {
    let mut t = SlotOccupancyTracker::new();
    t.observe(1, "a", 1, ModalType::atom(ModalMode::Diamond, TypeCategory(2)));
    t.observe(2, "b", 1, ModalType::atom(ModalMode::Box, TypeCategory(2)));
    assert!(t.qualifying_pairs(1).is_empty());
}

#[test]
fn synonym_edge_ids_are_consecutive() {
    let mut t = SlotOccupancyTracker::new();
    assert_eq!(t.take_synonym_edge_id(), Some(0x8000_0000));
    assert_eq!(t.take_synonym_edge_id(), Some(0x8000_0001));
}
