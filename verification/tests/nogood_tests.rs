use csrre_core::env::singleton;
use csrre_core::nogood::NogoodTable;

#[test]
fn add_and_detect() {
    let mut t = NogoodTable::new();
    let ng = singleton(0) | singleton(1);
    t.add(ng);
    // superset is inconsistent
    assert!(t.is_inconsistent(ng | singleton(2)));
    // non-superset is ok
    assert!(!t.is_inconsistent(singleton(0)));
}

#[test]
fn minimality_maintained() {
    let mut t = NogoodTable::new();
    let general = singleton(0);
    let specific = singleton(0) | singleton(1);
    t.add(specific);
    t.add(general); // more general; specific should be removed
    assert_eq!(t.len(), 1);
    assert_eq!(t.nogoods()[0], general);
}

#[test]
fn subsumed_nogood_skipped() {
    let mut t = NogoodTable::new();
    let general = singleton(0);
    t.add(general);
    t.add(general | singleton(1)); // more specific — skip
    assert_eq!(t.len(), 1);
}

#[test]
fn removal_keeps_order_of_survivors() {
    let mut t = NogoodTable::new();
    t.add(singleton(3) | singleton(4));
    t.add(singleton(0) | singleton(1));
    t.add(singleton(5));
    t.add(singleton(0));
    assert_eq!(t.nogoods(), &[singleton(3) | singleton(4), singleton(5), singleton(0)]);
    assert!(!t.is_empty());
    assert!(t.is_inconsistent(singleton(0) | singleton(7)));
    assert!(!t.is_inconsistent(singleton(3)));
}

#[test]
fn many_nogoods_spill_past_inline_capacity() {
    let mut t = NogoodTable::new();
    for b in 0u8..40 {
        t.add(singleton(b) | singleton((b + 1) % 64));
    }
    assert_eq!(t.len(), 40);
    assert!(t.is_inconsistent(singleton(10) | singleton(11)));
}

#[test]
fn add_keeps_table_minimal_and_grows_by_at_most_one() {
    let mut t = NogoodTable::new();
    t.add(singleton(0) | singleton(1));
    t.add(singleton(0) | singleton(2));
    assert_eq!(t.len(), 2);
    // a smaller nogood replaces both of its supersets
    t.add(singleton(0));
    assert_eq!(t.nogoods(), &[singleton(0)]);
    // every superset of the new nogood is inconsistent, others stay consistent
    assert!(t.is_inconsistent(singleton(0) | singleton(5)));
    assert!(!t.is_inconsistent(singleton(1) | singleton(2)));
    let before = t.len();
    t.add(singleton(3));
    assert!(t.len() <= before + 1);
}

#[test]
fn default_table_is_empty() {
    let t = NogoodTable::default();
    assert!(t.is_empty());
    assert_eq!(t.len(), 0);
    assert!(!t.is_inconsistent(singleton(0)));
}
