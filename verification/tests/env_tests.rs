use csrre_core::env::{subsumes, singleton, empty, active_bits, union, intersect, is_empty,
    assumption_count, remove_bit, has_bit};

#[test]
fn subsumes_reflexive() {
    let e = singleton(3) | singleton(7);
    assert!(subsumes(e, e));
}

#[test]
fn subsumes_proper_subset() {
    let e1 = singleton(3);
    let e2 = singleton(3) | singleton(7);
    assert!(subsumes(e1, e2));
    assert!(!subsumes(e2, e1));
}

#[test]
fn empty_subsumes_everything() {
    assert!(subsumes(empty(), singleton(5) | singleton(10)));
}

#[test]
fn active_bits_correct() {
    let e = singleton(0) | singleton(3) | singleton(63);
    let bits: Vec<u8> = active_bits(e).into_iter().collect();
    assert_eq!(bits, vec![0, 3, 63]);
}

#[test]
fn union_and_intersect_are_set_operations() {
    let a = singleton(1) | singleton(2);
    let b = singleton(2) | singleton(9);
    assert_eq!(union(a, b), singleton(1) | singleton(2) | singleton(9));
    assert_eq!(intersect(a, b), singleton(2));
    assert_eq!(union(a, b), union(b, a));
}

#[test]
fn count_and_remove() {
    let e = singleton(0) | singleton(5) | singleton(63);
    assert_eq!(assumption_count(e), 3);
    assert_eq!(assumption_count(empty()), 0);
    assert_eq!(assumption_count(u64::MAX), 64);
    let r = remove_bit(e, 5);
    assert!(!has_bit(r, 5));
    assert!(has_bit(r, 63));
    assert_eq!(r, singleton(0) | singleton(63));
    assert!(is_empty(remove_bit(singleton(4), 4)));
    assert!(!is_empty(e));
}

#[test]
fn singleton_is_one_bit() {
    assert_eq!(singleton(0), 1);
    assert_eq!(singleton(63), 1u64 << 63);
    assert_eq!(active_bits(singleton(17)), vec![17]);
    assert!(active_bits(empty()).is_empty());
}

#[test]
fn required_env_unions_antecedent_labels() {
    let label_of = |n: u64| -> Option<u64> {
        match n {
            1 => Some(0b001),
            2 => Some(0b110),
            _ => None,
        }
    };
    assert_eq!(csrre_core::env::required_env(&[1, 2], label_of), Some(0b111));
    assert_eq!(csrre_core::env::required_env(&[1, 3, 2], label_of), None);
    assert_eq!(csrre_core::env::required_env(&[], label_of), Some(0));
}
