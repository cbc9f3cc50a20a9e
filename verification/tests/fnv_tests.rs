use csrre_core::fnv::{fnv1a_64_bytes, sequential_edge_id};

#[test]
fn fnv_known_values() {
    assert_eq!(fnv1a_64_bytes(b""), 0xcbf2_9ce4_8422_2325);
    assert_eq!(fnv1a_64_bytes(b"a"), 0xaf63_dc4c_8601_ec8c);
    assert_eq!(fnv1a_64_bytes(b"foobar"), 0x8594_4171_f739_67e8);
}

#[test]
fn sequential_edge_ids_are_ordered_pairs() {
    assert_eq!(sequential_edge_id(1, 2), 0x1717_9803_63c8_e066);
    assert_eq!(sequential_edge_id(2, 1), 0x6721_8440_7c3a_4ac6);
}
