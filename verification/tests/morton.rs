use rectree::morton::{calc_common_prefix, delta, find_split, morton_2d, MortonCode};

#[test]
fn test_morton_logic_consistency() {
    // The x and y bits interleave: x into even positions, y into odd ones.
    assert_eq!(morton_2d(1, 0), 1);
    assert_eq!(morton_2d(0, 1), 2);
    assert_eq!(morton_2d(1, 1), 3);
}

#[test]
fn common_prefix_of_equal_codes_is_full() {
    assert_eq!(calc_common_prefix(7, 7), 32);
    assert_eq!(calc_common_prefix(0, 1), 31);
}

#[test]
fn find_split_stays_in_range() {
    let codes = vec![
        MortonCode { code: 0, index: 0 },
        MortonCode { code: 1, index: 1 },
        MortonCode { code: 4, index: 2 },
        MortonCode { code: 5, index: 3 },
    ];
    let s = find_split(&codes, 0, 3);
    assert!(s < 3);
    // The two halves split where the leading bits diverge.
    assert_eq!(s, 1);
    assert_eq!(delta(0, 1, &codes), 31);
}
