use miasma::page_count_per_bot;

#[test]
fn calculation_is_correct() {
    let test_cases = [
        (2, 1, 1),
        (5, 3, 31),
        (8, 5, 4681),
        (10, 5, 11111),
        (7, 9, 6725601),
    ];

    for (link_count, depth, expected) in test_cases {
        let result = page_count_per_bot(link_count, depth);
        assert_eq!(result, Some(expected));
    }
}

#[test]
fn link_count_one_returns_max_depth() {
    let max_depth = 5;
    let result = page_count_per_bot(1, max_depth);
    assert_eq!(result, Some(max_depth as u128));
}

#[test]
fn page_count_equals_tree_node_sum() {
    // 3^0 + 3^1 + 3^2 + 3^3
    assert_eq!(page_count_per_bot(3, 4), Some(1 + 3 + 9 + 27));
    // 2^0 + ... + 2^9
    assert_eq!(page_count_per_bot(2, 10), Some(1023));
}

#[test]
fn zero_depth_has_no_pages() {
    assert_eq!(page_count_per_bot(5, 0), Some(0));
    assert_eq!(page_count_per_bot(1, 0), Some(0));
}

#[test]
fn single_link_depth_is_never_too_large() {
    assert_eq!(page_count_per_bot(1, u32::MAX), Some(u32::MAX as u128));
}

#[test]
fn overflowing_power_gives_none() {
    assert_eq!(page_count_per_bot(2, 128), None);
    assert_eq!(page_count_per_bot(2, 127), Some((1u128 << 127) - 1));
    assert_eq!(page_count_per_bot(255, 17), None);
    assert!(page_count_per_bot(255, 16).is_some());
    assert_eq!(page_count_per_bot(255, u32::MAX), None);
}
