use rcmap::utils::{calculate_hamming_weight, get_index, get_sparse_index};

#[test]
fn hamming_weight_values() {
    assert_eq!(calculate_hamming_weight(0), 0);
    assert_eq!(calculate_hamming_weight(1), 1);
    assert_eq!(calculate_hamming_weight(0b1011), 3);
    assert_eq!(calculate_hamming_weight(0x8000_0000), 1);
    assert_eq!(calculate_hamming_weight(u32::MAX), 32);
}

#[test]
fn sparse_index_walks_from_the_top_bits() {
    let h = 0x12345678u32;
    assert_eq!(get_index(h, 0), (h >> 27) & 31);
    assert_eq!(get_index(h, 1), (h >> 22) & 31);
    assert_eq!(get_index(h, 5), (h >> 2) & 31);
    assert_eq!(get_sparse_index(h, 0), (h >> 27) & 31);
    // level 7 repeats stage 1 of the next seed block
    assert_eq!(get_sparse_index(h, 7), (h >> 22) & 31);
    assert_eq!(get_sparse_index(0xFFFF_FFFF, 11), 31);
}
