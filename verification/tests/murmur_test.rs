use rcmap::murmur::murmur;

#[test]
fn test_murmur() {
    let key = "hello".as_bytes().to_vec();
    let seed = 1u32;

    let hash = murmur(&key, seed);

    println!("hash {}", hash);
}

#[test]
fn murmur_regression_hello_seed_one() {
    // Recorded once; the hash must be stable across runs and platforms.
    let key = "hello".as_bytes().to_vec();
    assert_eq!(murmur(&key, 1), 2730838749);
}

#[test]
fn murmur_is_deterministic() {
    let key = b"determinism check".to_vec();
    assert_eq!(murmur(&key, 7), murmur(&key, 7));
    assert_eq!(murmur(&key, 1), murmur(&key, 1));
}

#[test]
fn murmur_known_values() {
    assert_eq!(murmur(&Vec::new(), 0), 0);
    assert_eq!(murmur(&Vec::new(), 7), 3846618176);
    assert_eq!(murmur(&b"k".to_vec(), 1), 732291239);
    assert_eq!(murmur(&b"ab".to_vec(), 5), 2534663119);
    assert_eq!(murmur(&b"abc".to_vec(), 5), 931658090);
    assert_eq!(murmur(&b"abcd".to_vec(), 2), 1437418441);
    assert_eq!(murmur(&b"hello".to_vec(), 2), 3593992079);
    assert_eq!(murmur(&b"abcdefgh".to_vec(), 1), 1906021710);
}
