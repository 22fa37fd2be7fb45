use rcmap::cmap::CMap;
use rcmap::utils::calculate_hamming_weight;

#[test]
fn test_cmap() {
    let mut map = CMap::new();

    let put_ok1 = map.put("hello".as_bytes().to_vec(), "world".as_bytes().to_vec());
    assert!(put_ok1);

    let put_ok2 = map.put("new".as_bytes().to_vec(), "wow!".as_bytes().to_vec());
    assert!(put_ok2);

    let val1 = map.get("hello".as_bytes().to_vec());
    match val1 {
        Some(val) => {
            assert!(val == "world".as_bytes().to_vec());
        }
        None => panic!("value in map was none type"),
    }

    let val2 = map.get("new".as_bytes().to_vec());
    match val2 {
        Some(val) => {
            assert!(val == "wow!".as_bytes().to_vec());
        }
        None => panic!("value in map was none type"),
    }

    let del_ok = map.del("hello".as_bytes().to_vec());
    assert!(del_ok);
}

#[test]
fn empty_map_get_and_delete() {
    let mut map = CMap::new();
    assert!(map.get(b"x".to_vec()).is_none());
    assert!(!map.del(b"x".to_vec()));
    assert!(map.get(b"x".to_vec()).is_none());
}

#[test]
fn single_key_exact_match_only() {
    let mut map = CMap::new();
    assert!(map.put(b"hello".to_vec(), b"world".to_vec()));
    assert_eq!(map.get(b"hello".to_vec()), Some(b"world".to_vec()));
    assert_eq!(map.get(b"hell".to_vec()), None);
}

#[test]
fn overwrite_keeps_last_value() {
    let mut map = CMap::new();
    assert!(map.put(b"k".to_vec(), b"v1".to_vec()));
    assert!(map.put(b"k".to_vec(), b"v2".to_vec()));
    assert_eq!(map.get(b"k".to_vec()), Some(b"v2".to_vec()));
}

#[test]
fn two_distinct_keys() {
    let mut map = CMap::new();
    assert!(map.put(b"hello".to_vec(), b"world".to_vec()));
    assert!(map.put(b"new".to_vec(), b"wow!".to_vec()));
    assert_eq!(map.get(b"hello".to_vec()), Some(b"world".to_vec()));
    assert_eq!(map.get(b"new".to_vec()), Some(b"wow!".to_vec()));
}

#[test]
fn delete_round_trip() {
    let mut map = CMap::new();
    assert!(map.put(b"a".to_vec(), b"1".to_vec()));
    assert!(map.del(b"a".to_vec()));
    assert_eq!(map.get(b"a".to_vec()), None);
    assert!(map.put(b"a".to_vec(), b"2".to_vec()));
    assert_eq!(map.get(b"a".to_vec()), Some(b"2".to_vec()));
}

#[test]
fn operations_on_one_key_leave_others_alone() {
    let mut map = CMap::new();
    assert!(map.put(b"left".to_vec(), b"l".to_vec()));
    assert!(map.put(b"right".to_vec(), b"r".to_vec()));

    assert!(map.put(b"left".to_vec(), b"l2".to_vec()));
    assert_eq!(map.get(b"right".to_vec()), Some(b"r".to_vec()));

    assert!(map.del(b"left".to_vec()));
    assert_eq!(map.get(b"right".to_vec()), Some(b"r".to_vec()));
    assert_eq!(map.get(b"left".to_vec()), None);
}

#[test]
fn dump_shows_popcount_invariant_and_live_pairs() {
    let mut map = CMap::new();
    let n: u32 = 200;
    for i in 0..n {
        assert!(map.put(i.to_le_bytes().to_vec(), vec![i as u8, (i >> 8) as u8]));
    }

    let entries = map.print();
    let mut leaves: u32 = 0;
    for e in &entries {
        if e.is_leaf {
            leaves += 1;
            assert_eq!(map.get(e.key.clone()), Some(e.value.clone()));
        } else {
            assert_eq!(calculate_hamming_weight(e.bitmap) as usize, e.num_children);
        }
    }
    assert_eq!(leaves, n);
}

#[test]
fn colliding_keys_are_separated_in_depth() {
    // these two keys share their hash slot on levels 0, 1 and 2 and part
    // ways only at level 3, so the insert builds a chain of internal nodes
    let mut map = CMap::new();
    assert!(map.put(b"aaf2".to_vec(), b"first".to_vec()));
    assert!(map.put(b"aaky".to_vec(), b"second".to_vec()));
    assert_eq!(map.get(b"aaf2".to_vec()), Some(b"first".to_vec()));
    assert_eq!(map.get(b"aaky".to_vec()), Some(b"second".to_vec()));

    assert!(map.del(b"aaf2".to_vec()));
    assert_eq!(map.get(b"aaf2".to_vec()), None);
    assert_eq!(map.get(b"aaky".to_vec()), Some(b"second".to_vec()));
}

#[test]
fn many_keys_then_delete_all() {
    let mut map = CMap::new();
    let n: u32 = 500;
    for i in 0..n {
        assert!(map.put(format!("key-{}", i).into_bytes(), format!("val-{}", i).into_bytes()));
    }
    for i in 0..n {
        assert_eq!(
            map.get(format!("key-{}", i).into_bytes()),
            Some(format!("val-{}", i).into_bytes())
        );
    }
    for i in 0..n {
        assert!(map.del(format!("key-{}", i).into_bytes()));
        assert_eq!(map.get(format!("key-{}", i).into_bytes()), None);
    }
    for i in 0..n {
        assert!(!map.del(format!("key-{}", i).into_bytes()));
    }
}

#[test]
fn thousands_of_keys_round_trip() {
    // xorshift-scrambled 32-byte keys, kept distinct by the embedded counter
    fn make_key(counter: u64) -> Vec<u8> {
        let mut state = counter
            .wrapping_mul(0x9e3779b97f4a7c15)
            .wrapping_add(0x243f6a8885a308d3);
        let ctr = counter.to_le_bytes();
        let mut bytes = Vec::with_capacity(32);
        for i in 0..32 {
            if i < 8 {
                bytes.push(ctr[i]);
            } else {
                state ^= state << 13;
                state ^= state >> 7;
                state ^= state << 17;
                bytes.push(state as u8);
            }
        }
        bytes
    }

    let n: u64 = 20000;
    let mut map = CMap::new();
    for c in 0..n {
        let key = make_key(c);
        assert!(map.put(key.clone(), key));
    }
    for c in 0..n {
        let key = make_key(c);
        assert_eq!(map.get(key.clone()), Some(key));
    }
    for c in 0..n {
        assert!(map.del(make_key(c)));
    }
    for c in 0..n {
        assert_eq!(map.get(make_key(c)), None);
    }
}
