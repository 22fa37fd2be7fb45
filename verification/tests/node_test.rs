use rcmap::node::CMapNode;

#[test]
fn bit_operations_set_and_clear() {
    let mut n = CMapNode::new_internal_node();
    assert!(!n.is_bit_set(5));
    n.set_bit(5);
    assert!(n.is_bit_set(5));
    assert_eq!(n.bitmap, 1 << 5);
    // setting an already-set bit keeps it set
    n.set_bit(5);
    assert!(n.is_bit_set(5));
    n.clear_bit(5);
    assert!(!n.is_bit_set(5));
    assert_eq!(n.bitmap, 0);
}

#[test]
fn leaf_node_carries_its_pair() {
    let n = CMapNode::new_leaf_node(&b"key".to_vec(), &b"val".to_vec());
    assert!(n.is_leaf);
    assert_eq!(n.bitmap, 0);
    assert!(n.children.is_empty());
    assert_eq!(n.key, b"key".to_vec());
    assert_eq!(n.value, b"val".to_vec());
}

#[test]
fn table_grows_and_shrinks_in_order() {
    let mut n = CMapNode::new_internal_node();
    let a = CMapNode::new_leaf_node(&b"a".to_vec(), &b"1".to_vec());
    let b = CMapNode::new_leaf_node(&b"b".to_vec(), &b"2".to_vec());
    let c = CMapNode::new_leaf_node(&b"c".to_vec(), &b"3".to_vec());
    n.extend_table(0, a);
    n.extend_table(1, c);
    n.extend_table(1, b);
    assert_eq!(n.children.len(), 3);
    assert_eq!(n.children[0].key, b"a".to_vec());
    assert_eq!(n.children[1].key, b"b".to_vec());
    assert_eq!(n.children[2].key, b"c".to_vec());
    n.shrink_table(1);
    assert_eq!(n.children.len(), 2);
    assert_eq!(n.children[0].key, b"a".to_vec());
    assert_eq!(n.children[1].key, b"c".to_vec());
}

#[test]
fn dense_position_counts_occupied_slots_below() {
    // slots 3 and 20 occupied; at level 0 a hash selects its top five bits
    let mut n = CMapNode::new_internal_node();
    n.set_bit(3);
    n.set_bit(20);
    assert_eq!(n.get_position(2u32 << 27, 0), 0);
    assert_eq!(n.get_position(10u32 << 27, 0), 1);
    assert_eq!(n.get_position(25u32 << 27, 0), 2);
}
