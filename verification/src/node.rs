use vstd::prelude::*;

use std::sync::Arc;

use crate::utils::{
    bit_is_set, calculate_hamming_weight, count_below, get_sparse_index, lemma_count_below_mask,
    spec_popcount, spec_sparse_index,
};

verus! {

/// Relies on `std::sync::Arc::clone`: the returned handle refers to the same
/// node as the argument.
#[verifier::external_body]
pub(crate) fn arc_clone(a: &Arc<CMapNode>) -> (r: Arc<CMapNode>)
    ensures
        r == *a,
{
    a.clone()
}

/// One trie node. An internal node carries an occupancy bitmap and a dense
/// table holding one shared child per set bit, in slot order; a leaf carries
/// one key/value pair and has bitmap 0 and no children.
#[derive(Debug)]
pub struct CMapNode {
    pub is_leaf: bool,
    pub bitmap: u32,
    pub children: Vec<Arc<CMapNode>>,
    pub key: Vec<u8>,
    pub value: Vec<u8>,
}

/// Byte-for-byte copy of a byte string.
pub(crate) fn clone_bytes(v: &Vec<u8>) -> (r: Vec<u8>)
    ensures
        r@ == v@,
{
    let r = v.clone();
    proof {
        assert(r@ =~= v@);
    }
    r
}

/// Copy of a child table that shares every child with the original.
pub(crate) fn clone_children(cs: &Vec<Arc<CMapNode>>) -> (r: Vec<Arc<CMapNode>>)
    ensures
        r@ == cs@,
{
    let mut r: Vec<Arc<CMapNode>> = Vec::new();
    let mut idx: usize = 0;
    while idx < cs.len()
        invariant
            idx <= cs.len(),
            r@.len() == idx,
            forall|j: int| 0 <= j < idx ==> r@[j] == cs@[j],
        decreases cs.len() - idx,
    {
        r.push(arc_clone(&cs[idx]));
        idx = idx + 1;
    }
    proof {
        assert(r@ =~= cs@);
    }
    r
}

impl CMapNode {
    /// An empty internal node: no occupied slot, no children.
    pub fn new_internal_node() -> (n: Self)
        ensures
            !n.is_leaf,
            n.bitmap == 0,
            n.children@.len() == 0,
            n.key@.len() == 0,
            n.value@.len() == 0,
    {
        CMapNode {
            is_leaf: false,
            bitmap: 0u32,
            children: Vec::new(),
            key: Vec::new(),
            value: Vec::new(),
        }
    }

    /// A leaf holding one key/value pair.
    pub fn new_leaf_node(key: &Vec<u8>, value: &Vec<u8>) -> (n: Self)
        ensures
            n.is_leaf,
            n.bitmap == 0,
            n.children@.len() == 0,
            n.key@ == key@,
            n.value@ == value@,
    {
        CMapNode {
            is_leaf: true,
            bitmap: 0u32,
            children: Vec::new(),
            key: clone_bytes(key),
            value: clone_bytes(value),
        }
    }

    /// Dense position in the child table for the slot that `hash` selects at
    /// this level: the number of occupied slots below that slot.
    pub fn get_position(&self, hash: u32, level: usize) -> (p: usize)
        ensures
            p == count_below(self.bitmap, spec_sparse_index(hash, level as nat) as int),
            p <= spec_popcount(self.bitmap),
    {
        let sparse_idx = get_sparse_index(hash, level);
        proof {
            assert(1u32 << sparse_idx >= 1) by (bit_vector)
                requires
                    sparse_idx < 32,
            ;
        }
        let mask = (1u32 << sparse_idx) - 1;
        let isolated_bits = self.bitmap & mask;
        proof {
            lemma_count_below_mask(self.bitmap, sparse_idx, 32);
            crate::utils::lemma_count_below_mono(
                self.bitmap,
                sparse_idx as int,
                32,
            );
        }
        calculate_hamming_weight(isolated_bits) as usize
    }

    /// Whether the slot at `position` is occupied.
    pub fn is_bit_set(&self, position: u32) -> (r: bool)
        requires
            position < 32,
        ensures
            r == bit_is_set(self.bitmap, position),
    {
        (self.bitmap & (1u32 << position)) != 0
    }

    /// Mark the slot at `position` occupied.
    pub fn set_bit(&mut self, position: u32)
        requires
            position < 32,
        ensures
            final(self).bitmap == (old(self).bitmap | (1u32 << position)),
            final(self).is_leaf == old(self).is_leaf,
            final(self).children == old(self).children,
            final(self).key == old(self).key,
            final(self).value == old(self).value,
    {
        self.bitmap = self.bitmap | (1u32 << position);
    }

    /// Mark the slot at `position` empty.
    pub fn clear_bit(&mut self, position: u32)
        requires
            position < 32,
        ensures
            final(self).bitmap == (old(self).bitmap & !(1u32 << position)),
            final(self).is_leaf == old(self).is_leaf,
            final(self).children == old(self).children,
            final(self).key == old(self).key,
            final(self).value == old(self).value,
    {
        self.bitmap = self.bitmap & !(1u32 << position);
    }

    /// Insert a freshly built child at dense `position`, shifting the later
    /// entries one place up.
    pub fn extend_table(&mut self, position: usize, new_node: CMapNode)
        requires
            position <= old(self).children@.len(),
        ensures
            final(self).children@.len() == old(self).children@.len() + 1,
            forall|j: int| 0 <= j < position ==> final(self).children@[j] == old(self).children@[j],
            *final(self).children@[position as int] == new_node,
            forall|j: int|
                position < j < final(self).children@.len() ==> final(self).children@[j]
                    == old(self).children@[j - 1],
            final(self).is_leaf == old(self).is_leaf,
            final(self).bitmap == old(self).bitmap,
            final(self).key == old(self).key,
            final(self).value == old(self).value,
    {
        self.children.insert(position, Arc::new(new_node));
    }

    /// Remove the child at dense `position`, shifting the later entries one
    /// place down.
    pub fn shrink_table(&mut self, position: usize)
        requires
            position < old(self).children@.len(),
        ensures
            final(self).children@.len() == old(self).children@.len() - 1,
            forall|j: int| 0 <= j < position ==> final(self).children@[j] == old(self).children@[j],
            forall|j: int|
                position <= j < final(self).children@.len() ==> final(self).children@[j]
                    == old(self).children@[j + 1],
            final(self).is_leaf == old(self).is_leaf,
            final(self).bitmap == old(self).bitmap,
            final(self).key == old(self).key,
            final(self).value == old(self).value,
    {
        self.children.remove(position);
    }

    /// Copy of this node that shares every child with the original.
    pub fn clone_node(&self) -> (r: Self)
        ensures
            r.is_leaf == self.is_leaf,
            r.bitmap == self.bitmap,
            r.children@ == self.children@,
            r.key@ == self.key@,
            r.value@ == self.value@,
    {
        CMapNode {
            is_leaf: self.is_leaf,
            bitmap: self.bitmap,
            children: clone_children(&self.children),
            key: clone_bytes(&self.key),
            value: clone_bytes(&self.value),
        }
    }

    /// Replace the child at dense `position` by a freshly built node.
    pub fn set_child(&mut self, position: usize, new_node: CMapNode)
        requires
            position < old(self).children@.len(),
        ensures
            final(self).children@.len() == old(self).children@.len(),
            forall|j: int|
                0 <= j < final(self).children@.len() && j != position ==> final(self).children@[j]
                    == old(self).children@[j],
            *final(self).children@[position as int] == new_node,
            final(self).is_leaf == old(self).is_leaf,
            final(self).bitmap == old(self).bitmap,
            final(self).key == old(self).key,
            final(self).value == old(self).value,
    {
        self.children[position] = Arc::new(new_node);
    }
}

} // verus!
