use vstd::prelude::*;
use vstd::std_specs::cmp::PartialEqSpec;

use std::sync::Arc;

use crate::consts::HASH_CHUNKS;
use crate::murmur::{murmur, spec_murmur};
use crate::node::{clone_bytes, CMapNode};
use crate::utils::{
    bit_is_set, calculate_hamming_weight, count_below, get_sparse_index, lemma_bit_ops,
    lemma_count_below_clear, lemma_count_below_mono, lemma_count_below_set,
    lemma_count_below_strict, lemma_count_below_surj, lemma_count_below_zero, spec_popcount,
    spec_sparse_index,
};

verus! {

/// Seed used to hash a key at a trie level: seed 1 covers levels 0..6,
/// seed 2 covers levels 6..12, and so on, reduced to 32 bits.
pub open spec fn spec_level_seed(level: nat) -> u32 {
    ((level / (HASH_CHUNKS as nat) + 1) % 0x1_0000_0000) as u32
}

/// Hash that directs a key at a trie level.
pub open spec fn spec_level_hash(key: Seq<u8>, level: nat) -> u32 {
    spec_murmur(key, spec_level_seed(level))
}

/// The sparse slot a key selects at a trie level.
pub open spec fn spec_route(key: Seq<u8>, level: nat) -> u32 {
    spec_sparse_index(spec_level_hash(key, level), level)
}

/// Two keys can be told apart by the trie at or above `level`: some
/// representable level at or past it routes them to different slots. Keys
/// whose hashes agree at every level cannot be separated; an insert that
/// would need to separate such a pair is abandoned and reported as failure,
/// since no finite chain of deeper nodes could ever tell them apart.
pub open spec fn keys_diverge(k1: Seq<u8>, k2: Seq<u8>, level: nat) -> bool {
    exists|l: nat| level <= l < usize::MAX && spec_route(k1, l) != spec_route(k2, l)
}

/// The child stored for sparse slot `i` of an internal node: the table entry
/// at the dense position of `i`.
pub open spec fn child_at(n: CMapNode, i: u32) -> CMapNode {
    *n.children@[count_below(n.bitmap, i as int) as int]
}

/// The key/value pairs held in the subtree rooted at `n`.
pub open spec fn node_map(n: CMapNode) -> Map<Seq<u8>, Seq<u8>>
    decreases n, 2int, 0int,
{
    if n.is_leaf {
        Map::empty().insert(n.key@, n.value@)
    } else {
        slots_map(n, 32)
    }
}

/// The pairs held under the sparse slots of `n` that are below `i`.
pub open spec fn slots_map(n: CMapNode, i: int) -> Map<Seq<u8>, Seq<u8>>
    decreases n, 1int, i,
{
    if i <= 0 {
        Map::empty()
    } else {
        slots_map(n, i - 1).union_prefer_right(slot_map(n, (i - 1) as u32))
    }
}

/// The pairs held under one sparse slot of `n`; empty for an empty slot.
pub open spec fn slot_map(n: CMapNode, i: u32) -> Map<Seq<u8>, Seq<u8>>
    decreases n, 0int, 0int,
{
    if bit_is_set(n.bitmap, i) && count_below(n.bitmap, i as int) < n.children@.len() {
        node_map(child_at(n, i))
    } else {
        Map::empty()
    }
}

/// Well-formedness of the subtree rooted at `n`, seen at trie level `level`.
/// A leaf has bitmap 0 and no children. An internal node has exactly one
/// child per set bit, every child is well-formed one level down, and every
/// key under slot `i` routes to `i` at this level.
pub open spec fn node_wf(n: CMapNode, level: nat) -> bool
    decreases n, 1int,
{
    if n.is_leaf {
        n.bitmap == 0 && n.children@.len() == 0
    } else {
        &&& level + 1 <= usize::MAX
        &&& n.children@.len() == spec_popcount(n.bitmap)
        &&& forall|i: u32| i < 32 && #[trigger] bit_is_set(n.bitmap, i) ==> slot_wf(n, i, level)
    }
}

/// Well-formedness of one occupied slot of an internal node.
pub open spec fn slot_wf(n: CMapNode, i: u32, level: nat) -> bool
    decreases n, 0int,
{
    if count_below(n.bitmap, i as int) < n.children@.len() {
        &&& node_wf(child_at(n, i), level + 1)
        &&& forall|k: Seq<u8>|
            node_map(child_at(n, i)).contains_key(k) ==> #[trigger] spec_route(k, level) == i
    } else {
        false
    }
}

/// One line of the diagnostic traversal: the fields of a reachable node and
/// the depth at which it was met.
#[derive(Debug)]
pub struct DumpEntry {
    pub level: usize,
    pub is_leaf: bool,
    pub bitmap: u32,
    pub num_children: usize,
    pub key: Vec<u8>,
    pub value: Vec<u8>,
}

/// What the traversal promises of each emitted line: a leaf line shows a pair
/// the map holds, and an internal line shows a bitmap whose popcount equals
/// its number of children.
pub open spec fn dump_entry_ok(e: DumpEntry, m: Map<Seq<u8>, Seq<u8>>) -> bool {
    &&& e.is_leaf ==> m.contains_key(e.key@) && m[e.key@] == e.value@
    &&& !e.is_leaf ==> e.num_children == spec_popcount(e.bitmap)
}

/// Some leaf line in `entries[lo..hi]` carries the key `k`.
pub open spec fn key_dumped(entries: Seq<DumpEntry>, lo: int, hi: int, k: Seq<u8>) -> bool {
    exists|j: int| lo <= j < hi && (#[trigger] entries[j]).is_leaf && entries[j].key@ == k
}

/// The concurrent map: a trie reached from a single root reference. Every
/// update builds a new root by path copying and publishes it here.
#[derive(Debug)]
pub struct CMap {
    pub root: Arc<CMapNode>,
}

impl CMap {
    /// The key/value pairs the map holds.
    pub open spec fn view(&self) -> Map<Seq<u8>, Seq<u8>> {
        node_map(*self.root)
    }

    /// The root is a well-formed internal node at level 0.
    pub open spec fn wf(&self) -> bool {
        &&& !self.root.is_leaf
        &&& node_wf(*self.root, 0)
    }

    /// An empty map: the root is an internal node with no occupied slot.
    pub fn new() -> (m: Self)
        ensures
            m.wf(),
            m@ == Map::<Seq<u8>, Seq<u8>>::empty(),
    {
        let root_node = CMapNode::new_internal_node();
        proof {
            lemma_empty_internal(root_node, 0);
        }
        CMap { root: Arc::new(root_node) }
    }
}

/// An internal node with bitmap 0 is well-formed at every level and holds
/// nothing.
pub proof fn lemma_empty_internal(n: CMapNode, level: nat)
    requires
        !n.is_leaf,
        n.bitmap == 0,
        n.children@.len() == 0,
        level + 1 <= usize::MAX,
    ensures
        node_wf(n, level),
        node_map(n) == Map::<Seq<u8>, Seq<u8>>::empty(),
{
    lemma_bit_ops();
    assert forall|i: u32| i < 32 implies !bit_is_set(n.bitmap, i) by {
        assert(0u32 & (1u32 << i) == 0) by (bit_vector);
    }
    lemma_count_below_zero(n.bitmap, 32);
    lemma_no_bits_no_map(n, 32);
    assert(node_map(n) =~= Map::<Seq<u8>, Seq<u8>>::empty());
}

/// Slots carrying no set bit contribute nothing to the map of a node.
proof fn lemma_no_bits_no_map(n: CMapNode, j: int)
    requires
        !n.is_leaf,
        forall|i: u32| i < 32 ==> !bit_is_set(n.bitmap, i),
        j <= 32,
    ensures
        slots_map(n, j) == Map::<Seq<u8>, Seq<u8>>::empty(),
    decreases j,
{
    if j <= 0 {
        assert(slots_map(n, j) =~= Map::<Seq<u8>, Seq<u8>>::empty());
    } else {
        lemma_no_bits_no_map(n, j - 1);
        assert(slot_map(n, (j - 1) as u32) =~= Map::<Seq<u8>, Seq<u8>>::empty());
        assert(slots_map(n, j) =~= Map::<Seq<u8>, Seq<u8>>::empty());
    }
}

/// The slot a key selects is always below 32.
pub proof fn lemma_route_bound(k: Seq<u8>, level: nat)
    ensures
        spec_route(k, level) < 32,
{
    lemma_bit_ops();
}

/// Two internal nodes with equal bitmap and equal child table hold the same
/// pairs and are well-formed at the same levels.
proof fn lemma_internal_congruence(n1: CMapNode, n2: CMapNode, level: nat)
    requires
        !n1.is_leaf,
        !n2.is_leaf,
        n1.bitmap == n2.bitmap,
        n1.children@ == n2.children@,
    ensures
        node_map(n1) == node_map(n2),
        node_wf(n1, level) ==> node_wf(n2, level),
{
    lemma_slots_congruence(n1, n2, 32);
    assert(node_map(n1) == node_map(n2));
    if node_wf(n1, level) {
        assert forall|i: u32| i < 32 && bit_is_set(n2.bitmap, i) implies slot_wf(n2, i, level) by {
            assert(slot_wf(n1, i, level));
            assert(child_at(n1, i) == child_at(n2, i));
        }
    }
}

/// Helper for the congruence lemma: the slot unions agree bound by bound.
proof fn lemma_slots_congruence(n1: CMapNode, n2: CMapNode, j: int)
    requires
        !n1.is_leaf,
        !n2.is_leaf,
        n1.bitmap == n2.bitmap,
        n1.children@ == n2.children@,
        j <= 32,
    ensures
        slots_map(n1, j) == slots_map(n2, j),
    decreases j,
{
    if j > 0 {
        lemma_slots_congruence(n1, n2, j - 1);
        let i = (j - 1) as u32;
        if bit_is_set(n1.bitmap, i) && count_below(n1.bitmap, i as int) < n1.children@.len() {
            assert(child_at(n1, i) == child_at(n2, i));
        }
        assert(slot_map(n1, i) == slot_map(n2, i));
    }
}

/// Helper for the lookup lemma: a key can appear under at most the slot its
/// hash selects, so the partial slot unions contain it exactly when that slot
/// is below the bound and holds it.
proof fn lemma_slots_lookup(n: CMapNode, level: nat, k: Seq<u8>, j: int)
    requires
        node_wf(n, level),
        !n.is_leaf,
        j <= 32,
    ensures
        slots_map(n, j).contains_key(k) <==> (spec_route(k, level) < j && slot_map(
            n,
            spec_route(k, level),
        ).contains_key(k)),
        slots_map(n, j).contains_key(k) ==> slots_map(n, j)[k] == slot_map(
            n,
            spec_route(k, level),
        )[k],
    decreases j,
{
    let r = spec_route(k, level);
    if j > 0 {
        lemma_slots_lookup(n, level, k, j - 1);
        let i = (j - 1) as u32;
        if slot_map(n, i).contains_key(k) {
            assert(bit_is_set(n.bitmap, i));
            assert(slot_wf(n, i, level));
            assert(spec_route(k, level) == i);
        }
    }
}

/// Where a key can live in an internal node: only under the slot its hash
/// selects at this level.
pub proof fn lemma_node_map_lookup(n: CMapNode, level: nat, k: Seq<u8>)
    requires
        node_wf(n, level),
        !n.is_leaf,
    ensures
        ({
            let r = spec_route(k, level);
            &&& node_map(n).contains_key(k) <==> (bit_is_set(n.bitmap, r) && node_map(
                child_at(n, r),
            ).contains_key(k))
            &&& node_map(n).contains_key(k) ==> node_map(n)[k] == node_map(child_at(n, r))[k]
            &&& bit_is_set(n.bitmap, r) ==> count_below(n.bitmap, r as int) < n.children@.len()
        }),
{
    lemma_route_bound(k, level);
    lemma_slots_lookup(n, level, k, 32);
    let r = spec_route(k, level);
    if bit_is_set(n.bitmap, r) {
        assert(slot_wf(n, r, level));
    }
}

/// Shape of an internal node after a fresh child was hung on a previously
/// empty slot `i0`: the node stays well-formed and every other occupied slot
/// keeps its child.
proof fn lemma_child_insert(n: CMapNode, n2: CMapNode, i0: u32, level: nat)
    requires
        node_wf(n, level),
        !n.is_leaf,
        i0 < 32,
        !bit_is_set(n.bitmap, i0),
        !n2.is_leaf,
        n2.bitmap == (n.bitmap | (1u32 << i0)),
        n2.children@.len() == n.children@.len() + 1,
        forall|q: int|
            0 <= q < count_below(n.bitmap, i0 as int) ==> n2.children@[q] == n.children@[q],
        forall|q: int|
            count_below(n.bitmap, i0 as int) < q < n2.children@.len() ==> n2.children@[q]
                == n.children@[q - 1],
        node_wf(*n2.children@[count_below(n.bitmap, i0 as int) as int], level + 1),
        forall|k: Seq<u8>|
            node_map(*n2.children@[count_below(n.bitmap, i0 as int) as int]).contains_key(k)
                ==> #[trigger] spec_route(k, level) == i0,
    ensures
        node_wf(n2, level),
        bit_is_set(n2.bitmap, i0),
        count_below(n2.bitmap, i0 as int) == count_below(n.bitmap, i0 as int),
        child_at(n2, i0) == *n2.children@[count_below(n.bitmap, i0 as int) as int],
        forall|j: u32|
            j < 32 && j != i0 && #[trigger] bit_is_set(n.bitmap, j) ==> bit_is_set(n2.bitmap, j)
                && child_at(n2, j) == child_at(n, j),
        forall|j: u32| j < 32 && j != i0 && #[trigger] bit_is_set(n2.bitmap, j) ==> bit_is_set(n.bitmap, j),
{
    let b = n.bitmap;
    let b2 = n2.bitmap;
    let p0 = count_below(b, i0 as int);
    lemma_bit_ops();
    lemma_count_below_set(b, i0, 32);
    lemma_count_below_set(b, i0, i0 as int);
    lemma_count_below_mono(b, i0 as int, 32);
    assert(n2.children@.len() == spec_popcount(b2));
    assert(count_below(b2, i0 as int) == p0);
    assert(child_at(n2, i0) == *n2.children@[p0 as int]);

    assert forall|j: u32| j < 32 && j != i0 && #[trigger] bit_is_set(n.bitmap, j) implies
        bit_is_set(n2.bitmap, j) && child_at(n2, j) == child_at(n, j) by {
        assert(slot_wf(n, j, level));
        lemma_count_below_set(b, i0, j as int);
        if j < i0 {
            lemma_count_below_strict(b, j, i0 as int);
        } else {
            lemma_count_below_mono(b, i0 as int, j as int);
        }
    }

    assert forall|j: u32| j < 32 && bit_is_set(b2, j) implies slot_wf(n2, j, level) by {
        lemma_count_below_set(b, i0, j as int);
        lemma_count_below_mono(b2, j as int, 32);
        if j == i0 {
            assert(count_below(b2, j as int) < n2.children@.len()) by {
                lemma_count_below_strict(b2, i0, 32);
            }
            assert(slot_wf(n2, i0, level));
        } else {
            assert(bit_is_set(b, j));
            assert(slot_wf(n, j, level));
            assert(child_at(n2, j) == child_at(n, j));
            lemma_count_below_strict(b2, j, 32);
            assert(slot_wf(n2, j, level));
        }
    }
}

/// Shape of an internal node after the child of an occupied slot `i0` was
/// replaced: the node stays well-formed and every other slot keeps its child.
proof fn lemma_child_replace(n: CMapNode, n2: CMapNode, i0: u32, level: nat)
    requires
        node_wf(n, level),
        !n.is_leaf,
        i0 < 32,
        bit_is_set(n.bitmap, i0),
        !n2.is_leaf,
        n2.bitmap == n.bitmap,
        n2.children@.len() == n.children@.len(),
        forall|q: int|
            0 <= q < n2.children@.len() && q != count_below(n.bitmap, i0 as int) ==> n2.children@[q]
                == n.children@[q],
        node_wf(*n2.children@[count_below(n.bitmap, i0 as int) as int], level + 1),
        forall|k: Seq<u8>|
            node_map(*n2.children@[count_below(n.bitmap, i0 as int) as int]).contains_key(k)
                ==> #[trigger] spec_route(k, level) == i0,
    ensures
        node_wf(n2, level),
        bit_is_set(n2.bitmap, i0),
        child_at(n2, i0) == *n2.children@[count_below(n.bitmap, i0 as int) as int],
        forall|j: u32|
            j < 32 && j != i0 && #[trigger] bit_is_set(n.bitmap, j) ==> bit_is_set(n2.bitmap, j)
                && child_at(n2, j) == child_at(n, j),
        forall|j: u32| j < 32 && j != i0 && #[trigger] bit_is_set(n2.bitmap, j) ==> bit_is_set(n.bitmap, j),
{
    let b = n.bitmap;
    let p0 = count_below(b, i0 as int);
    lemma_bit_ops();
    assert(slot_wf(n, i0, level));

    assert forall|j: u32| j < 32 && j != i0 && #[trigger] bit_is_set(n.bitmap, j) implies
        bit_is_set(n2.bitmap, j) && child_at(n2, j) == child_at(n, j) by {
        assert(slot_wf(n, j, level));
        if j < i0 {
            lemma_count_below_strict(b, j, i0 as int);
        } else {
            lemma_count_below_strict(b, i0, j as int);
        }
    }

    assert forall|j: u32| j < 32 && bit_is_set(b, j) implies slot_wf(n2, j, level) by {
        assert(slot_wf(n, j, level));
        if j == i0 {
            assert(slot_wf(n2, i0, level));
        } else {
            assert(child_at(n2, j) == child_at(n, j));
            assert(slot_wf(n2, j, level));
        }
    }
}

/// Shape of an internal node after the child of an occupied slot `i0` was
/// taken out: the node stays well-formed and every other slot keeps its child.
proof fn lemma_child_remove(n: CMapNode, n2: CMapNode, i0: u32, level: nat)
    requires
        node_wf(n, level),
        !n.is_leaf,
        i0 < 32,
        bit_is_set(n.bitmap, i0),
        !n2.is_leaf,
        n2.bitmap == (n.bitmap & !(1u32 << i0)),
        n2.children@.len() == n.children@.len() - 1,
        forall|q: int|
            0 <= q < count_below(n.bitmap, i0 as int) ==> n2.children@[q] == n.children@[q],
        forall|q: int|
            count_below(n.bitmap, i0 as int) <= q < n2.children@.len() ==> n2.children@[q]
                == n.children@[q + 1],
    ensures
        node_wf(n2, level),
        !bit_is_set(n2.bitmap, i0),
        forall|j: u32|
            j < 32 && j != i0 && #[trigger] bit_is_set(n.bitmap, j) ==> bit_is_set(n2.bitmap, j)
                && child_at(n2, j) == child_at(n, j),
        forall|j: u32| j < 32 && #[trigger] bit_is_set(n2.bitmap, j) ==> j != i0 && bit_is_set(n.bitmap, j),
{
    let b = n.bitmap;
    let b2 = n2.bitmap;
    let p0 = count_below(b, i0 as int);
    lemma_bit_ops();
    lemma_count_below_clear(b, i0, 32);
    lemma_count_below_clear(b, i0, i0 as int);
    assert(n2.children@.len() == spec_popcount(b2));

    assert forall|j: u32| j < 32 && j != i0 && #[trigger] bit_is_set(n.bitmap, j) implies
        bit_is_set(n2.bitmap, j) && child_at(n2, j) == child_at(n, j) by {
        assert(slot_wf(n, j, level));
        lemma_count_below_clear(b, i0, j as int);
        if j < i0 {
            lemma_count_below_strict(b, j, i0 as int);
        } else {
            lemma_count_below_strict(b, i0, j as int);
        }
    }

    assert forall|j: u32| j < 32 && bit_is_set(b2, j) implies slot_wf(n2, j, level) by {
        assert(bit_is_set(b, j) && j != i0);
        assert(slot_wf(n, j, level));
        lemma_count_below_clear(b, i0, j as int);
        lemma_count_below_strict(b2, j, 32);
        assert(child_at(n2, j) == child_at(n, j));
        assert(slot_wf(n2, j, level));
    }
}

/// After the slot of `key` got a child holding exactly the old pairs of that
/// slot plus `key -> value`, the node holds its old pairs plus `key -> value`.
proof fn lemma_map_after_put(
    n: CMapNode,
    n2: CMapNode,
    i0: u32,
    level: nat,
    key: Seq<u8>,
    value: Seq<u8>,
)
    requires
        node_wf(n, level),
        !n.is_leaf,
        node_wf(n2, level),
        !n2.is_leaf,
        i0 < 32,
        spec_route(key, level) == i0,
        bit_is_set(n2.bitmap, i0),
        forall|j: u32|
            j < 32 && j != i0 && #[trigger] bit_is_set(n.bitmap, j) ==> bit_is_set(n2.bitmap, j)
                && child_at(n2, j) == child_at(n, j),
        forall|j: u32|
            j < 32 && j != i0 && #[trigger] bit_is_set(n2.bitmap, j) ==> bit_is_set(n.bitmap, j),
        node_map(child_at(n2, i0)) == (if bit_is_set(n.bitmap, i0) {
            node_map(child_at(n, i0))
        } else {
            Map::<Seq<u8>, Seq<u8>>::empty()
        }).insert(key, value),
    ensures
        node_map(n2) == node_map(n).insert(key, value),
{
    let m1 = node_map(n);
    let m2 = node_map(n2);
    let mc = node_map(child_at(n2, i0));
    assert forall|k: Seq<u8>|
        (#[trigger] m2.contains_key(k) <==> m1.insert(key, value).contains_key(k)) && (
        m2.contains_key(k) ==> m2[k] == m1.insert(key, value)[k]) by {
        lemma_route_bound(k, level);
        lemma_node_map_lookup(n, level, k);
        lemma_node_map_lookup(n2, level, k);
        let r = spec_route(k, level);
        if r == i0 {
            assert(child_at(n2, r) == child_at(n2, i0));
            assert(mc.contains_key(k) <==> (k == key || (bit_is_set(n.bitmap, i0) && node_map(
                child_at(n, i0),
            ).contains_key(k))));
            if mc.contains_key(k) && k != key {
                assert(mc[k] == node_map(child_at(n, i0))[k]);
            }
        } else {
            assert(k != key);
            if bit_is_set(n2.bitmap, r) {
                assert(bit_is_set(n.bitmap, r));
                assert(child_at(n2, r) == child_at(n, r));
            }
            if bit_is_set(n.bitmap, r) {
                assert(bit_is_set(n2.bitmap, r));
                assert(child_at(n2, r) == child_at(n, r));
            }
        }
    }
    assert(m2 =~= m1.insert(key, value));
}

/// After the slot of `key` lost `key` — the child was replaced by one holding
/// the slot's old pairs except `key`, or removed because `key` was alone —
/// the node holds its old pairs except `key`.
proof fn lemma_map_after_del(n: CMapNode, n2: CMapNode, i0: u32, level: nat, key: Seq<u8>)
    requires
        node_wf(n, level),
        !n.is_leaf,
        node_wf(n2, level),
        !n2.is_leaf,
        i0 < 32,
        spec_route(key, level) == i0,
        bit_is_set(n.bitmap, i0),
        node_map(child_at(n, i0)).contains_key(key),
        forall|j: u32|
            j < 32 && j != i0 && #[trigger] bit_is_set(n.bitmap, j) ==> bit_is_set(n2.bitmap, j)
                && child_at(n2, j) == child_at(n, j),
        forall|j: u32|
            j < 32 && j != i0 && #[trigger] bit_is_set(n2.bitmap, j) ==> bit_is_set(n.bitmap, j),
        bit_is_set(n2.bitmap, i0) ==> node_map(child_at(n2, i0)) == node_map(
            child_at(n, i0),
        ).remove(key),
        !bit_is_set(n2.bitmap, i0) ==> (forall|k: Seq<u8>|
            #[trigger] node_map(child_at(n, i0)).contains_key(k) ==> k == key),
    ensures
        node_map(n2) == node_map(n).remove(key),
        node_map(n).contains_key(key),
{
    let m1 = node_map(n);
    let m2 = node_map(n2);
    lemma_node_map_lookup(n, level, key);
    assert forall|k: Seq<u8>|
        (#[trigger] m2.contains_key(k) <==> m1.remove(key).contains_key(k)) && (m2.contains_key(k)
            ==> m2[k] == m1.remove(key)[k]) by {
        lemma_route_bound(k, level);
        lemma_node_map_lookup(n, level, k);
        lemma_node_map_lookup(n2, level, k);
        let r = spec_route(k, level);
        if r == i0 {
            if bit_is_set(n2.bitmap, i0) {
                assert(child_at(n2, r) == child_at(n2, i0));
                assert(node_map(child_at(n2, i0)).contains_key(k) <==> (node_map(
                    child_at(n, i0),
                ).contains_key(k) && k != key));
            } else {
                if node_map(child_at(n, i0)).contains_key(k) {
                    assert(k == key);
                }
            }
        } else {
            assert(k != key);
            if bit_is_set(n2.bitmap, r) {
                assert(bit_is_set(n.bitmap, r));
                assert(child_at(n2, r) == child_at(n, r));
            }
            if bit_is_set(n.bitmap, r) {
                assert(bit_is_set(n2.bitmap, r));
                assert(child_at(n2, r) == child_at(n, r));
            }
        }
    }
    assert(m2 =~= m1.remove(key));
}

/// An internal node with exactly one occupied slot holds exactly the pairs of
/// that slot's child.
proof fn lemma_map_single_slot(n2: CMapNode, i0: u32, level: nat)
    requires
        node_wf(n2, level),
        !n2.is_leaf,
        i0 < 32,
        bit_is_set(n2.bitmap, i0),
        forall|j: u32| j < 32 && j != i0 ==> !(#[trigger] bit_is_set(n2.bitmap, j)),
    ensures
        node_map(n2) == node_map(child_at(n2, i0)),
{
    let mc = node_map(child_at(n2, i0));
    assert(slot_wf(n2, i0, level));
    assert forall|k: Seq<u8>|
        (#[trigger] node_map(n2).contains_key(k) <==> mc.contains_key(k)) && (node_map(
            n2,
        ).contains_key(k) ==> node_map(n2)[k] == mc[k]) by {
        lemma_route_bound(k, level);
        lemma_node_map_lookup(n2, level, k);
        let r = spec_route(k, level);
        if r == i0 {
            assert(child_at(n2, r) == child_at(n2, i0));
        } else {
            assert(!bit_is_set(n2.bitmap, r));
            if mc.contains_key(k) {
                assert(spec_route(k, level) == i0);
            }
        }
    }
    assert(node_map(n2) =~= mc);
}


impl CMap {
    /// Hash that directs a key at a trie level: each block of six levels uses
    /// the next murmur seed.
    pub fn calculate_hash_for_current_level(key: &Vec<u8>, level: usize) -> (h: u32)
        ensures
            h == spec_level_hash(key@, level as nat),
    {
        let curr_chunk = level / HASH_CHUNKS;
        let next_chunk = curr_chunk + 1;
        let seed: u32 = #[verifier::truncate] (next_chunk as u32);
        proof {
            assert(seed as int == next_chunk as int % 0x1_0000_0000) by (bit_vector)
                requires
                    seed == next_chunk as u32,
            ;
        }
        murmur(key, seed)
    }

    /// A copy of an internal node with a fresh leaf for `key` hung on the
    /// (empty) slot that `key` selects at this level.
    fn with_leaf_added(node: CMapNode, key: &Vec<u8>, value: &Vec<u8>, level: usize) -> (r:
        CMapNode)
        requires
            node_wf(node, level as nat),
            !node.is_leaf,
            !bit_is_set(node.bitmap, spec_route(key@, level as nat)),
        ensures
            !r.is_leaf,
            node_wf(r, level as nat),
            node_map(r) == node_map(node).insert(key@, value@),
            r.bitmap == (node.bitmap | (1u32 << spec_route(key@, level as nat))),
    {
        let ghost n0 = node;
        let mut node_copy = node;
        let hash = Self::calculate_hash_for_current_level(key, level);
        let index = get_sparse_index(hash, level);
        let position = node_copy.get_position(hash, level);
        proof {
            lemma_count_below_mono(node_copy.bitmap, index as int, 32);
        }
        let new_leaf = CMapNode::new_leaf_node(key, value);
        node_copy.set_bit(index);
        node_copy.extend_table(position, new_leaf);
        proof {
            assert(node_map(*node_copy.children@[position as int]) == Map::<
                Seq<u8>,
                Seq<u8>,
            >::empty().insert(key@, value@));
            assert forall|k: Seq<u8>|
                node_map(*node_copy.children@[position as int]).contains_key(k)
                    implies #[trigger] spec_route(k, level as nat) == index by {
                assert(k == key@);
            }
            lemma_child_insert(n0, node_copy, index, level as nat);
            lemma_map_after_put(n0, node_copy, index, level as nat, key@, value@);
        }
        node_copy
    }

    /// The spine of internal nodes that separates two keys whose hashes share
    /// a slot: one single-child node per level on which they still collide,
    /// and at the first level where they part, a node holding both leaves.
    /// Keys that collide on every representable level cannot be separated.
    fn build_collision_chain(
        k1: &Vec<u8>,
        v1: &Vec<u8>,
        k2: &Vec<u8>,
        v2: &Vec<u8>,
        level: usize,
    ) -> (r: Option<CMapNode>)
        requires
            k1@ != k2@,
        ensures
            match r {
                Some(chain) => {
                    &&& !chain.is_leaf
                    &&& node_wf(chain, level as nat)
                    &&& node_map(chain) == Map::<Seq<u8>, Seq<u8>>::empty().insert(
                        k1@,
                        v1@,
                    ).insert(k2@, v2@)
                },
                None => !keys_diverge(k1@, k2@, level as nat),
            },
    {
        let mut d = level;
        loop
            invariant
                level <= d <= usize::MAX,
                forall|l: nat|
                    level <= l < d ==> #[trigger] spec_route(k1@, l) == spec_route(k2@, l),
            ensures
                level <= d <= usize::MAX,
                forall|l: nat|
                    level <= l < d ==> #[trigger] spec_route(k1@, l) == spec_route(k2@, l),
                d < usize::MAX ==> spec_route(k1@, d as nat) != spec_route(k2@, d as nat),
            decreases usize::MAX - d,
        {
            if d == usize::MAX {
                break ;
            }
            let h1 = Self::calculate_hash_for_current_level(k1, d);
            let h2 = Self::calculate_hash_for_current_level(k2, d);
            let i1 = get_sparse_index(h1, d);
            let i2 = get_sparse_index(h2, d);
            if i1 != i2 {
                break ;
            }
            d = d + 1;
        }
        if d == usize::MAX {
            return None;
        }

        let mut chain = CMapNode::new_internal_node();
        proof {
            lemma_empty_internal(chain, d as nat);
            lemma_bit_ops();
            lemma_route_bound(k1@, d as nat);
            lemma_route_bound(k2@, d as nat);
        }
        chain = Self::with_leaf_added(chain, k1, v1, d);
        chain = Self::with_leaf_added(chain, k2, v2, d);

        let mut l = d;
        while l > level
            invariant
                level <= l <= d,
                d < usize::MAX,
                !chain.is_leaf,
                node_wf(chain, l as nat),
                node_map(chain) == Map::<Seq<u8>, Seq<u8>>::empty().insert(k1@, v1@).insert(
                    k2@,
                    v2@,
                ),
                forall|ll: nat|
                    level <= ll < d ==> #[trigger] spec_route(k1@, ll) == spec_route(k2@, ll),
            decreases l,
        {
            l = l - 1;
            let h = Self::calculate_hash_for_current_level(k1, l);
            let i = get_sparse_index(h, l);
            let mut wrapper = CMapNode::new_internal_node();
            let ghost w0 = wrapper;
            let ghost chain0 = chain;
            proof {
                lemma_empty_internal(wrapper, l as nat);
                lemma_bit_ops();
                lemma_count_below_zero(0u32, i as int);
            }
            wrapper.set_bit(i);
            wrapper.extend_table(0, chain);
            proof {
                assert(*wrapper.children@[0] == chain0);
                assert forall|k: Seq<u8>| node_map(chain0).contains_key(k) implies #[trigger]
                    spec_route(k, l as nat) == i by {
                    assert(k == k1@ || k == k2@);
                    assert(spec_route(k1@, l as nat) == i);
                    if k == k2@ {
                        assert(spec_route(k2@, l as nat) == spec_route(k1@, l as nat));
                    }
                }
                lemma_child_insert(w0, wrapper, i, l as nat);
                lemma_map_single_slot(wrapper, i, l as nat);
            }
            chain = wrapper;
        }
        Some(chain)
    }

    /// A copy of the subtree at `node` updated so that `key` maps to `value`:
    /// the nodes along the hash-directed path are rebuilt, all other subtrees
    /// are shared with the original. Fails only when `key` collides on every
    /// representable level with a key already stored here.
    pub fn put_recursive(node: &CMapNode, key: &Vec<u8>, value: &Vec<u8>, level: usize) -> (r:
        Option<CMapNode>)
        requires
            node_wf(*node, level as nat),
            !node.is_leaf,
        ensures
            match r {
                Some(n2) => {
                    &&& !n2.is_leaf
                    &&& node_wf(n2, level as nat)
                    &&& node_map(n2) == node_map(*node).insert(key@, value@)
                },
                None => exists|k2: Seq<u8>|
                    #[trigger] node_map(*node).contains_key(k2) && k2 != key@ && !keys_diverge(
                        key@,
                        k2,
                        level as nat,
                    ),
            },
        decreases *node,
    {
        let hash = Self::calculate_hash_for_current_level(key, level);
        let index = get_sparse_index(hash, level);

        let mut node_copy = node.clone_node();
        proof {
            lemma_internal_congruence(*node, node_copy, level as nat);
        }
        let position = node_copy.get_position(hash, level);

        if !node_copy.is_bit_set(index) {
            Some(Self::with_leaf_added(node_copy, key, value, level))
        } else {
            proof {
                assert(slot_wf(*node, index, level as nat));
            }
            let child: &CMapNode = &node.children[position];

            if child.is_leaf {
                if *key == child.key {
                    proof {
                        assert(key@ =~= child.key@);
                    }
                    let new_leaf = CMapNode::new_leaf_node(key, value);
                    node_copy.set_child(position, new_leaf);
                    proof {
                        assert(node_map(child_at(*node, index)) == Map::<
                            Seq<u8>,
                            Seq<u8>,
                        >::empty().insert(key@, child.value@));
                        assert forall|k: Seq<u8>|
                            node_map(*node_copy.children@[position as int]).contains_key(k)
                                implies #[trigger] spec_route(k, level as nat) == index by {
                            assert(k == key@);
                        }
                        lemma_child_replace(*node, node_copy, index, level as nat);
                        assert(Map::<Seq<u8>, Seq<u8>>::empty().insert(key@, child.value@).insert(
                            key@,
                            value@,
                        ) =~= Map::<Seq<u8>, Seq<u8>>::empty().insert(key@, value@));
                        lemma_map_after_put(*node, node_copy, index, level as nat, key@, value@);
                    }
                    Some(node_copy)
                } else {
                    proof {
                        assert(key@ != child.key@) by {
                            if key@ == child.key@ {
                                assert(key.eq_spec(&child.key));
                            }
                        }
                        lemma_node_map_lookup(*node, level as nat, child.key@);
                    }
                    let chain_opt = Self::build_collision_chain(
                        &child.key,
                        &child.value,
                        key,
                        value,
                        level + 1,
                    );
                    match chain_opt {
                        None => {
                            proof {
                                // the stored key cannot be told apart from `key`
                                assert(node_map(*node).contains_key(child.key@));
                                assert(!keys_diverge(key@, child.key@, level as nat)) by {
                                    if keys_diverge(key@, child.key@, level as nat) {
                                        let l = choose|l: nat|
                                            level <= l < usize::MAX && spec_route(key@, l)
                                                != spec_route(child.key@, l);
                                        assert(spec_route(child.key@, level as nat) == index);
                                        assert(l >= level + 1);
                                        assert(keys_diverge(child.key@, key@, (level + 1) as nat));
                                    }
                                }
                            }
                            None
                        },
                        Some(chain) => {
                            let ghost chain_g = chain;
                            node_copy.set_child(position, chain);
                            proof {
                                assert(node_map(child_at(*node, index)) == Map::<
                                    Seq<u8>,
                                    Seq<u8>,
                                >::empty().insert(child.key@, child.value@));
                                assert forall|k: Seq<u8>| node_map(chain_g).contains_key(k)
                                    implies #[trigger] spec_route(k, level as nat) == index by {
                                    assert(k == child.key@ || k == key@);
                                }
                                lemma_child_replace(*node, node_copy, index, level as nat);
                                lemma_map_after_put(
                                    *node,
                                    node_copy,
                                    index,
                                    level as nat,
                                    key@,
                                    value@,
                                );
                            }
                            Some(node_copy)
                        },
                    }
                }
            } else {
                let updated_opt = Self::put_recursive(child, key, value, level + 1);
                match updated_opt {
                    None => {
                        proof {
                            let k2 = choose|k2: Seq<u8>|
                                #[trigger] node_map(*child).contains_key(k2) && k2 != key@
                                    && !keys_diverge(key@, k2, (level + 1) as nat);
                            lemma_node_map_lookup(*node, level as nat, k2);
                            assert(spec_route(k2, level as nat) == index);
                            assert(node_map(*node).contains_key(k2));
                            assert(!keys_diverge(key@, k2, level as nat)) by {
                                if keys_diverge(key@, k2, level as nat) {
                                    let l = choose|l: nat|
                                        level <= l < usize::MAX && spec_route(key@, l)
                                            != spec_route(k2, l);
                                    assert(l >= level + 1);
                                    assert(keys_diverge(key@, k2, (level + 1) as nat));
                                }
                            }
                        }
                        None
                    },
                    Some(updated) => {
                        let ghost updated_g = updated;
                        node_copy.set_child(position, updated);
                        proof {
                            assert forall|k: Seq<u8>| node_map(updated_g).contains_key(k)
                                implies #[trigger] spec_route(k, level as nat) == index by {}
                            lemma_child_replace(*node, node_copy, index, level as nat);
                            lemma_map_after_put(*node, node_copy, index, level as nat, key@, value@);
                        }
                        Some(node_copy)
                    },
                }
            }
        }
    }

    /// Insert `key -> value`, or overwrite the value stored for `key`. The
    /// new trie root is built by path copying and then published. Fails, with
    /// the map unchanged, only when a stored key collides with `key` on every
    /// representable level.
    pub fn put(&mut self, key: Vec<u8>, value: Vec<u8>) -> (r: bool)
        requires
            old(self).wf(),
        ensures
            final(self).wf(),
            r ==> final(self)@ == old(self)@.insert(key@, value@),
            !r ==> *final(self) == *old(self) && (exists|k2: Seq<u8>|
                #[trigger] old(self)@.contains_key(k2) && k2 != key@ && !keys_diverge(key@, k2, 0)),
    {
        let root_ref: &CMapNode = &self.root;
        let path_copy = Self::put_recursive(root_ref, &key, &value, 0);
        match path_copy {
            Some(new_root) => {
                self.root = Arc::new(new_root);
                true
            },
            None => {
                proof {
                    let k2 = choose|k2: Seq<u8>|
                        #[trigger] node_map(*old(self).root).contains_key(k2) && k2 != key@
                            && !keys_diverge(key@, k2, 0);
                    assert(old(self)@.contains_key(k2) && k2 != key@ && !keys_diverge(
                        key@,
                        k2,
                        0,
                    ));
                }
                false
            },
        }
    }

    /// Walk the trie along the hash-directed path of `key` and return the
    /// value stored for it, if any.
    pub fn get_recursive(node: &CMapNode, key: &Vec<u8>, level: usize) -> (r: Option<Vec<u8>>)
        requires
            node_wf(*node, level as nat),
            node.is_leaf ==> node.key@ != key@,
        ensures
            match r {
                Some(v) => node_map(*node).contains_key(key@) && v@ == node_map(*node)[key@],
                None => !node_map(*node).contains_key(key@),
            },
        decreases *node,
    {
        let hash = Self::calculate_hash_for_current_level(key, level);
        let index = get_sparse_index(hash, level);

        if !node.is_bit_set(index) {
            proof {
                if !node.is_leaf {
                    lemma_node_map_lookup(*node, level as nat, key@);
                }
            }
            return None;
        }
        proof {
            lemma_bit_ops();
            assert(!node.is_leaf);
            assert(slot_wf(*node, index, level as nat));
            lemma_node_map_lookup(*node, level as nat, key@);
        }
        let position = node.get_position(hash, level);
        let child: &CMapNode = &node.children[position];

        if child.is_leaf && *key == child.key {
            proof {
                assert(key@ =~= child.key@);
            }
            Some(clone_bytes(&child.value))
        } else {
            proof {
                if child.is_leaf {
                    assert(key@ != child.key@) by {
                        if key@ == child.key@ {
                            assert(key.eq_spec(&child.key));
                        }
                    }
                }
            }
            Self::get_recursive(child, key, level + 1)
        }
    }

    /// Look `key` up in the current snapshot of the map.
    pub fn get(&self, key: Vec<u8>) -> (r: Option<Vec<u8>>)
        requires
            self.wf(),
        ensures
            match r {
                Some(v) => self@.contains_key(key@) && v@ == self@[key@],
                None => !self@.contains_key(key@),
            },
    {
        let root_ref: &CMapNode = &self.root;
        Self::get_recursive(root_ref, &key, 0)
    }
}


impl CMap {
    /// Walk the trie along the hash-directed path of `key` and rebuild that
    /// path without it; an absent key leaves the trie untouched.
    pub fn del_recursive(node: &CMapNode, key: &Vec<u8>, level: usize) -> (r: Option<CMapNode>)
        requires
            node_wf(*node, level as nat),
            node.is_leaf ==> node.key@ != key@,
        ensures
            match r {
                Some(n2) => {
                    &&& !n2.is_leaf
                    &&& node_wf(n2, level as nat)
                    &&& node_map(*node).contains_key(key@)
                    &&& node_map(n2) == node_map(*node).remove(key@)
                },
                None => !node_map(*node).contains_key(key@),
            },
        decreases *node,
    {
        let hash = Self::calculate_hash_for_current_level(key, level);
        let index = get_sparse_index(hash, level);

        if !node.is_bit_set(index) {
            proof {
                if !node.is_leaf {
                    lemma_node_map_lookup(*node, level as nat, key@);
                }
            }
            return None;
        }
        proof {
            lemma_bit_ops();
            assert(!node.is_leaf);
            assert(slot_wf(*node, index, level as nat));
            lemma_node_map_lookup(*node, level as nat, key@);
        }
        let mut node_copy = node.clone_node();
        proof {
            lemma_internal_congruence(*node, node_copy, level as nat);
        }
        let position = node_copy.get_position(hash, level);
        let child: &CMapNode = &node.children[position];

        if child.is_leaf && *key == child.key {
            proof {
                assert(key@ =~= child.key@);
            }
            node_copy.clear_bit(index);
            node_copy.shrink_table(position);
            proof {
                assert(node_map(child_at(*node, index)) == Map::<Seq<u8>, Seq<u8>>::empty().insert(
                    key@,
                    child.value@,
                ));
                lemma_child_remove(*node, node_copy, index, level as nat);
                assert forall|k: Seq<u8>| #[trigger]
                    node_map(child_at(*node, index)).contains_key(k) implies k == key@ by {}
                lemma_map_after_del(*node, node_copy, index, level as nat, key@);
            }
            Some(node_copy)
        } else {
            proof {
                if child.is_leaf {
                    assert(key@ != child.key@) by {
                        if key@ == child.key@ {
                            assert(key.eq_spec(&child.key));
                        }
                    }
                }
            }
            let node_on_path = Self::del_recursive(child, key, level + 1);
            match node_on_path {
                Some(new_node) => {
                    if !new_node.is_leaf && calculate_hamming_weight(new_node.bitmap) == 0 {
                        proof {
                            assert forall|i2: u32| i2 < 32 implies !bit_is_set(
                                new_node.bitmap,
                                i2,
                            ) by {
                                if bit_is_set(new_node.bitmap, i2) {
                                    lemma_count_below_strict(new_node.bitmap, i2, 32);
                                }
                            }
                            lemma_no_bits_no_map(new_node, 32);
                        }
                        node_copy.clear_bit(index);
                        node_copy.shrink_table(position);
                        proof {
                            lemma_child_remove(*node, node_copy, index, level as nat);
                            assert forall|k: Seq<u8>| #[trigger]
                                node_map(child_at(*node, index)).contains_key(k) implies k
                                == key@ by {
                                assert(!node_map(*child).remove(key@).contains_key(k));
                            }
                            lemma_map_after_del(*node, node_copy, index, level as nat, key@);
                        }
                        Some(node_copy)
                    } else {
                        let ghost new_g = new_node;
                        node_copy.set_child(position, new_node);
                        proof {
                            assert forall|k: Seq<u8>| node_map(new_g).contains_key(k)
                                implies #[trigger] spec_route(k, level as nat) == index by {
                                assert(node_map(*child).contains_key(k));
                            }
                            lemma_child_replace(*node, node_copy, index, level as nat);
                            lemma_map_after_del(*node, node_copy, index, level as nat, key@);
                        }
                        Some(node_copy)
                    }
                },
                None => None,
            }
        }
    }

    /// Remove `key` and report whether it was present. The new trie root is
    /// built by path copying and then published; an absent key changes
    /// nothing.
    pub fn del(&mut self, key: Vec<u8>) -> (r: bool)
        requires
            old(self).wf(),
        ensures
            final(self).wf(),
            final(self)@ == old(self)@.remove(key@),
            r == old(self)@.contains_key(key@),
    {
        let root_ref: &CMapNode = &self.root;
        let path_copy = Self::del_recursive(root_ref, &key, 0);
        match path_copy {
            Some(new_root) => {
                self.root = Arc::new(new_root);
                true
            },
            None => {
                proof {
                    assert(old(self)@.remove(key@) =~= old(self)@);
                }
                false
            },
        }
    }

    /// Pre-order walk below `node`, appending one line per reachable node.
    fn print_recursive(node: &CMapNode, level: usize, out: &mut Vec<DumpEntry>)
        requires
            node_wf(*node, level as nat),
        ensures
            final(out)@.len() >= old(out)@.len(),
            forall|j: int| 0 <= j < old(out)@.len() ==> final(out)@[j] == old(out)@[j],
            forall|j: int|
                old(out)@.len() <= j < final(out)@.len() ==> dump_entry_ok(
                    #[trigger] final(out)@[j],
                    node_map(*node),
                ),
            forall|k: Seq<u8>|
                #[trigger] node_map(*node).contains_key(k) ==> key_dumped(
                    final(out)@,
                    old(out)@.len() as int,
                    final(out)@.len() as int,
                    k,
                ),
        decreases *node,
    {
        let entry = DumpEntry {
            level,
            is_leaf: node.is_leaf,
            bitmap: node.bitmap,
            num_children: node.children.len(),
            key: clone_bytes(&node.key),
            value: clone_bytes(&node.value),
        };
        proof {
            assert(dump_entry_ok(entry, node_map(*node)));
        }
        let ghost entry_g = entry;
        out.push(entry);
        if node.is_leaf {
            proof {
                let j0 = old(out)@.len() as int;
                assert(out@[j0] == entry_g);
                assert forall|k: Seq<u8>| #[trigger] node_map(*node).contains_key(k) implies
                    key_dumped(out@, j0, out@.len() as int, k) by {
                    assert(k == node.key@);
                    assert(out@[j0].is_leaf && out@[j0].key@ == k);
                }
            }
            return ;
        }
        let mut p: usize = 0;
        while p < node.children.len()
            invariant
                node_wf(*node, level as nat),
                !node.is_leaf,
                p <= node.children@.len(),
                out@.len() > old(out)@.len(),
                forall|j: int| 0 <= j < old(out)@.len() ==> out@[j] == old(out)@[j],
                forall|j: int|
                    old(out)@.len() <= j < out@.len() ==> dump_entry_ok(
                        #[trigger] out@[j],
                        node_map(*node),
                    ),
                forall|k: Seq<u8>|
                    #[trigger] node_map(*node).contains_key(k) && count_below(
                        node.bitmap,
                        spec_route(k, level as nat) as int,
                    ) < p ==> key_dumped(out@, old(out)@.len() as int, out@.len() as int, k),
            decreases node.children@.len() - p,
        {
            proof {
                lemma_count_below_surj(node.bitmap, 32, p as int);
            }
            let ghost i = choose|i: u32|
                (i as int) < 32 && #[trigger] bit_is_set(node.bitmap, i) && count_below(
                    node.bitmap,
                    i as int,
                ) == p as int;
            proof {
                assert(slot_wf(*node, i, level as nat));
                assert(child_at(*node, i) == *node.children@[p as int]);
                assert forall|k: Seq<u8>|
                    #[trigger] node_map(*node.children@[p as int]).contains_key(k) implies
                    node_map(*node).contains_key(k) && node_map(*node)[k] == node_map(
                        *node.children@[p as int],
                    )[k] by {
                    lemma_node_map_lookup(*node, level as nat, k);
                    assert(spec_route(k, level as nat) == i);
                }
            }
            let ghost before = out@;
            let child: &CMapNode = &node.children[p];
            Self::print_recursive(child, level + 1, out);
            proof {
                assert forall|j: int|
                    old(out)@.len() <= j < out@.len() implies dump_entry_ok(
                        #[trigger] out@[j],
                        node_map(*node),
                    ) by {
                    if before.len() <= j {
                        assert(dump_entry_ok(out@[j], node_map(*node.children@[p as int])));
                    }
                }
                assert forall|k: Seq<u8>|
                    #[trigger] node_map(*node).contains_key(k) && count_below(
                        node.bitmap,
                        spec_route(k, level as nat) as int,
                    ) < p + 1 implies key_dumped(
                    out@,
                    old(out)@.len() as int,
                    out@.len() as int,
                    k,
                ) by {
                    lemma_node_map_lookup(*node, level as nat, k);
                    let r = spec_route(k, level as nat);
                    if count_below(node.bitmap, r as int) < p {
                        // covered by an earlier slot; that line is unchanged
                        let j0 = choose|j: int|
                            old(out)@.len() <= j < before.len() && (#[trigger] before[j]).is_leaf
                                && before[j].key@ == k;
                        assert(out@[j0] == before[j0]);
                    } else {
                        // this key lives under the slot handled in this step
                        assert(bit_is_set(node.bitmap, r));
                        lemma_count_below_strict(node.bitmap, r, 32);
                        assert(count_below(node.bitmap, r as int) == p as int);
                        assert(child_at(*node, r) == *node.children@[p as int]);
                        assert(node_map(*node.children@[p as int]).contains_key(k));
                        let j0 = choose|j: int|
                            before.len() <= j < out@.len() && (#[trigger] out@[j]).is_leaf
                                && out@[j].key@ == k;
                        assert(out@[j0].is_leaf && out@[j0].key@ == k);
                    }
                }
            }
            p = p + 1;
        }
        proof {
            assert forall|k: Seq<u8>| #[trigger] node_map(*node).contains_key(k) implies
                key_dumped(out@, old(out)@.len() as int, out@.len() as int, k) by {
                lemma_node_map_lookup(*node, level as nat, k);
            }
        }
    }

    /// Pre-order dump of the current snapshot: each line shows a node's
    /// depth, shape and payload. Every leaf line is a pair the map holds,
    /// every key the map holds appears on some leaf line, and every internal
    /// line satisfies the popcount invariant.
    pub fn print(&self) -> (r: Vec<DumpEntry>)
        requires
            self.wf(),
        ensures
            forall|j: int| 0 <= j < r@.len() ==> dump_entry_ok(#[trigger] r@[j], self@),
            forall|k: Seq<u8>|
                #[trigger] self@.contains_key(k) ==> key_dumped(r@, 0, r@.len() as int, k),
    {
        let root_ref: &CMapNode = &self.root;
        let mut out: Vec<DumpEntry> = Vec::new();
        Self::print_recursive(root_ref, 0, &mut out);
        out
    }
}

} // verus!

