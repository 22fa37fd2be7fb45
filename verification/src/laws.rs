use vstd::prelude::*;

use crate::cmap::{child_at, node_wf};
use crate::node::CMapNode;
use crate::utils::{bit_is_set, spec_popcount};

verus! {

/// After a pair is inserted, looking its key up yields the inserted value.
pub proof fn lemma_insert_then_get(m: Map<Seq<u8>, Seq<u8>>, k: Seq<u8>, v: Seq<u8>)
    ensures
        m.insert(k, v).contains_key(k),
        m.insert(k, v)[k] == v,
{
}

/// Inserting twice under one key keeps the second value, and the set of keys
/// — the map's logical size — is the same as after the first insert.
pub proof fn lemma_overwrite(m: Map<Seq<u8>, Seq<u8>>, k: Seq<u8>, v1: Seq<u8>, v2: Seq<u8>)
    ensures
        m.insert(k, v1).insert(k, v2) == m.insert(k, v2),
        m.insert(k, v1).insert(k, v2).dom() == m.insert(k, v1).dom(),
{
    assert(m.insert(k, v1).insert(k, v2) =~= m.insert(k, v2));
    assert(m.insert(k, v1).insert(k, v2).dom() =~= m.insert(k, v1).dom());
}

/// After a key is inserted and then deleted, looking it up finds nothing, and
/// the map is what deleting the key from the original map gives.
pub proof fn lemma_delete_then_get(m: Map<Seq<u8>, Seq<u8>>, k: Seq<u8>, v: Seq<u8>)
    ensures
        !m.insert(k, v).remove(k).contains_key(k),
        m.insert(k, v).remove(k) == m.remove(k),
{
    assert(m.insert(k, v).remove(k) =~= m.remove(k));
}

/// Operations on one key leave every other key's binding untouched: an insert
/// or a delete at `k1` neither adds, removes nor changes the value of `k2`.
pub proof fn lemma_independence(m: Map<Seq<u8>, Seq<u8>>, k1: Seq<u8>, v1: Seq<u8>, k2: Seq<u8>)
    requires
        k1 != k2,
    ensures
        m.insert(k1, v1).contains_key(k2) == m.contains_key(k2),
        m.contains_key(k2) ==> m.insert(k1, v1)[k2] == m[k2],
        m.remove(k1).contains_key(k2) == m.contains_key(k2),
        m.contains_key(k2) ==> m.remove(k1)[k2] == m[k2],
{
}

/// Every reachable internal node of a well-formed trie satisfies the popcount
/// invariant — its child table is exactly as long as its bitmap has set bits —
/// and each of its children is well-formed in turn, so the invariant extends
/// to everything below it.
pub proof fn lemma_popcount_invariant(n: CMapNode, level: nat)
    requires
        node_wf(n, level),
        !n.is_leaf,
    ensures
        n.children@.len() == spec_popcount(n.bitmap),
        forall|i: u32|
            i < 32 && #[trigger] bit_is_set(n.bitmap, i) ==> node_wf(child_at(n, i), level + 1),
{
    assert forall|i: u32| i < 32 && #[trigger] bit_is_set(n.bitmap, i) implies node_wf(
        child_at(n, i),
        level + 1,
    ) by {
        assert(crate::cmap::slot_wf(n, i, level));
    }
}

} // verus!
