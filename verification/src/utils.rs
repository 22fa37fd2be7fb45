use vstd::prelude::*;

use crate::consts::{BIT_CHUNK_SIZE, HASH_CHUNKS};

verus! {

/// True when bit `i` of `b` is set (`i` in 0..32).
pub open spec fn bit_is_set(b: u32, i: u32) -> bool
    recommends
        i < 32,
{
    b & (1u32 << i) != 0
}

/// Number of set bits of `b` at positions strictly below `i`. Opaque: the
/// lemmas below state everything callers need of it.
#[verifier::opaque]
pub open spec fn count_below(b: u32, i: int) -> nat
    decreases i,
{
    if i <= 0 {
        0
    } else {
        count_below(b, i - 1) + (if bit_is_set(b, (i - 1) as u32) {
            1nat
        } else {
            0nat
        })
    }
}

/// Number of set bits of `b` (its Hamming weight).
pub open spec fn spec_popcount(b: u32) -> nat {
    count_below(b, 32)
}

/// The 5-bit slice of `hash` used at a stage in 0..6, counted from the most
/// significant bits downward.
pub open spec fn spec_get_index(hash: u32, stage: nat) -> u32
    recommends
        stage < HASH_CHUNKS,
{
    (hash >> ((32 - BIT_CHUNK_SIZE * (stage + 1)) as u32)) & 31
}

/// The 5-bit slot index a hash selects at a trie level; levels repeat the six
/// stages of one hash before the trie moves on to the next seed.
pub open spec fn spec_sparse_index(hash: u32, level: nat) -> u32 {
    spec_get_index(hash, level % (HASH_CHUNKS as nat))
}

/// Bit-level facts about set, clear and mask operations, shared by the
/// counting lemmas below.
pub proof fn lemma_bit_ops()
    by (bit_vector)
    ensures
        forall|b: u32, i: u32, j: u32|
            i < 32 && j < 32 && i != j ==> bit_is_set(b | (1u32 << i), j) == bit_is_set(b, j),
        forall|b: u32, i: u32| i < 32 ==> bit_is_set(b | (1u32 << i), i),
        forall|b: u32, i: u32, j: u32|
            i < 32 && j < 32 && i != j ==> bit_is_set(b & !(1u32 << i), j) == bit_is_set(b, j),
        forall|b: u32, i: u32| i < 32 ==> !bit_is_set(b & !(1u32 << i), i),
        forall|b: u32, i: u32, j: u32|
            i < 32 && j < 32 ==> #[trigger] bit_is_set(b & (((1u32 << i) - 1) as u32), j) == (j < i
                && bit_is_set(b, j)),
        forall|x: u32| #[trigger] (x & 31) < 32,
        forall|b: u32, i: u32| i < 32 ==> (((b >> i) & 1) == 1) == bit_is_set(b, i),
        forall|b: u32, i: u32| i < 32 ==> ((b >> i) & 1) <= 1,
        forall|i: u32, j: u32| i < 32 && j < 32 && i != j ==> !bit_is_set(1u32 << i, j),
        forall|i: u32| i < 32 ==> bit_is_set(1u32 << i, i),
        forall|i: u32| i < 32 ==> !bit_is_set(0u32, i),
{
}

/// A word without set bits has count zero below every position.
pub proof fn lemma_count_below_zero(b: u32, j: int)
    requires
        forall|i: u32| i < 32 ==> !bit_is_set(b, i),
        j <= 32,
    ensures
        count_below(b, j) == 0,
    decreases j,
{
    reveal(count_below);
    if j > 0 {
        lemma_count_below_zero(b, j - 1);
    }
}

/// Counting set bits is monotone in the position bound.
pub proof fn lemma_count_below_mono(b: u32, j1: int, j2: int)
    requires
        j1 <= j2,
    ensures
        count_below(b, j1) <= count_below(b, j2),
    decreases j2 - j1,
{
    reveal(count_below);
    if j1 < j2 {
        lemma_count_below_mono(b, j1, j2 - 1);
    }
}

/// A set bit at `i` contributes to every count whose bound exceeds `i`.
pub proof fn lemma_count_below_strict(b: u32, i: u32, j: int)
    requires
        i < 32,
        bit_is_set(b, i),
        i < j,
    ensures
        count_below(b, i as int) < count_below(b, j),
{
    reveal(count_below);
    assert(count_below(b, i + 1) == count_below(b, i as int) + 1);
    lemma_count_below_mono(b, i + 1, j);
}

/// Setting a clear bit `i` raises by one every count whose bound exceeds `i`
/// and leaves the others unchanged.
pub proof fn lemma_count_below_set(b: u32, i: u32, j: int)
    requires
        i < 32,
        !bit_is_set(b, i),
        j <= 32,
    ensures
        count_below(b | (1u32 << i), j) == count_below(b, j) + (if i < j {
            1nat
        } else {
            0nat
        }),
    decreases j,
{
    reveal(count_below);
    lemma_bit_ops();
    if j > 0 {
        lemma_count_below_set(b, i, j - 1);
    }
}

/// Clearing a set bit `i` lowers by one every count whose bound exceeds `i`
/// and leaves the others unchanged.
pub proof fn lemma_count_below_clear(b: u32, i: u32, j: int)
    requires
        i < 32,
        bit_is_set(b, i),
        j <= 32,
    ensures
        count_below(b & !(1u32 << i), j) + (if i < j {
            1nat
        } else {
            0nat
        }) == count_below(b, j),
    decreases j,
{
    reveal(count_below);
    lemma_bit_ops();
    if j > 0 {
        lemma_count_below_clear(b, i, j - 1);
    }
}

/// Masking `b` below position `i` turns the full popcount into a bounded count.
pub proof fn lemma_count_below_mask(b: u32, i: u32, j: int)
    requires
        i < 32,
        j <= 32,
    ensures
        count_below(b & (((1u32 << i) - 1) as u32), j) == count_below(
            b,
            if j <= i as int {
                j
            } else {
                i as int
            },
        ),
    decreases j,
{
    reveal(count_below);
    lemma_bit_ops();
    if j > 0 {
        lemma_count_below_mask(b, i, j - 1);
    }
}

/// Every dense position below the count corresponds to some set bit.
pub proof fn lemma_count_below_surj(b: u32, j: int, p: int)
    requires
        0 <= p < count_below(b, j),
        j <= 32,
    ensures
        exists|i: u32|
            (i as int) < j && #[trigger] bit_is_set(b, i) && count_below(b, i as int) == p,
    decreases j,
{
    reveal(count_below);
    if j > 0 {
        if bit_is_set(b, (j - 1) as u32) && p == count_below(b, j - 1) {
            assert((((j - 1) as u32) as int) < j && bit_is_set(b, (j - 1) as u32) && count_below(
                b,
                ((j - 1) as u32) as int,
            ) == p);
        } else {
            lemma_count_below_surj(b, j - 1, p);
        }
    }
}

/// Hamming weight of a 32-bit word, counted bit by bit.
pub fn calculate_hamming_weight(bitmap: u32) -> (r: u32)
    ensures
        r == spec_popcount(bitmap),
{
    let mut count: u32 = 0;
    let mut i: u32 = 0;
    proof {
        reveal(count_below);
    }
    while i < 32
        invariant
            i <= 32,
            count == count_below(bitmap, i as int),
            count <= i,
        decreases 32 - i,
    {
        proof {
            reveal(count_below);
            lemma_bit_ops();
        }
        count = count + ((bitmap >> i) & 1);
        i = i + 1;
    }
    count
}

/// The 5-bit slice of `hash` for a stage in 0..6, taken from the most
/// significant bits downward.
pub fn get_index(hash: u32, level: usize) -> (r: u32)
    requires
        level < HASH_CHUNKS,
    ensures
        r == spec_get_index(hash, level as nat),
        r < 32,
{
    let slots: u32 = 32;
    let shift_size: u32 = slots - (BIT_CHUNK_SIZE * (level + 1)) as u32;
    let mask: u32 = slots - 1;
    let r = (hash >> shift_size) & mask;
    proof {
        lemma_bit_ops();
    }
    r
}

/// The slot index selected by `hash` at a trie level; the level is reduced to
/// its stage within the current hash.
pub fn get_sparse_index(hash: u32, level: usize) -> (r: u32)
    ensures
        r == spec_sparse_index(hash, level as nat),
        r < 32,
{
    let updated_level = level % HASH_CHUNKS;
    get_index(hash, updated_level)
}

} // verus!
