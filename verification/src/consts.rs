use vstd::prelude::*;

verus! {

/// Number of hash bits consumed per trie level.
pub const BIT_CHUNK_SIZE: usize = 5;

/// Number of 5-bit slices taken from one hash before the key is rehashed
/// with the next seed.
pub const HASH_CHUNKS: usize = 6;

} // verus!
