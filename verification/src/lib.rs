//! A hash array mapped trie (HAMT) that maps byte-string keys to byte-string
//! values. Lookups, inserts and deletes walk the trie along 5-bit slices of a
//! seeded 32-bit hash of the key; every update path-copies the nodes from the
//! root to the modification site, sharing all untouched subtrees.
pub mod cmap;
pub mod consts;
pub mod laws;
pub mod murmur;
pub mod node;
pub mod utils;
