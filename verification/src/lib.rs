//! A space-efficient append-only Merkle tree with witnessing, authentication
//! paths and check-pointed rewind.
//!
//! The tree retains only O(log n) digests per tracked leaf: a *frontier*
//! (the rightmost leaf pair plus the stack of "ommers", the sibling hashes
//! of each populated subtree), and, per witnessed leaf, a growing fragment
//! of its authentication path.

pub mod position;
pub mod hashing;
pub mod frontier;
pub mod fragment;
pub mod bridge;
pub mod tree;
pub mod text_hash;
pub mod laws;
