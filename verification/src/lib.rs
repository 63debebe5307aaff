//! A fixed-height sparse Merkle tree over a content-addressed node store.
//!
//! The tree commits to a large, sparsely populated key space: every leaf
//! starts out holding a canonical empty value, a leaf is addressed by a
//! most-significant-bit-first path of booleans, and a sibling path extracted
//! for one leaf lets a third party recompute the root from a claimed leaf
//! value alone.

pub mod bits;
pub mod digest;
pub mod element;
pub mod laws;
pub mod proofs;
pub mod tree;
