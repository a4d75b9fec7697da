//! A Merkle hash-tree accumulator over SHA-256.
//!
//! Two structures share one hashing rule: a leaf is the digest of an item's
//! bytes, and a parent is the digest of its left child's digest followed by
//! its right child's digest.
//!
//! - [`tree::Tree`] is a layered accumulator: items are buffered by `insert`
//!   and folded into the persistent layers by `commit`.
//! - [`tree::node::Node`] is an owned binary tree built once from a fixed list
//!   of items, from which membership paths are extracted.
//!
//! Odd layers: when a layer has an odd number of digests, the last one has no
//! partner and is promoted to the next layer unchanged. Both structures follow
//! this rule, so they agree on the root of any non-empty list of items.
pub mod hash;
pub mod tree;
