//! A binary hash tree over an ordered list of items.
//!
//! The tree commits to the whole list with one digest, its root, and hands
//! out short membership proofs for single items. Digests are SHA-256 values
//! in lowercase hexadecimal text; a pair of digests is combined by hashing
//! the concatenation of their hexadecimal texts, left one first.

pub mod digest;
pub mod laws;
pub mod tree;
