//! A map from disjoint, half-open ranges of `usize` keys to values.
//!
//! The map is a red-black binary search tree keyed by range. Insertion
//! rejects any range that overlaps an already-stored one, leaving the tree
//! untouched; point lookup descends the tree in logarithmic time.

pub mod laws;
pub mod map;
pub mod node;
