//! An array-backed binary-heap priority queue with first-in-first-out
//! tie-breaking among elements of equal key, in a max or a min orientation,
//! together with a small consumer that folds weighted symbols into a
//! prefix-free code tree.

pub mod data;
pub mod huffman;
