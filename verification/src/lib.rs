//! Two classic in-memory data structures with verified contracts: a binary
//! search tree with parent back-links, and an array-backed binary heap
//! supporting construction, peek-minimum and extract-minimum in its min
//! orientation.

pub mod bst;
pub mod priority_queue;
