//! A file system in memory. The root has number 0.
pub mod node;
pub mod ops;
pub mod paths;
pub mod tree;
