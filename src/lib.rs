//! An index-based arena that assembles the tree of nested calls observed
//! while a single execution is traced.
pub mod arena;
pub mod types;
