//! An in-memory mirror of a directory subtree, kept consistent by a
//! stream of incremental change events.
//!
//! [`entry`] holds the tree node type and its mathematical model,
//! [`file_tree`] the path-addressed mutation engine, and [`project`]
//! the builder that folds a full directory walk into a tree.

pub mod entry;
pub mod file_tree;
pub mod project;
