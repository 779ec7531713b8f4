//! Incremental change tracking for a GUFI index: a tree whose leaves are the
//! highest directories that changed, path translation between the MarFS
//! reference tree and the user tree, and the changelog state file format.

pub mod arena;
pub mod highest_change_tree;
pub mod text;
pub mod tree_model;
pub mod change_tree;
pub mod laws;
pub mod marfs_pathman;
pub mod changelog;
pub mod change_finder;
pub mod listing;
pub mod leaf_set;
