//! An in-memory index of a directory subtree.
//!
//! The files of each directory are kept in a height-balanced search tree
//! ordered by name; the directories of the whole subtree are kept in one
//! chained hash table of fixed size.

pub mod entry;
pub mod names;
pub mod avl;
pub mod search;
pub mod hash_table;
pub mod walk;
