//! Compare two hierarchical configuration documents by their key paths.
//!
//! A document is a tree of tables and leaves ([`tree::Tree`]). It is flattened
//! into a list of key paths with their leaf values, the key paths of two
//! documents are filtered by an exclusion list, and the survivors are
//! partitioned into those found only in the first, only in the second, or in
//! both documents ([`keys`]).

pub mod keys;
pub mod tree;
