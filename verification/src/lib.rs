//! Incremental preprocessing of a repository's commit history into a
//! content-addressed, hash-consed tree of syntax nodes.
//!
//! The library walks each commit's directory tree (given as an in-memory
//! model of the Git object store), classifies directories by their Maven
//! role, folds every subtree into a deduplicated node store, and memoizes
//! immutable subtrees by their object identifier so that unchanged parts of
//! the tree are shared across commits.

pub mod accs;
pub mod analysis;
pub mod bloom;
pub mod hashing;
pub mod labels;
pub mod maps;
pub mod model;
pub mod nodes;
pub mod preprocessed;
pub mod records;

use vstd::prelude::*;

verus! {

/// Reference budget: a subtree whose analysis carries at least this many
/// unresolved references is marked as skipped and its analysis is no longer
/// merged upward.
pub const MAX_REFS: usize = 10000;

/// Policy for files whose concrete syntax tree is malformed: when true the
/// file is dropped with an error, when false a best-effort tree is kept.
pub const PROPAGATE_ERROR_ON_BAD_CST_NODE: bool = false;

} // verus!
