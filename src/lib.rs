//! Classical graph and tree algorithms with machine-checked contracts.
use vstd::prelude::*;

pub mod bellman_ford;
pub mod binary_search_tree;
pub mod dijkstra;
pub mod prim;
pub mod union_find_tree;
pub mod warshall_floyd;

pub use binary_search_tree::BinarySearchTree;

verus! {

/// The value that stands for "no path": three of them still fit in an `i64`.
pub const INF: i64 = 3074457345618258602;

} // verus!
