//! Constants of the buddy tree.
use vstd::prelude::*;
use crate::buddy::def::{MAX_PAGES, PAGE_SIZE};

verus! {

/// The size of the smallest block, a leaf of the tree, in bytes.
pub const MIN_SIZE: usize = PAGE_SIZE;

/// The largest number of levels of a tree.
pub const MAX_LEVEL: usize = 11;

/// The largest number of leaves of a tree: `2^(MAX_LEVEL - 1)`.
pub const MAX_LEAVES: usize = MAX_PAGES;

/// The largest number of nodes of a tree: `2^MAX_LEVEL - 1`.
pub const MAX_NODES: usize = 2 * MAX_LEAVES - 1;

/// The size of the largest block, the root of a full tree, in bytes.
#[verifier::nonlinear]
pub const MAX_SIZE: usize = MIN_SIZE * MAX_LEAVES;

/// The number of 64-bit words that hold one bit for each node.
pub const MAP_WORDS: usize = (MAX_NODES + 63) / 64;

} // verus!
