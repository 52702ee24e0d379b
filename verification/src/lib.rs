//! A fixed-capacity buddy allocator for pages.
//!
//! The allocator manages one contiguous range of addresses in blocks of
//! `2^k` pages. A complete binary tree names every block: the root is the
//! whole arena, and the two children of a node are the two halves of its
//! block. One bit per node records whether the node is in use.
//!
//! * [`bintree::treemap::TreeMap`] is the bit array.
//! * [`bintree::tree::BinTree`] is the tree: index arithmetic, search, and
//!   marking of whole subtrees. [`bintree::shape`] holds the arithmetic of
//!   the numbering, [`bintree::tally`] the counting of free bits, and
//!   [`bintree::facts`] what follows for the tree.
//! * [`buddy::buddy_allocator::BuddyAllocator`] hands blocks out and takes
//!   them back, and counts the free pages.
//! * [`buddy::ledger`] states what holds from one request to the next, and
//!   [`buddy::history`] what holds through every sequence of requests.
pub mod def;
pub mod bintree;
pub mod buddy;
