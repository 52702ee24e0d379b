//! Constants of the page allocator.
use vstd::prelude::*;
use crate::bintree::def::{MAP_WORDS, MAX_NODES};
use crate::def::PGSZ;

verus! {

/// An address in the arena.
pub type MemPtr = usize;

/// The size of a page in bytes.
pub const PAGE_SIZE: usize = PGSZ;

/// The largest number of pages that one allocator manages.
pub const MAX_PAGES: usize = 1024;

/// The size in bytes of the tree that an allocator keeps, on a machine
/// with addresses of 64 bits: its level, the address of each node, and one
/// bit for each node in 64-bit words.
pub const ZONE_SIZE: usize = 8 + 8 * MAX_NODES + 8 * MAP_WORDS;

/// The number of pages at the start of an arena that are kept for the
/// allocator's own tree: `ZONE_SIZE` in whole pages.
pub const ZONE_PAGES: usize = (ZONE_SIZE + PAGE_SIZE - 1) / PAGE_SIZE;

} // verus!
