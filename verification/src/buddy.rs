//! The page allocator.
pub mod def;
pub mod buddy_allocator;
pub mod ledger;
pub mod history;
