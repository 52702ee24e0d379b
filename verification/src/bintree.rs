//! The buddy tree and its bit array.
pub mod def;
pub mod treemap;
pub mod shape;
pub mod tally;
pub mod tree;
pub mod facts;
