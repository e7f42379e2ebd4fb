//! A disjoint-set forest (union-find) over elements named by index, with
//! path compression and union by size.
pub mod forest;
pub mod laws;
pub mod partition;

pub use forest::{DisjointSets, SetError};
