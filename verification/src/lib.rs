//! A catalog of interchangeable part numbers.
//!
//! Part numbers that are mutually substitutable are clustered into groups,
//! and asymmetric "supersedes / fits" relations between groups are kept as a
//! directed graph. The engine ingests relation records one at a time and
//! incrementally updates the grouping and the link graph, merging groups
//! whenever new evidence (an explicit bidirectional relation, or a directed
//! chain that closes a cycle) proves two groups are the same equivalence
//! class.

pub mod model;
pub mod reach;
pub mod store;
pub mod laws;

pub use crate::store::FFFC;
