//! A directed graph over arbitrary comparable vertex values, with interned
//! vertex storage, adjacency queries and breadth-first reachability, and the
//! funding graph of a run of transactions built on it.
use vstd::prelude::*;

pub mod funding;
pub mod graph;
mod positions;
pub mod walk;

verus! {

} // verus!
