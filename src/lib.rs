//! Topology model and graph projection for an OSPF link-state dashboard.
//!
//! The library turns the text dump of a routing daemon into a topology
//! model, projects the backbone area into a weighted graph, and holds the
//! admission pool and update-loop decisions of the dashboard server.
use vstd::prelude::*;

pub mod block;
pub mod entry;
pub mod graph;
pub mod text;
pub mod tokens;
pub mod topology;
pub mod update;

verus! {

} // verus!
