//! A bidirected sequence graph: nodes carry byte sequences, edges and
//! paths record the orientation in which each node is traversed.

pub mod handle;
pub mod util;
pub mod dna;
pub mod graph;
pub mod paths;
pub mod edit;
pub mod divide;
pub mod remove;
pub mod traverse;
pub mod mutablehandlegraph;
pub mod laws;
