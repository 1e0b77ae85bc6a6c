//! The concept engine: concept graphs, their geometry and topology, and the memory and
//! the limits that their deformation works with.

pub mod gam;
pub mod geo;
pub mod graph;
pub mod homology;
pub mod memory;
pub mod morph;
