//! Assignment of atom types to the nodes of a graph, minimising the pairwise
//! interaction energy summed over the edges under a quota per atom type.
pub mod assignment;
pub mod choice;
pub mod construct;
pub mod counting;
pub mod energy;
pub mod format;
pub mod graph;
pub mod pairs;
pub mod problem;
pub mod rng;
pub mod search;
pub mod solver;
pub mod text;
