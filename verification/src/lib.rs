//! A small-world graph generator paired with a force-directed layout
//! engine.
//!
//! The generator builds a Watts-Strogatz topology: a ring lattice whose
//! edges are probabilistically rewired. The layout engine positions the
//! nodes in 2D by a grid-accelerated physical simulation: repulsion between
//! nearby nodes, spring attraction along edges, gravity toward a center,
//! and a damped, clamped integration step. All coordinates are fixed-point
//! integers; randomness comes from an explicitly threaded, seeded PRNG, so
//! every result is a pure function of its inputs.

pub mod edge;
pub mod generators;
pub mod graph;
pub mod grid;
pub mod node;
pub mod num;
pub mod sim;

pub use crate::generators::utils::generate_nodes;
pub use crate::generators::watts_strogatz::generate_watts_strogatz_graph;
pub use crate::graph::Graph;
