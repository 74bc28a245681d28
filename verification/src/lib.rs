//! Deterministic generation core of the procedural city: the seeded random stream,
//! the integer lattice hashes, the zoning and street vocabulary, the walkable graph
//! topology with its breadth-first path queries, and mesh index assembly.

pub mod blocks;
pub mod graph;
pub mod grid;
pub mod noise;
pub mod params;
pub mod rng;
pub mod roads;
pub mod traffic;
pub mod tri;
pub mod zone;
