//! A maze-graph engine over a 2-D lattice: cells, grids (rectangular and
//! polar), irregular-shape masking, randomized spanning-tree generation
//! algorithms, and breadth-first distance/path computation.

pub mod algorithms;
pub mod cell;
pub mod distances;
pub mod grid;
pub mod mask;
pub mod point;
pub mod rng;
