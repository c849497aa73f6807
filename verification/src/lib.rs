//! Exact counting, graph construction and sampling of polyomino tilings.
//!
//! A [`board::Board`] records which cells of a rectangular grid are covered.
//! Tiles are laid one at a time onto the first uncovered cell in row-major
//! order, so every tiling corresponds to exactly one sequence of placements.

pub mod board;
pub mod tile;
pub mod expand;
pub mod paths;
pub mod counter;
pub mod graph;
pub mod builder;
pub mod graph_counter;
pub mod sampler;
pub mod laws;
pub mod numbering;
pub mod tiler;
