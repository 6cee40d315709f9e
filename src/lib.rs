//! Maze generation over a raster grid with randomized Prim's algorithm.

pub mod raster;
pub mod random;
pub mod maze;
pub mod geometry;
