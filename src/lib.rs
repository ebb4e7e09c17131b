//! Perfect-maze generation on an odd-sized grid by a randomized iterative
//! depth-first carve, with a raster rendering of the finished grid.

pub mod grid;
pub mod random;
pub mod generate;
pub mod tree;
pub mod render;
