//! A fixed-size two-dimensional container with a block-tiled physical layout,
//! together with a coordinate-remapping pipeline that applies geometric
//! transforms (rotations, flips, transpose) to a grid of pixels while reading
//! the grid in row-major, column-major, or block-tiled physical order.

pub mod block;
pub mod effect;
pub mod laws;
pub mod pipeline;
