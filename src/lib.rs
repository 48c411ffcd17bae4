//! Conway's Game of Life on a grid that grows without bound in every direction.
pub mod symvec;
pub mod board;
pub mod engine;
