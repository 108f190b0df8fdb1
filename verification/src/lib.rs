//! The logic of a GPU Game of Life viewer: Life-like rules in B/S notation,
//! start patterns (coordinate lists and RLE text), line drawing on the cell
//! grid, rectangular selections, the CPU-side cell state and GPU transfer
//! layout, and what a timeline script requests.
pub mod controls;
pub mod geometry;
pub mod grid;
pub mod patterns;
pub mod rules;
pub mod script;
pub mod selection;
pub mod text;
