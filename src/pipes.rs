//! A solver for grids of rotatable pipe tiles.
pub mod tile;
pub mod glyph;
pub mod board;
pub mod propagate;
pub mod search;
pub mod solver;
pub mod frame;
pub mod render;

pub use solver::{part_one, part_two};
