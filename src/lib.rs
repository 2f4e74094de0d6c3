//! Puzzle helpers and a verified solver for rotatable pipe grids.
pub mod pipes;
pub mod utils;
