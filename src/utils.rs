//! General helpers: text lines, vectors, grids, ranges and small number routines.
pub mod grid2d;
pub mod text;
pub mod vector2d;
pub mod grid3d;
pub mod vector3d;
pub mod misc;
pub mod parse;
pub mod range;
