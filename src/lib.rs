//! Tiling of a bounded two-dimensional sky domain with periodic reflection of
//! tiles near its edges, and a packed two-level spatial index over boxes.
//!
//! Coordinates are integers in arcseconds: a longitude axis and a latitude axis.
pub mod geometry;
pub mod sky;
pub mod sort;
pub mod tree;
