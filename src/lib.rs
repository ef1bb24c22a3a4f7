//! An in-memory spatial index over axis-aligned rectangles (an R-tree).
pub mod geometry;
pub mod node;
pub mod split;
pub mod tree;
