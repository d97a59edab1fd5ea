//! A spatial index over point masses: an octree built by inserting bodies
//! one after another, each descending through the octants of the boxes it
//! passes until it finds a free node.
pub mod geometry;
pub mod tree;

pub use geometry::{Cuboid, Point, Range};
pub use tree::{Body, InsertError, OctreeNode, Simulation, MAX_DEPTH};
