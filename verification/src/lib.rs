//! Broad-phase collision search for axis-aligned boxes on an integer grid.
//!
//! The heart of the crate is a binary space-partitioning tree
//! ([`bsp::tree::Tree`]): built over the bounding boxes of a set of bodies,
//! it reports every pair of bodies whose boxes overlap, and is proved to
//! report what a comparison of every box with every other would.
//! Around it stand the boxes and partitions it is built from, a quadtree
//! over the same boxes, and two small vectors with inline storage.
//!
//! Coordinates are signed 64-bit integers. The trees compare coordinates
//! and nowhere measure them, except for the midpoint at which a node
//! splits, so a host whose positions are not integers may hand in any
//! integers that are ordered as its positions are.
//!
//! Every function is verified against its contract; the two calls into the
//! standard library that are taken on trust say so in their documentation.

pub mod bsp;
pub mod primitive;
pub mod sequence;
pub mod util;
pub mod world;
