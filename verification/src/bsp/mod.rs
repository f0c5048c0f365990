//! Boxes, partitions and the partitioning tree.

pub mod aabb;
pub mod entry;
pub mod node;
pub mod pairs;
pub mod partition;
pub mod quadtree;
pub mod tree;
