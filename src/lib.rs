//! A sparse voxel octree: per-voxel 31-bit ids over a cube whose edge is a
//! power of two, stored as a hash-consed DAG of 2x2x2 nodes with reference
//! counts and a coalescing free list, plus a window that can be moved.

pub mod error;
pub mod free_ranges;
pub mod geometry;
mod counting;
mod isolation;
pub mod model;
pub mod node;
pub mod octree;
pub mod pool;
mod traversal;
pub mod value;
pub mod texture;
