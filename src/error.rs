use vstd::prelude::*;

verus! {

/// Why an octree operation could not be carried out.
#[derive(Clone, Copy, Debug, PartialEq, Eq, Structural)]
pub enum OctreeError {
    /// The requested tree size is not a power of two of at least 2.
    InvalidSize,
    /// No pool index or reference count is left to represent another node.
    PoolExhausted,
}

} // verus!
