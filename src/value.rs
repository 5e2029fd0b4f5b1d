use vstd::prelude::*;

verus! {

/// Largest payload (voxel id or pool index) a tagged value can carry.
pub const MAX_PAYLOAD: u32 = 0x7fff_ffff;

/// A tagged 32-bit cell of a tree node: the low bit is the tag (0 = leaf
/// holding a voxel id, 1 = pointer holding a pool index), the high 31 bits
/// are the payload.
#[derive(Clone, Copy, Debug, PartialEq, Eq, Hash, Structural)]
pub struct OctreeValue(pub u32);

impl Default for OctreeValue {
    /// The empty leaf.
    fn default() -> (r: OctreeValue)
        ensures
            r == OctreeValue::leaf(0),
    {
        OctreeValue(0)
    }
}

impl OctreeValue {
    pub open spec fn is_leaf_spec(self) -> bool {
        self.0 % 2 == 0
    }

    pub open spec fn payload(self) -> u32 {
        self.0 / 2
    }

    pub open spec fn leaf(id: u32) -> OctreeValue
        recommends
            id <= MAX_PAYLOAD,
    {
        OctreeValue((2 * id) as u32)
    }

    pub open spec fn pointer(idx: u32) -> OctreeValue
        recommends
            idx <= MAX_PAYLOAD,
    {
        OctreeValue((2 * idx + 1) as u32)
    }

    pub fn new_leaf(value: u32) -> (r: OctreeValue)
        requires
            value <= MAX_PAYLOAD,
        ensures
            r == OctreeValue::leaf(value),
            r.is_leaf_spec(),
            r.payload() == value,
    {
        OctreeValue(value * 2)
    }

    pub fn new_pointer(value: u32) -> (r: OctreeValue)
        requires
            value <= MAX_PAYLOAD,
        ensures
            r == OctreeValue::pointer(value),
            !r.is_leaf_spec(),
            r.payload() == value,
    {
        OctreeValue(value * 2 + 1)
    }

    pub fn is_voxel(&self) -> (r: bool)
        ensures
            r == self.is_leaf_spec(),
    {
        self.0 % 2 == 0
    }

    pub fn is_pointer(&self) -> (r: bool)
        ensures
            r == !self.is_leaf_spec(),
    {
        self.0 % 2 == 1
    }

    pub fn voxel_id(&self) -> (r: Option<u32>)
        ensures
            r == (if self.is_leaf_spec() { Some(self.payload()) } else { None::<u32> }),
    {
        if self.is_voxel() {
            Some(self.to_u32())
        } else {
            None
        }
    }

    pub fn pointer_idx(&self) -> (r: Option<u32>)
        ensures
            r == (if self.is_leaf_spec() { None::<u32> } else { Some(self.payload()) }),
    {
        if self.is_pointer() {
            Some(self.to_u32())
        } else {
            None
        }
    }

    /// The payload, whatever the tag.
    pub fn to_u32(&self) -> (r: u32)
        ensures
            r == self.payload(),
            r <= MAX_PAYLOAD,
    {
        self.0 / 2
    }
}

} // verus!
