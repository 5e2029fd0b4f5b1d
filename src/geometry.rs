use vstd::prelude::*;

verus! {

/// An unsigned 3D integer coordinate.
#[derive(Clone, Copy, Debug, PartialEq, Eq, Structural)]
pub struct UVec3 {
    pub x: u32,
    pub y: u32,
    pub z: u32,
}

/// A signed 3D integer vector (a world-space position or a displacement).
#[derive(Clone, Copy, Debug, PartialEq, Eq, Structural)]
pub struct IVec3 {
    pub x: i32,
    pub y: i32,
    pub z: i32,
}

impl UVec3 {
    pub fn new(x: u32, y: u32, z: u32) -> (r: UVec3)
        ensures
            r == (UVec3 { x, y, z }),
    {
        UVec3 { x, y, z }
    }
}

impl IVec3 {
    pub fn new(x: i32, y: i32, z: i32) -> (r: IVec3)
        ensures
            r == (IVec3 { x, y, z }),
    {
        IVec3 { x, y, z }
    }
}

/// Axis-aligned box over unsigned coordinates, with inclusive corners.
pub struct UAabb {
    pub min: UVec3,
    pub max: UVec3,
}

impl UAabb {
    pub open spec fn spec_contains(&self, p: UVec3) -> bool {
        &&& self.min.x <= p.x <= self.max.x
        &&& self.min.y <= p.y <= self.max.y
        &&& self.min.z <= p.z <= self.max.z
    }

    pub fn new(min: UVec3, max: UVec3) -> (r: UAabb)
        ensures
            r.min == min,
            r.max == max,
    {
        UAabb { min, max }
    }

    /// True iff every axis of `point` lies within `[min, max]`.
    pub fn contains(&self, point: UVec3) -> (r: bool)
        ensures
            r == self.spec_contains(point),
    {
        point.x >= self.min.x && point.x <= self.max.x && point.y >= self.min.y && point.y
            <= self.max.y && point.z >= self.min.z && point.z <= self.max.z
    }
}

} // verus!
