use vstd::prelude::*;

use crate::geometry::UVec3;
use crate::value::OctreeValue;

verus! {

/// The content key of a node: its eight raw tagged values.
pub type NodeKey = (u32, u32, u32, u32, u32, u32, u32, u32);

/// One branching level of the tree: 2x2x2 tagged values. The cell of
/// quadrant (x, y, z) sits at `x + 2 * y + 4 * z`.
#[derive(Clone, Copy, Debug)]
pub struct OctreeNode {
    pub data: [OctreeValue; 8],
}

/// Position of quadrant `q` (each axis 0 or 1) among a node's eight cells.
pub open spec fn cell_of(q: UVec3) -> int {
    q.x + 2 * q.y + 4 * q.z
}

pub open spec fn is_quadrant(q: UVec3) -> bool {
    q.x <= 1 && q.y <= 1 && q.z <= 1
}

pub open spec fn key_of(s: Seq<OctreeValue>) -> NodeKey {
    (s[0].0, s[1].0, s[2].0, s[3].0, s[4].0, s[5].0, s[6].0, s[7].0)
}

impl OctreeNode {
    pub open spec fn view(&self) -> Seq<OctreeValue> {
        self.data@
    }

    pub open spec fn key(&self) -> NodeKey {
        key_of(self.data@)
    }

    /// A node whose eight cells are all empty leaves.
    pub fn new() -> (r: OctreeNode)
        ensures
            r@ == Seq::new(8, |i: int| OctreeValue(0)),
    {
        let r = OctreeNode { data: [OctreeValue(0); 8] };
        assert(r@ =~= Seq::new(8, |i: int| OctreeValue(0)));
        r
    }

    /// A node whose eight cells all hold `value`.
    pub fn with_value(value: OctreeValue) -> (r: OctreeNode)
        ensures
            r@ == Seq::new(8, |i: int| value),
    {
        let r = OctreeNode { data: [value; 8] };
        assert(r@ =~= Seq::new(8, |i: int| value));
        r
    }

    pub fn value(&self, quadrant: UVec3) -> (r: OctreeValue)
        requires
            is_quadrant(quadrant),
        ensures
            r == self@[cell_of(quadrant)],
    {
        let i = (quadrant.x + 2 * quadrant.y + 4 * quadrant.z) as usize;
        self.data[i]
    }

    pub fn set_value(&mut self, quadrant: UVec3, value: OctreeValue)
        requires
            is_quadrant(quadrant),
        ensures
            final(self)@ == old(self)@.update(cell_of(quadrant), value),
    {
        let i = (quadrant.x + 2 * quadrant.y + 4 * quadrant.z) as usize;
        self.data[i] = value;
    }

    pub fn key_exec(&self) -> (r: NodeKey)
        ensures
            r == self.key(),
    {
        let d = &self.data;
        (d[0].0, d[1].0, d[2].0, d[3].0, d[4].0, d[5].0, d[6].0, d[7].0)
    }
}

/// Nodes with equal keys have equal contents.
pub proof fn lemma_key_injective(a: OctreeNode, b: OctreeNode)
    requires
        a.key() == b.key(),
    ensures
        a@ == b@,
{
    assert(a@.len() == 8 && b@.len() == 8);
    assert(a@ =~= b@);
}

} // verus!
