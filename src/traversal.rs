//! Cursor state and its moves: descent, re-ascension by subtree box, and
//! the facts that tie a cursor's path to the tree it walks.

use vstd::prelude::*;

use crate::geometry::{IVec3, UAabb, UVec3};
use crate::model::{
    is_pow2, lemma_level, lemma_level_multiple, lemma_quadrant_of_is_quadrant,
    lemma_same_block_same_quadrant, level_qs, lookup, quadrant_of, cell_towards, MAX_QUADRANT_SIZE,
};
use crate::node::{cell_of, is_quadrant, OctreeNode};
use crate::pool::pointers_below;
use crate::value::{OctreeValue, MAX_PAYLOAD};

verus! {

/// Index of the ancestor `k` levels below the root on a cursor's path, or
/// the cursor's own node when `k` is the path's length.
pub open spec fn chain_at(parents: Seq<u32>, cur: u32, k: int) -> u32 {
    if k < parents.len() {
        parents[k]
    } else {
        cur
    }
}

/// Cursor state: the ancestors from the root down, the current node, the
/// voxel coordinate, and the half-extent of the current node's quadrants.
#[derive(Debug)]
pub(crate) struct VoxelCursorInner {
    pub(crate) parent_idxs: Vec<u32>,
    pub(crate) data_idx: u32,
    pub(crate) pos: UVec3,
    pub(crate) quadrant_size: u32,
}

impl VoxelCursorInner {
    /// The ancestors and the current node are the nodes met when descending
    /// from `entry` towards `pos`.
    pub(crate) open spec fn on_path(&self, nodes: Seq<OctreeNode>, entry: u32, root: nat) -> bool {
        let n = self.parent_idxs@.len();
        &&& chain_at(self.parent_idxs@, self.data_idx, 0) == entry
        &&& self.quadrant_size as nat == level_qs(root, n)
        &&& 1 <= self.quadrant_size <= root
        &&& nodes.len() <= MAX_PAYLOAD + 1
        &&& forall|k: int| 0 <= k <= n ==> #[trigger] chain_at(self.parent_idxs@, self.data_idx, k) < nodes.len()
        &&& forall|k: int|
            0 <= k < n ==> nodes[chain_at(self.parent_idxs@, self.data_idx, k) as int]@[cell_of(
                quadrant_of(self.pos, level_qs(root, k as nat)),
            )] == OctreeValue::pointer(#[trigger] chain_at(self.parent_idxs@, self.data_idx, k + 1))
    }

    pub(crate) fn new(data_idx: u32, pos: UVec3, quadrant_size: u32) -> (r: VoxelCursorInner)
        ensures
            r.parent_idxs@.len() == 0,
            r.data_idx == data_idx,
            r.pos == pos,
            r.quadrant_size == quadrant_size,
    {
        VoxelCursorInner { parent_idxs: Vec::new(), data_idx, pos, quadrant_size }
    }

    pub(crate) fn get_quadrant(&self) -> (r: UVec3)
        requires
            self.quadrant_size >= 1,
        ensures
            r == quadrant_of(self.pos, self.quadrant_size as nat),
            is_quadrant(r),
    {
        let qs = self.quadrant_size;
        UVec3::new((self.pos.x / qs) % 2, (self.pos.y / qs) % 2, (self.pos.z / qs) % 2)
    }

    pub(crate) fn value(&self, data: &Vec<OctreeNode>) -> (r: OctreeValue)
        requires
            self.quadrant_size >= 1,
            self.data_idx < data@.len(),
        ensures
            r == data@[self.data_idx as int]@[cell_of(quadrant_of(self.pos, self.quadrant_size as nat))],
    {
        data[self.data_idx as usize].value(self.get_quadrant())
    }

    /// On a path, the tree's value at the cursor's coordinate is the value
    /// reached from the cursor's own node.
    pub(crate) proof fn lemma_on_path_lookup(&self, nodes: Seq<OctreeNode>, entry: u32, root: nat)
        requires
            self.on_path(nodes, entry, root),
            is_pow2(root),
        ensures
            lookup(nodes, entry as int, root, self.pos) == lookup(
                nodes,
                self.data_idx as int,
                self.quadrant_size as nat,
                self.pos,
            ),
    {
        self.lemma_on_path_lookup_from(nodes, entry, root, 0);
    }

    pub(crate) proof fn lemma_on_path_lookup_from(&self, nodes: Seq<OctreeNode>, entry: u32, root: nat, k: nat)
        requires
            self.on_path(nodes, entry, root),
            is_pow2(root),
            k <= self.parent_idxs@.len(),
        ensures
            lookup(nodes, chain_at(self.parent_idxs@, self.data_idx, k as int) as int, level_qs(root, k), self.pos)
                == lookup(nodes, self.data_idx as int, self.quadrant_size as nat, self.pos),
        decreases self.parent_idxs@.len() - k,
    {
        let n = self.parent_idxs@.len();
        if k < n {
            self.lemma_on_path_lookup_from(nodes, entry, root, k + 1);
            let m = lemma_level_multiple(root, k, n);
            assert(level_qs(root, k) >= 2) by (nonlinear_arith)
                requires level_qs(root, k) == 2 * level_qs(root, n) * m, m >= 1, level_qs(root, n) >= 1;
            assert(level_qs(root, k + 1) == level_qs(root, k) / 2);
            let next = chain_at(self.parent_idxs@, self.data_idx, k as int + 1);
            assert(nodes[chain_at(self.parent_idxs@, self.data_idx, k as int) as int]@[cell_of(
                quadrant_of(self.pos, level_qs(root, k)))] == OctreeValue::pointer(next));
            assert(next < nodes.len());
        }
    }
}

impl VoxelCursorInner {
    pub(crate) fn move_to_child_idx(&mut self, idx: u32)
        requires
            old(self).quadrant_size >= 2,
        ensures
            final(self).parent_idxs@ == old(self).parent_idxs@.push(old(self).data_idx),
            final(self).data_idx == idx,
            final(self).pos == old(self).pos,
            final(self).quadrant_size == old(self).quadrant_size / 2,
    {
        self.parent_idxs.push(self.data_idx);
        self.data_idx = idx;
        self.quadrant_size = self.quadrant_size / 2;
    }

    /// Descends while the current value is a pointer, until a leaf or a
    /// unit-size quadrant is reached.
    pub(crate) fn move_to_leaf(&mut self, data: &Vec<OctreeNode>, Ghost(entry): Ghost<u32>, Ghost(root): Ghost<nat>)
        requires
            old(self).on_path(data@, entry, root),
            is_pow2(root),
            forall|i: int| 0 <= i < data@.len() ==> pointers_below(#[trigger] data@[i], data@.len() as int),
        ensures
            final(self).on_path(data@, entry, root),
            final(self).pos == old(self).pos,
            lookup(data@, entry as int, root, final(self).pos) == data@[final(self).data_idx as int]@[cell_of(
                quadrant_of(final(self).pos, final(self).quadrant_size as nat),
            )],
            final(self).quadrant_size == 1 || data@[final(self).data_idx as int]@[cell_of(
                quadrant_of(final(self).pos, final(self).quadrant_size as nat),
            )].is_leaf_spec(),
            final(self).quadrant_size <= old(self).quadrant_size,
            (old(self).quadrant_size == 1 || data@[old(self).data_idx as int]@[cell_of(
                quadrant_of(old(self).pos, old(self).quadrant_size as nat),
            )].is_leaf_spec()) ==> final(self).quadrant_size == old(self).quadrant_size && final(self).data_idx == old(self).data_idx
                && final(self).parent_idxs@ == old(self).parent_idxs@,
    {
        loop
            invariant
                self.quadrant_size <= old(self).quadrant_size,
                (old(self).quadrant_size == 1 || data@[old(self).data_idx as int]@[cell_of(
                quadrant_of(old(self).pos, old(self).quadrant_size as nat),
            )].is_leaf_spec()) ==> self.quadrant_size == old(self).quadrant_size && self.data_idx == old(self).data_idx
                && self.parent_idxs@ == old(self).parent_idxs@,
                self.on_path(data@, entry, root),
                is_pow2(root),
                self.pos == old(self).pos,
                forall|i: int| 0 <= i < data@.len() ==> pointers_below(#[trigger] data@[i], data@.len() as int),
            ensures
                self.on_path(data@, entry, root),
                self.pos == old(self).pos,
                self.quadrant_size <= old(self).quadrant_size,
                (old(self).quadrant_size == 1 || data@[old(self).data_idx as int]@[cell_of(
                quadrant_of(old(self).pos, old(self).quadrant_size as nat),
            )].is_leaf_spec()) ==> self.quadrant_size == old(self).quadrant_size && self.data_idx == old(self).data_idx
                && self.parent_idxs@ == old(self).parent_idxs@,
                self.quadrant_size == 1 || data@[self.data_idx as int]@[cell_of(
                    quadrant_of(self.pos, self.quadrant_size as nat),
                )].is_leaf_spec(),
            decreases self.quadrant_size,
        {
            proof {
                assert(chain_at(self.parent_idxs@, self.data_idx, self.parent_idxs@.len() as int) < data@.len());
            }
            let value = self.value(data);
            if self.quadrant_size == 1 || value.is_voxel() {
                break;
            }
            let next = value.to_u32();
            proof {
                lemma_quadrant_of_is_quadrant(self.pos, self.quadrant_size as nat);
                assert(pointers_below(data@[self.data_idx as int], data@.len() as int));
                lemma_level(root, self.parent_idxs@.len() as nat);
            }
            let ghost pre = *self;
            self.move_to_child_idx(next);
            proof {
                let n = pre.parent_idxs@.len();
                assert(level_qs(root, (n + 1) as nat) == level_qs(root, n as nat) / 2);
                assert forall|k: int| 0 <= k <= n + 1 implies #[trigger] chain_at(self.parent_idxs@, self.data_idx, k) < data@.len() by {
                    if k <= n {
                        assert(chain_at(self.parent_idxs@, self.data_idx, k) == chain_at(pre.parent_idxs@, pre.data_idx, k));
                    }
                }
                assert forall|k: int| 0 <= k < n + 1 implies data@[chain_at(self.parent_idxs@, self.data_idx, k) as int]@[cell_of(
                    quadrant_of(self.pos, level_qs(root, k as nat)),
                )] == OctreeValue::pointer(#[trigger] chain_at(self.parent_idxs@, self.data_idx, k + 1)) by {
                    assert(chain_at(self.parent_idxs@, self.data_idx, k) == chain_at(pre.parent_idxs@, pre.data_idx, k));
                    if k < n {
                        assert(chain_at(self.parent_idxs@, self.data_idx, k + 1) == chain_at(pre.parent_idxs@, pre.data_idx, k + 1));
                    }
                }
                assert(chain_at(self.parent_idxs@, self.data_idx, 0) == chain_at(pre.parent_idxs@, pre.data_idx, 0));
            }
        }
        proof {
            self.lemma_on_path_lookup(data@, entry, root);
        }
    }
}

/// The block of edge `size` holding coordinate `c`, as inclusive bounds
/// (the upper one capped at the largest coordinate).
pub(crate) fn block_bounds(c: u32, size: u64) -> (r: (u32, u32))
    requires
        1 <= size <= 0x1_0000_0000,
    ensures
        forall|q: u32| r.0 <= q <= r.1 <==> #[trigger] (q as nat / size as nat) == c as nat / size as nat,
{
    proof {
        vstd::arithmetic::div_mod::lemma_fundamental_div_mod(c as int, size as int);
        vstd::arithmetic::mul::lemma_mul_nonnegative(size as int, c as int / size as int);
    }
    let lo = c as u64 - c as u64 % size;
    let hi = if lo + (size - 1) > u32::MAX as u64 {
        u32::MAX as u64
    } else {
        lo + (size - 1)
    };
    proof {
        let k = c as int / size as int;
        vstd::arithmetic::div_mod::lemma_fundamental_div_mod(c as int, size as int);
        assert(lo == size * k);
        assert(size * k == k * size) by (nonlinear_arith);
        assert forall|q: u32| lo <= q <= hi <==> #[trigger] (q as nat / size as nat) == c as nat / size as nat by {
            if lo <= q <= hi {
                vstd::arithmetic::div_mod::lemma_fundamental_div_mod_converse(q as int, size as int, k, q - lo);
            }
            if q as nat / size as nat == c as nat / size as nat {
                vstd::arithmetic::div_mod::lemma_fundamental_div_mod(q as int, size as int);
            }
        }
    }
    (lo as u32, hi as u32)
}

/// The box of coordinates covered by the node whose quadrants have
/// half-extent `qs` on the way to `pos`.
pub(crate) fn subtree_box(pos: UVec3, qs: u32) -> (r: UAabb)
    requires
        1 <= qs <= 0x8000_0000,
    ensures
        forall|p: UVec3| #[trigger] r.spec_contains(p) <==> {
            &&& p.x as nat / (2 * qs) as nat == pos.x as nat / (2 * qs) as nat
            &&& p.y as nat / (2 * qs) as nat == pos.y as nat / (2 * qs) as nat
            &&& p.z as nat / (2 * qs) as nat == pos.z as nat / (2 * qs) as nat
        },
{
    let size = 2 * qs as u64;
    let (x0, x1) = block_bounds(pos.x, size);
    let (y0, y1) = block_bounds(pos.y, size);
    let (z0, z1) = block_bounds(pos.z, size);
    UAabb::new(UVec3::new(x0, y0, z0), UVec3::new(x1, y1, z1))
}

impl VoxelCursorInner {
    pub(crate) fn move_to_parent(&mut self, Ghost(nodes): Ghost<Seq<OctreeNode>>, Ghost(entry): Ghost<u32>, Ghost(root): Ghost<nat>)
        requires
            old(self).on_path(nodes, entry, root),
            is_pow2(root),
            root <= MAX_QUADRANT_SIZE,
            old(self).parent_idxs@.len() > 0,
        ensures
            final(self).on_path(nodes, entry, root),
            final(self).pos == old(self).pos,
            final(self).parent_idxs@ == old(self).parent_idxs@.drop_last(),
    {
        let ghost pre = *self;
        let ghost n = self.parent_idxs@.len();
        proof {
            lemma_level(root, n as nat);
            if n > 1 {
                let m = lemma_level_multiple(root, 0, (n - 1) as nat);
                assert(level_qs(root, 0) == root);
                assert(root >= level_qs(root, (n - 1) as nat)) by (nonlinear_arith)
                    requires root == 2 * level_qs(root, (n - 1) as nat) * m, m >= 1;
            }
        }
        self.quadrant_size = self.quadrant_size * 2;
        self.data_idx = self.parent_idxs.pop().unwrap();
        proof {
            assert forall|k: int| 0 <= k <= n - 1 implies #[trigger] chain_at(self.parent_idxs@, self.data_idx, k) == chain_at(pre.parent_idxs@, pre.data_idx, k) by {}
            assert forall|k: int| 0 <= k <= n - 1 implies #[trigger] chain_at(self.parent_idxs@, self.data_idx, k) < nodes.len() by {
                assert(chain_at(pre.parent_idxs@, pre.data_idx, k) < nodes.len());
            }
            assert forall|k: int| 0 <= k < n - 1 implies nodes[chain_at(self.parent_idxs@, self.data_idx, k) as int]@[cell_of(
                quadrant_of(self.pos, level_qs(root, k as nat)),
            )] == OctreeValue::pointer(#[trigger] chain_at(self.parent_idxs@, self.data_idx, k + 1)) by {
                assert(chain_at(self.parent_idxs@, self.data_idx, k + 1) == chain_at(pre.parent_idxs@, pre.data_idx, k + 1));
            }
            assert(chain_at(self.parent_idxs@, self.data_idx, 0) == chain_at(pre.parent_idxs@, pre.data_idx, 0));
        }
    }

    /// Moves the coordinate by `delta`, then climbs until the current
    /// subtree covers the new coordinate (or the root is reached). It does
    /// not descend.
    pub(crate) fn move_by(&mut self, delta: IVec3, Ghost(nodes): Ghost<Seq<OctreeNode>>, Ghost(entry): Ghost<u32>, Ghost(root): Ghost<nat>)
        requires
            old(self).on_path(nodes, entry, root),
            is_pow2(root),
            root <= MAX_QUADRANT_SIZE,
            0 <= old(self).pos.x + delta.x <= u32::MAX,
            0 <= old(self).pos.y + delta.y <= u32::MAX,
            0 <= old(self).pos.z + delta.z <= u32::MAX,
        ensures
            final(self).on_path(nodes, entry, root),
            final(self).pos.x == old(self).pos.x + delta.x,
            final(self).pos.y == old(self).pos.y + delta.y,
            final(self).pos.z == old(self).pos.z + delta.z,
            final(self).quadrant_size >= old(self).quadrant_size,
            delta == (IVec3 { x: 0, y: 0, z: 0 }) ==> final(self).quadrant_size == old(self).quadrant_size
                && final(self).data_idx == old(self).data_idx && final(self).parent_idxs@ == old(self).parent_idxs@,
            final(self).parent_idxs@.len() == 0 || same_block(old(self).pos, final(self).pos, final(self).quadrant_size as nat),
            final(self).quadrant_size > old(self).quadrant_size ==> !same_block(
                old(self).pos,
                final(self).pos,
                (final(self).quadrant_size / 2) as nat,
            ),
    {
        let old_pos = self.pos;
        let new_pos = UVec3::new(
            (self.pos.x as i64 + delta.x as i64) as u32,
            (self.pos.y as i64 + delta.y as i64) as u32,
            (self.pos.z as i64 + delta.z as i64) as u32,
        );
        loop
            invariant
                self.on_path(nodes, entry, root),
                is_pow2(root),
                root <= MAX_QUADRANT_SIZE,
                self.pos == old_pos,
                self.quadrant_size >= old(self).quadrant_size,
                old_pos == old(self).pos,
                delta == (IVec3 { x: 0, y: 0, z: 0 }) ==> new_pos == old_pos,
                self.quadrant_size > old(self).quadrant_size ==> !same_block(old_pos, new_pos, (self.quadrant_size / 2) as nat),
                delta == (IVec3 { x: 0, y: 0, z: 0 }) ==> self.quadrant_size == old(self).quadrant_size
                    && self.data_idx == old(self).data_idx && self.parent_idxs@ == old(self).parent_idxs@,
            ensures
                self.on_path(nodes, entry, root),
                self.pos == old_pos,
                self.quadrant_size >= old(self).quadrant_size,
                delta == (IVec3 { x: 0, y: 0, z: 0 }) ==> self.quadrant_size == old(self).quadrant_size
                    && self.data_idx == old(self).data_idx && self.parent_idxs@ == old(self).parent_idxs@,
                self.parent_idxs@.len() == 0 || same_block(old_pos, new_pos, self.quadrant_size as nat),
                self.quadrant_size > old(self).quadrant_size ==> !same_block(old_pos, new_pos, (self.quadrant_size / 2) as nat),
            decreases self.parent_idxs@.len(),
        {
            if self.parent_idxs.len() == 0 {
                break;
            }
            let b = subtree_box(old_pos, self.quadrant_size);
            proof {
                if delta == (IVec3 { x: 0, y: 0, z: 0 }) {
                    assert(new_pos == old_pos);
                    assert(b.spec_contains(new_pos));
                }
            }
            if b.contains(new_pos) {
                break;
            }
            self.move_to_parent(Ghost(nodes), Ghost(entry), Ghost(root));
        }
        let ghost pre = *self;
        self.pos = new_pos;
        proof {
            let n = self.parent_idxs@.len();
            if n > 0 {
                let qs = self.quadrant_size as nat;
                assert(same_block(old_pos, new_pos, qs));
                assert forall|k: int| 0 <= k < n implies #[trigger] quadrant_of(new_pos, level_qs(root, k as nat)) == quadrant_of(old_pos, level_qs(root, k as nat)) by {
                    let m = lemma_level_multiple(root, k as nat, n as nat);
                    lemma_same_block_same_quadrant(new_pos.x as nat, old_pos.x as nat, 2 * qs, m);
                    lemma_same_block_same_quadrant(new_pos.y as nat, old_pos.y as nat, 2 * qs, m);
                    lemma_same_block_same_quadrant(new_pos.z as nat, old_pos.z as nat, 2 * qs, m);
                }
                assert forall|k: int| 0 <= k < n implies nodes[chain_at(self.parent_idxs@, self.data_idx, k) as int]@[cell_of(
                    quadrant_of(self.pos, level_qs(root, k as nat)),
                )] == OctreeValue::pointer(#[trigger] chain_at(self.parent_idxs@, self.data_idx, k + 1)) by {
                    assert(nodes[chain_at(pre.parent_idxs@, pre.data_idx, k) as int]@[cell_of(
                        quadrant_of(pre.pos, level_qs(root, k as nat)),
                    )] == OctreeValue::pointer(chain_at(pre.parent_idxs@, pre.data_idx, k + 1)));
                }
            }
        }
    }
}

/// Whether `a` and `b` lie in the same aligned block of edge `2 * qs`, that
/// is, in the same subtree of a node whose quadrants have half-extent `qs`.
pub open spec fn same_block(a: UVec3, b: UVec3, qs: nat) -> bool {
    &&& b.x as nat / (2 * qs) == a.x as nat / (2 * qs)
    &&& b.y as nat / (2 * qs) == a.y as nat / (2 * qs)
    &&& b.z as nat / (2 * qs) == a.z as nat / (2 * qs)
}

/// A chain of nodes whose cells towards `p` point each to the next, from a
/// root of half-extent `root`, down to level `n` (the last of `par`, then
/// `cur`).
pub(crate) open spec fn chain_points(nodes: Seq<OctreeNode>, par: Seq<u32>, cur: u32, root: nat, p: UVec3, n: int) -> bool {
    &&& forall|j: int| 0 <= j <= n ==> #[trigger] chain_at(par, cur, j) < nodes.len()
    &&& forall|j: int|
        0 <= j < n ==> nodes[chain_at(par, cur, j) as int]@[cell_towards(p, level_qs(root, j as nat))]
            == OctreeValue::pointer(#[trigger] chain_at(par, cur, j + 1))
}

/// The quadrant of `p` in a node whose quadrants have half-extent `qs`.
pub(crate) fn quadrant_at(p: UVec3, qs: u32) -> (r: UVec3)
    requires
        qs >= 1,
    ensures
        r == quadrant_of(p, qs as nat),
        is_quadrant(r),
{
    UVec3::new((p.x / qs) % 2, (p.y / qs) % 2, (p.z / qs) % 2)
}

/// The cursor's ancestors and node are valid pool indices, and its
/// half-extent matches its depth below a root of half-extent `root`.
pub(crate) open spec fn cursor_in_bounds(cur: &VoxelCursorInner, len: int, root: nat) -> bool {
    let n = cur.parent_idxs@.len();
    &&& cur.quadrant_size as nat == level_qs(root, n)
    &&& 1 <= cur.quadrant_size <= root
    &&& forall|k: int| 0 <= k <= n ==> #[trigger] chain_at(cur.parent_idxs@, cur.data_idx, k) < len
}

} // verus!
