use vstd::prelude::*;

use crate::error::OctreeError;
use crate::geometry::{IVec3, UVec3};
use crate::counting::{
    all_live, cnt, counts_are_paths, lemma_all_live_path_live, lemma_chain_count_cnt, lemma_cnt_push,
    lemma_cnt_suffix, lemma_cnt_update, lemma_counts_after_write, lemma_dominated_all_live, lemma_paths_beyond, lemma_paths_delta, lemma_paths_kept, paths,
};
use crate::isolation::{expected_cell, lemma_lookup_kept, lemma_chain_path_live, lemma_isolation, live_nodes_kept, path_live};
use crate::model::{
    cell_towards, is_pow2, lemma_depth_bound, lemma_distinct_differ, lemma_level, lemma_level_multiple, lemma_pow2_bound,
    lemma_quadrant_of_is_quadrant, level_qs, lookup, quadrant_of, MAX_QUADRANT_SIZE,
};
use crate::node::{cell_of, is_quadrant, OctreeNode};
use crate::pool::{pointers_below, NodePool};
use crate::traversal::{same_block, chain_at, chain_points, cursor_in_bounds, quadrant_at, VoxelCursorInner};
use crate::value::{OctreeValue, MAX_PAYLOAD};

verus! {

/// Pool insertions one write can make: two per split level and one per
/// rewritten level, over at most 30 levels below the root.
pub const WRITE_ROOM: u32 = 91;

/// A sparse voxel octree: a cube of edge `2 * quadrant_size` whose voxels
/// hold 31-bit ids, stored as a hash-consed DAG of 2x2x2 nodes.
#[derive(Debug)]
pub struct Octree {
    quadrant_size: u32,
    /// Corner of the volume with the smallest world coordinates.
    position: IVec3,
    entry: u32,
    pool: NodePool,
}

impl Octree {
    pub closed spec fn wf(&self) -> bool {
        &&& self.pool.wf()
        &&& self.entry < self.pool.len()
        &&& is_pow2(self.quadrant_size as nat)
        &&& 1 <= self.quadrant_size <= MAX_QUADRANT_SIZE
        &&& counts_are_paths(self.pool, self.entry as int, self.quadrant_size as nat)
    }

    /// Edge length of the volume.
    pub closed spec fn size(&self) -> nat {
        2 * (self.quadrant_size as nat)
    }

    /// World-space corner of the volume.
    pub closed spec fn origin(&self) -> IVec3 {
        self.position
    }

    /// The value stored for the voxel at local coordinate `p`.
    pub closed spec fn voxel(&self, p: UVec3) -> OctreeValue {
        lookup(self.pool.data@, self.entry as int, self.quadrant_size as nat, p)
    }

    /// Every node met on the way to any coordinate is live: no slot the
    /// tree can reach is on the free list.
    pub closed spec fn reachable_live(&self) -> bool {
        forall|q: UVec3| path_live(self.pool, self.entry as int, self.quadrant_size as nat, q)
    }

    /// A well-formed tree reaches only live nodes: its counts are path
    /// counts, so whatever it reaches has a count of at least one.
    pub proof fn lemma_wf_reachable_live(&self)
        requires
            self.wf(),
        ensures
            self.reachable_live(),
    {
        let e = self.entry as int;
        let root = self.quadrant_size as nat;
        assert forall|t: int| #[trigger] paths(self.pool.data@, e, root, t) >= paths(self.pool.data@, e, root, t) by {}
        lemma_dominated_all_live(self.pool, e, root, e, root);
        assert forall|q: UVec3| path_live(self.pool, e, root, q) by {
            lemma_all_live_path_live(self.pool, e, root, q);
        }
    }

    /// The pool has room for any one write: `WRITE_ROOM` more slots and
    /// `WRITE_ROOM` more references to every node.
    pub closed spec fn has_room(&self) -> bool {
        self.pool.has_room(WRITE_ROOM as int)
    }

    /// The pool has room for `writes` writes in a row.
    pub closed spec fn has_room_for(&self, writes: nat) -> bool {
        self.pool.has_room(WRITE_ROOM * writes)
    }

    /// Number of slots in the node pool, live or free.
    pub closed spec fn pool_len(&self) -> nat {
        self.pool.len() as nat
    }

    pub open spec fn in_volume(&self, p: UVec3) -> bool {
        p.x < self.size() && p.y < self.size() && p.z < self.size()
    }

    pub(crate) closed spec fn cursor_ok(&self, cur: &VoxelCursorInner) -> bool {
        cur.on_path(self.pool.data@, self.entry, self.quadrant_size as nat)
    }

    /// A tree of edge `size` full of empty voxels, at the world origin.
    /// Refused unless `size` is a power of two of at least 2.
    pub fn new(size: u32) -> (r: Result<Octree, OctreeError>)
        ensures
            r is Ok <==> size >= 2 && is_pow2(size as nat),
            r is Err ==> r == Err::<Octree, OctreeError>(OctreeError::InvalidSize),
            r matches Ok(t) ==> {
                &&& t.wf()
                &&& t.size() == size
                &&& t.origin() == IVec3 { x: 0, y: 0, z: 0 }
                &&& t.pool_len() == 1
                &&& t.reachable_live()
                &&& t.has_room()
                &&& t.live_count() == 1
                &&& t.free_list().len() == 0
                &&& forall|p: UVec3| #[trigger] t.voxel(p) == OctreeValue::leaf(0)
            },
    {
        let mut s = size;
        while s > 1 && s % 2 == 0
            invariant
                s >= 1 ==> (is_pow2(size as nat) <==> is_pow2(s as nat)),
                size >= 1 ==> s >= 1,
                s <= size,
            decreases s,
        {
            s = s / 2;
        }
        if size < 2 || s != 1 {
            return Err(OctreeError::InvalidSize);
        }
        proof {
            reveal_with_fuel(is_pow2, 33);
            assert(is_pow2(0x8000_0000nat));
            lemma_pow2_bound(size as nat, 0x8000_0000nat);
        }
        let pool = NodePool::new();
        let t = Octree { quadrant_size: size / 2, position: IVec3::new(0, 0, 0), entry: 0, pool };
        assert forall|p: UVec3| #[trigger] t.voxel(p) == OctreeValue::leaf(0) by {
            lemma_quadrant_of_is_quadrant(p, t.quadrant_size as nat);
        }
        assert(t.pool.refcounts@.drop_last() =~= Seq::<u32>::empty());
        assert(count_nonzero(Seq::<u32>::empty()) == 0);
        assert(t.live_count() == 1);
        assert(t.pool.rc(0) == 1);
        assert(t.pool.has_room(WRITE_ROOM as int));
        assert(t.free_list().len() == 0);
        assert forall|q: UVec3| path_live(t.pool, t.entry as int, t.quadrant_size as nat, q) by {
            lemma_quadrant_of_is_quadrant(q, t.quadrant_size as nat);
        }
        Ok(t)
    }

    pub fn get_position(&self) -> (r: IVec3)
        ensures
            r == self.origin(),
    {
        self.position
    }

    /// Shares or stores a copy of node `idx` with one quadrant overwritten.
    /// The reference to `idx` is released by the caller once the whole new
    /// path is in place, so that no slot is reused while the old path is
    /// still being copied.
    fn insert_copy(&mut self, idx: u32, quadrant: UVec3, value: OctreeValue) -> (r: Result<u32, OctreeError>)
        requires
            old(self).pool.wf(),
            idx < old(self).pool.len(),
            is_quadrant(quadrant),
            !value.is_leaf_spec() ==> value.payload() < old(self).pool.len(),
        ensures
            final(self).pool.wf(),
            old(self).pool.keeps_live(&final(self).pool),
            final(self).quadrant_size == old(self).quadrant_size,
            final(self).position == old(self).position,
            final(self).entry == old(self).entry,
            r matches Ok(n) ==> final(self).pool.live(n as int) && final(self).pool.node(n as int)@
                == old(self).pool.node(idx as int)@.update(cell_of(quadrant), value),
            r is Ok ==> forall|k: int| 1 <= k && #[trigger] old(self).pool.has_room(k) ==> final(self).pool.has_room(k - 1),
            r matches Ok(n) ==> forall|j: int| #[trigger] final(self).pool.rc_or0(j) == old(self).pool.rc_or0(j) + (if j == n {
                1int
            } else {
                0int
            }),
            r is Err ==> r == Err::<u32, OctreeError>(OctreeError::PoolExhausted) && !old(self).pool.has_room(1),
            r is Err ==> final(self).pool == old(self).pool,
    {
        let mut node = self.pool.data[idx as usize];
        node.set_value(quadrant, value);
        proof {
            assert(pointers_below(old(self).pool.node(idx as int), old(self).pool.len()));
        }
        self.pool.get_or_insert(node)
    }

    /// Replaces the leaf under the cursor by a node of eight copies of it
    /// and descends into that node; the replaced node is queued in
    /// `replaced` for release. The voxels read the same as before.
    fn split_quadrant(&mut self, cur: &mut VoxelCursorInner, replaced: &mut Vec<u32>, inserted: &mut Vec<u32>) -> (r: Result<(), OctreeError>)
        requires
            old(self).pool.wf(),
            is_pow2(old(self).quadrant_size as nat),
            cursor_in_bounds(old(cur), old(self).pool.len(), old(self).quadrant_size as nat),
            old(cur).quadrant_size >= 2,
            old(self).pool.node(old(cur).data_idx as int)@[cell_of(
                quadrant_of(old(cur).pos, old(cur).quadrant_size as nat),
            )].is_leaf_spec(),
        ensures
            final(self).pool.wf(),
            old(self).pool.keeps_live(&final(self).pool),
            final(self).quadrant_size == old(self).quadrant_size,
            final(self).position == old(self).position,
            r is Err ==> final(self).entry == old(self).entry,
            r is Ok ==> final(self).entry == if old(cur).parent_idxs@.len() == 0 {
                final(cur).parent_idxs@.last()
            } else {
                old(self).entry
            },
            final(cur).pos == old(cur).pos,
            r is Err ==> *final(replaced) == *old(replaced),
            forall|t: int| #[trigger] final(self).pool.rc_or0(t) + cnt(old(inserted)@, t) == old(self).pool.rc_or0(t) + cnt(
                final(inserted)@,
                t,
            ),
            r is Err ==> r == Err::<(), OctreeError>(OctreeError::PoolExhausted) && !old(self).pool.has_room(2),
            r is Ok ==> forall|k: int| 2 <= k && #[trigger] old(self).pool.has_room(k) ==> final(self).pool.has_room(k - 2),
            r is Ok ==> {
                let v = old(self).pool.node(old(cur).data_idx as int)@[cell_of(
                    quadrant_of(old(cur).pos, old(cur).quadrant_size as nat),
                )];
                let n = final(cur).parent_idxs@.last();
                let z = final(cur).data_idx;
                &&& cursor_in_bounds(final(cur), final(self).pool.len(), final(self).quadrant_size as nat)
                &&& final(cur).quadrant_size == old(cur).quadrant_size / 2
                &&& final(cur).parent_idxs@ == old(cur).parent_idxs@.push(n)
                &&& final(self).pool.live(n as int)
                &&& final(self).pool.live(z as int)
                &&& final(self).pool.node(n as int)@ == old(self).pool.node(old(cur).data_idx as int)@.update(
                    cell_of(quadrant_of(old(cur).pos, old(cur).quadrant_size as nat)),
                    OctreeValue::pointer(z),
                )
                &&& final(self).pool.node(z as int)@ == Seq::new(8, |i: int| v)
                &&& final(replaced)@ == old(replaced)@.push(old(cur).data_idx)
                &&& final(inserted)@ == old(inserted)@.push(z).push(n)
            },
    {
        let ghost root = self.quadrant_size as nat;
        proof {
            assert(chain_at(cur.parent_idxs@, cur.data_idx, cur.parent_idxs@.len() as int) < self.pool.len());
        }
        let v = cur.value(&self.pool.data);
        let mut node = self.pool.data[cur.data_idx as usize];
        proof {
            assert(pointers_below(node, self.pool.len()));
        }
        let ghost ins0 = inserted@;
        let z = match self.pool.get_or_insert(OctreeNode::with_value(v)) {
            Ok(z) => z,
            Err(e) => return Err(e),
        };
        inserted.push(z);
        proof {
            assert forall|t: int| #[trigger] self.pool.rc_or0(t) + cnt(ins0, t) == old(self).pool.rc_or0(t) + cnt(inserted@, t) by {
                lemma_cnt_push(ins0, z, t);
            }
        }
        let q = cur.get_quadrant();
        node.set_value(q, OctreeValue::new_pointer(z));
        let ghost mid = self.pool;
        let ghost ins1 = inserted@;
        let n = match self.pool.get_or_insert(node) {
            Ok(n) => n,
            Err(e) => return Err(e),
        };
        inserted.push(n);
        proof {
            assert forall|t: int| #[trigger] self.pool.rc_or0(t) + cnt(ins0, t) == old(self).pool.rc_or0(t) + cnt(inserted@, t) by {
                lemma_cnt_push(ins1, n, t);
                assert(mid.rc_or0(t) + cnt(ins0, t) == old(self).pool.rc_or0(t) + cnt(ins1, t));
            }
        }
        assert(mid.live(z as int));
        replaced.push(cur.data_idx);
        let ghost pre = *cur;
        cur.data_idx = n;
        if cur.parent_idxs.len() == 0 {
            self.entry = n;
        }
        proof {
            lemma_level(root, pre.parent_idxs@.len() as nat);
        }
        cur.move_to_child_idx(z);
        proof {
            let m = pre.parent_idxs@.len();
            assert(level_qs(root, (m + 1) as nat) == level_qs(root, m as nat) / 2);
            assert forall|k: int| 0 <= k <= m + 1 implies #[trigger] chain_at(cur.parent_idxs@, cur.data_idx, k) < self.pool.len() by {
                if k < m {
                    assert(chain_at(cur.parent_idxs@, cur.data_idx, k) == chain_at(pre.parent_idxs@, pre.data_idx, k));
                }
            }
        }
        Ok(())
    }

    /// Undoes the insertions of a write that could not finish: releases each
    /// index in `inserted`, so the counts are path counts again.
    fn give_back(&mut self, inserted: &Vec<u32>, Ghost(old0): Ghost<NodePool>)
        requires
            old(self).pool.wf(),
            old0.wf(),
            old0.keeps_live(&old(self).pool),
            old(self).entry < old0.len(),
            is_pow2(old(self).quadrant_size as nat),
            1 <= old(self).quadrant_size <= MAX_QUADRANT_SIZE,
            counts_are_paths(old0, old(self).entry as int, old(self).quadrant_size as nat),
            forall|t: int| #[trigger] old(self).pool.rc_or0(t) == old0.rc_or0(t) + cnt(inserted@, t),
        ensures
            final(self).wf(),
            final(self).entry == old(self).entry,
            final(self).quadrant_size == old(self).quadrant_size,
            final(self).position == old(self).position,
            forall|q: UVec3| #[trigger] final(self).voxel(q) == lookup(old0.data@, old(self).entry as int, old(self).quadrant_size as nat, q),
    {
        let ghost root = self.quadrant_size as nat;
        let ghost e = self.entry as int;
        let ghost data = self.pool.data@;
        proof {
            assert forall|t: int| #[trigger] paths(old0.data@, e, root, t) >= paths(old0.data@, e, root, t) by {}
            lemma_dominated_all_live(old0, e, root, e, root);
            assert(live_nodes_kept(old0, data));
        }
        assert(inserted@.subrange(0, inserted@.len() as int) =~= inserted@);
        let mut i: usize = 0;
        while i < inserted.len()
            invariant
                0 <= i <= inserted@.len(),
                self.pool.wf(),
                self.pool.data@ == data,
                self.entry == old(self).entry,
                self.quadrant_size == old(self).quadrant_size,
                self.position == old(self).position,
                forall|t: int| #[trigger] self.pool.rc_or0(t) == old0.rc_or0(t) + cnt(inserted@.subrange(i as int, inserted@.len() as int), t),
            decreases inserted.len() - i,
        {
            let x = inserted[i];
            let ghost pre_pool = self.pool;
            proof {
                lemma_cnt_suffix(inserted@, i as int, x as int);
                assert(self.pool.rc_or0(x as int) >= 1);
            }
            self.pool.release(x);
            proof {
                assert forall|t: int| #[trigger] self.pool.rc_or0(t) == old0.rc_or0(t) + cnt(inserted@.subrange(i as int + 1, inserted@.len() as int), t) by {
                    lemma_cnt_suffix(inserted@, i as int, t);
                    assert(pre_pool.rc_or0(t) == old0.rc_or0(t) + cnt(inserted@.subrange(i as int, inserted@.len() as int), t));
                }
            }
            i = i + 1;
        }
        proof {
            assert(inserted@.subrange(i as int, inserted@.len() as int) =~= Seq::<u32>::empty());
            assert forall|t: int| 0 <= t < self.pool.len() implies #[trigger] self.pool.rc(t) == paths(self.pool.data@, e, root, t) by {
                assert(self.pool.rc_or0(t) == old0.rc_or0(t));
                lemma_paths_kept(old0, data, e, root, t);
                if t >= old0.len() {
                    lemma_paths_beyond(old0, e, root, t);
                }
            }
            assert forall|q: UVec3| #[trigger] self.voxel(q) == lookup(old0.data@, e, root, q) by {
                lemma_all_live_path_live(old0, e, root, q);
                lemma_lookup_kept(old0, data, e, root, q);
            }
        }
    }

    /// Descends the cursor to the leaf on its path.
    fn descend(&self, cur: &mut VoxelCursorInner)
        requires
            self.wf(),
            self.cursor_ok(old(cur)),
        ensures
            self.cursor_ok(final(cur)),
            final(cur).pos == old(cur).pos,
            self.voxel(final(cur).pos) == self.pool.node(final(cur).data_idx as int)@[cell_of(
                quadrant_of(final(cur).pos, final(cur).quadrant_size as nat),
            )],
            final(cur).quadrant_size == 1 || self.pool.node(final(cur).data_idx as int)@[cell_of(
                quadrant_of(final(cur).pos, final(cur).quadrant_size as nat),
            )].is_leaf_spec(),
            final(cur).quadrant_size <= old(cur).quadrant_size,
            (old(cur).quadrant_size == 1 || self.pool.node(old(cur).data_idx as int)@[cell_of(
                quadrant_of(old(cur).pos, old(cur).quadrant_size as nat),
            )].is_leaf_spec()) ==> final(cur).quadrant_size == old(cur).quadrant_size && final(cur).data_idx
                == old(cur).data_idx,
    {
        assert forall|i: int| 0 <= i < self.pool.data@.len() implies pointers_below(#[trigger] self.pool.data@[i], self.pool.data@.len() as int) by {
            assert(pointers_below(self.pool.node(i), self.pool.len()));
        }
        cur.move_to_leaf(&self.pool.data, Ghost(self.entry), Ghost(self.quadrant_size as nat));
    }

    /// Sets the voxel at the cursor's coordinate to the leaf `id`: splits
    /// the leaf down to unit size, rewrites the unit cell, then replaces
    /// each ancestor by a shared copy pointing at the new child, from the
    /// bottom up. The replaced nodes are released once the new path is in
    /// place, so no slot is reused while the old tree is still being read.
    /// Nothing changes when the voxel already holds `id`.
    #[verifier::spinoff_prover]
    pub(crate) fn write_at(&mut self, cur: &mut VoxelCursorInner, id: u32) -> (r: Result<(), OctreeError>)
        requires
            old(self).wf(),
            old(self).cursor_ok(old(cur)),
            id <= MAX_PAYLOAD,
        ensures
            final(self).wf(),
            final(self).size() == old(self).size(),
            final(self).origin() == old(self).origin(),
            final(cur).pos == old(cur).pos,
            old(self).voxel(old(cur).pos) == OctreeValue::leaf(id) ==> r is Ok && *final(self) == *old(self),
            final(self).cursor_ok(final(cur)),
            r is Ok ==> final(self).voxel(final(cur).pos) == OctreeValue::leaf(id),
            old(self).in_volume(old(cur).pos) ==> forall|q: UVec3|
                old(self).in_volume(q) && q != old(cur).pos ==> #[trigger] final(self).voxel(q) == old(self).voxel(q),
            r is Err ==> r == Err::<(), OctreeError>(OctreeError::PoolExhausted),
            old(self).has_room() ==> r is Ok,
            r is Err ==> forall|q: UVec3| #[trigger] final(self).voxel(q) == old(self).voxel(q),
            r is Ok ==> forall|w: nat| #[trigger] old(self).has_room_for(w + 1) ==> final(self).has_room_for(w),
    {
        let ghost root = self.quadrant_size as nat;
        let ghost pos = cur.pos;
        let entry0 = self.entry;
        let pos0 = cur.pos;
        let ghost live0 = self.reachable_live();
        let ghost room0 = self.has_room();
        proof {
            let e = self.entry as int;
            assert forall|t: int| #[trigger] paths(self.pool.data@, e, root, t) >= paths(self.pool.data@, e, root, t) by {}
            lemma_dominated_all_live(self.pool, e, root, e, root);
            assert forall|q: UVec3| path_live(self.pool, e, root, q) by {
                lemma_all_live_path_live(self.pool, e, root, q);
            }
            assert(live0);
        }
        self.descend(cur);
        let ghost old0 = self.pool;
        let ghost d_par = cur.parent_idxs@;
        let ghost d_cur = cur.data_idx;
        let ghost m = d_par.len();
        let mut inserted: Vec<u32> = Vec::new();
        proof {
            assert(chain_at(cur.parent_idxs@, cur.data_idx, cur.parent_idxs@.len() as int) < self.pool.len());
            assert(chain_points(old0.data@, d_par, d_cur, root, pos, m as int));
        }
        let v = cur.value(&self.pool.data);
        if v.is_voxel() && v.to_u32() == id {
            proof {
                assert forall|w: nat| #[trigger] old(self).has_room_for(w + 1) implies self.has_room_for(w) by {
                    self.pool.lemma_has_room_less(WRITE_ROOM * (w + 1), WRITE_ROOM * w);
                }
            }
            return Ok(());
        }
        proof {
            if live0 {
                assert(path_live(old0, chain_at(d_par, d_cur, 0) as int, level_qs(root, 0), pos));
                assert forall|j: int| 0 <= j <= m implies #[trigger] old0.live(chain_at(d_par, d_cur, j) as int) by {
                    lemma_chain_path_live(old0, d_par, d_cur, root, pos, pos, m as int, j, 0);
                }
            }
        }
        let mut replaced: Vec<u32> = Vec::new();
        assert(cursor_in_bounds(cur, self.pool.len(), root));
        while cur.quadrant_size > 1
            invariant
                counts_are_paths(old0, old(self).entry as int, root),
                live0,
                old(self).entry < old0.len(),
                entry0 == old(self).entry,
                pos0 == old(cur).pos,
                self.entry == chain_at(cur.parent_idxs@, cur.data_idx, 0),
                old0.wf(),
                forall|t: int| #[trigger] self.pool.rc_or0(t) == old0.rc_or0(t) + cnt(inserted@, t),
                forall|t: int| #[trigger] cnt(inserted@, t) + cnt(d_par, t) + (if d_cur == t { 1nat } else { 0nat }) == cnt(replaced@, t)
                    + cnt(cur.parent_idxs@, t) + (if cur.data_idx == t { 1nat } else { 0nat }),
                self.pool.wf(),
                self.entry < self.pool.len(),
                self.quadrant_size as nat == root,
                self.quadrant_size == old(self).quadrant_size,
                is_pow2(root),
                1 <= root <= MAX_QUADRANT_SIZE,
                self.position == old(self).position,
                cur.pos == pos,
                pos == old(cur).pos,
                old(self).voxel(pos) != OctreeValue::leaf(id),
                cursor_in_bounds(cur, self.pool.len(), root),
                old0.wf(),
                old0 == old(self).pool,
                m == d_par.len(),
                old0.keeps_live(&self.pool),
                m <= cur.parent_idxs@.len(),
                forall|j: int| 0 <= j < m ==> #[trigger] cur.parent_idxs@[j] == d_par[j],
                forall|j: int| 0 <= j < replaced@.len() ==> #[trigger] replaced@[j] < self.pool.len(),
                v == old0.node(d_cur as int)@[cell_towards(pos, level_qs(root, m))],
                level_qs(root, m) > 1 ==> v.is_leaf_spec(),
                cur.parent_idxs@.len() == m ==> cur.data_idx == d_cur && self.pool == old0,
                cur.parent_idxs@.len() > m ==> self.pool.node(cur.data_idx as int)@ == Seq::new(8, |i: int| v),
                room0 ==> self.pool.has_room(WRITE_ROOM as int - 2 * (cur.parent_idxs@.len() - m)),
                forall|kk: int| kk >= WRITE_ROOM && #[trigger] old0.has_room(kk) ==> self.pool.has_room(kk - 2 * (cur.parent_idxs@.len() - m)),
                room0 == old(self).has_room(),
                live0 ==> forall|j: int| 0 <= j <= m ==> #[trigger] old0.live(chain_at(d_par, d_cur, j) as int),
                live0 ==> forall|j: int| 0 <= j <= cur.parent_idxs@.len() ==> #[trigger] self.pool.live(chain_at(cur.parent_idxs@, cur.data_idx, j) as int),
                live0 ==> forall|j: int, c: int|
                    0 <= j <= cur.parent_idxs@.len() && 0 <= c < 8 && c != cell_towards(pos, level_qs(root, j as nat))
                        ==> #[trigger] self.pool.node(chain_at(cur.parent_idxs@, cur.data_idx, j) as int)@[c]
                        == expected_cell(old0, d_par, d_cur, v, j, c),
            decreases cur.quadrant_size,
        {
            let ghost pre_pool = self.pool;
            let ghost pre_cur = *cur;
            let ghost len = cur.parent_idxs@.len();
            proof {
                if len > m {
                    lemma_quadrant_of_is_quadrant(pos, cur.quadrant_size as nat);
                    assert(self.pool.node(cur.data_idx as int)@[cell_towards(pos, cur.quadrant_size as nat)] == v);
                    assert(level_qs(root, m) > 1) by {
                        let mm = lemma_level_multiple(root, m, len);
                        assert(level_qs(root, m) >= 2) by (nonlinear_arith)
                            requires level_qs(root, m) == 2 * level_qs(root, len) * mm, mm >= 1, level_qs(root, len) >= 1;
                    }
                } else {
                    assert(self.pool.node(cur.data_idx as int)@[cell_towards(pos, cur.quadrant_size as nat)] == v);
                }
            }
            proof {
                lemma_depth_bound(root, len as nat);
                if room0 {
                    self.pool.lemma_has_room_less(WRITE_ROOM as int - 2 * (len - m), 2);
                }
            }
            let ghost pre_room_pool = self.pool;
            let ghost pre_rep = replaced@;
            let ghost pre_ins = inserted@;
            match self.split_quadrant(cur, &mut replaced, &mut inserted) {
                Ok(()) => {},
                Err(e) => {
                    proof {
                        assert forall|t: int| #[trigger] self.pool.rc_or0(t) == old0.rc_or0(t) + cnt(inserted@, t) by {
                            assert(pre_pool.rc_or0(t) == old0.rc_or0(t) + cnt(pre_ins, t));
                        }
                    }
                    self.entry = entry0;
                    self.give_back(&inserted, Ghost(old0));
                    *cur = VoxelCursorInner::new(self.entry, pos0, self.quadrant_size);
                    return Err(e);
                },
            }
            proof {
                let n = cur.parent_idxs@.last();
                let z = cur.data_idx;
                assert forall|t: int| #[trigger] self.pool.rc_or0(t) == old0.rc_or0(t) + cnt(inserted@, t) by {
                    assert(pre_pool.rc_or0(t) == old0.rc_or0(t) + cnt(pre_ins, t));
                }
                assert forall|kk: int| kk >= WRITE_ROOM && #[trigger] old0.has_room(kk) implies self.pool.has_room(kk - 2 * (cur.parent_idxs@.len() - m)) by {
                    assert(pre_room_pool.has_room(kk - 2 * (len - m)));
                }
                assert forall|t: int| #[trigger] cnt(inserted@, t) + cnt(d_par, t) + (if d_cur == t { 1nat } else { 0nat }) == cnt(replaced@, t)
                    + cnt(cur.parent_idxs@, t) + (if cur.data_idx == t { 1nat } else { 0nat }) by {
                    lemma_cnt_push(pre_ins, z, t);
                    lemma_cnt_push(pre_ins.push(z), n, t);
                    lemma_cnt_push(pre_rep, pre_cur.data_idx, t);
                    lemma_cnt_push(pre_cur.parent_idxs@, n, t);
                    assert(cnt(pre_ins, t) + cnt(d_par, t) + (if d_cur == t { 1nat } else { 0nat }) == cnt(pre_rep, t)
                        + cnt(pre_cur.parent_idxs@, t) + (if pre_cur.data_idx == t { 1nat } else { 0nat }));
                }
                assert(len + 1 == cur.parent_idxs@.len());
                assert forall|j: int| 0 <= j < m implies #[trigger] cur.parent_idxs@[j] == d_par[j] by {
                    assert(pre_cur.parent_idxs@[j] == d_par[j]);
                }
                assert forall|j: int| 0 <= j <= len + 1 implies #[trigger] chain_at(cur.parent_idxs@, cur.data_idx, j) == (if j < len {
                    chain_at(pre_cur.parent_idxs@, pre_cur.data_idx, j)
                } else if j == len {
                    n
                } else {
                    z
                }) by {}
                if live0 {
                    assert forall|j: int| 0 <= j <= len + 1 implies #[trigger] self.pool.live(chain_at(cur.parent_idxs@, cur.data_idx, j) as int) by {
                        if j < len {
                            assert(pre_pool.live(chain_at(pre_cur.parent_idxs@, pre_cur.data_idx, j) as int));
                        }
                    }
                    assert forall|j: int, c: int|
                        0 <= j <= len + 1 && 0 <= c < 8 && c != cell_towards(pos, level_qs(root, j as nat))
                            implies #[trigger] self.pool.node(chain_at(cur.parent_idxs@, cur.data_idx, j) as int)@[c]
                            == expected_cell(old0, d_par, d_cur, v, j, c) by {
                        let cj = chain_at(pre_cur.parent_idxs@, pre_cur.data_idx, j);
                        if j < len {
                            assert(chain_at(cur.parent_idxs@, cur.data_idx, j) == cj);
                            assert(pre_pool.live(cj as int));
                            assert(self.pool.node(cj as int) == pre_pool.node(cj as int));
                            assert(pre_pool.node(cj as int)@[c] == expected_cell(old0, d_par, d_cur, v, j, c));
                        } else if j == len {
                            assert(cj == pre_cur.data_idx);
                            assert(pre_pool.node(cj as int)@[c] == expected_cell(old0, d_par, d_cur, v, j, c));
                            assert(chain_at(cur.parent_idxs@, cur.data_idx, j) == n);
                            assert(pre_cur.quadrant_size as nat == level_qs(root, len as nat));
                            assert(c != cell_of(quadrant_of(pos, pre_cur.quadrant_size as nat)));
                            assert(self.pool.node(n as int)@[c] == pre_pool.node(cj as int)@[c]);
                        } else {
                            assert(chain_at(cur.parent_idxs@, cur.data_idx, j) == z);
                            assert(j > m);
                            assert(self.pool.node(z as int)@[c] == v);
                            assert(expected_cell(old0, d_par, d_cur, v, j, c) == v);
                        }
                    }
                }
                assert(chain_at(pre_cur.parent_idxs@, pre_cur.data_idx, len as int) < pre_pool.len());
                assert forall|j: int| 0 <= j < replaced@.len() implies #[trigger] replaced@[j] < self.pool.len() by {
                    if j < replaced@.len() - 1 {
                        assert(replaced@[j] < pre_pool.len());
                    }
                }
                lemma_quadrant_of_is_quadrant(pos, cur.quadrant_size as nat);
            }
        }
        let n = cur.parent_idxs.len();
        proof {
            assert(chain_at(cur.parent_idxs@, cur.data_idx, n as int) < self.pool.len());
            lemma_level(root, n as nat);
            lemma_quadrant_of_is_quadrant(pos, 1);
        }
        let q = cur.get_quadrant();
        let ghost pre_pool = self.pool;
        let ghost pre_cur = *cur;
        proof {
            lemma_depth_bound(root, n as nat);
            if room0 {
                self.pool.lemma_has_room_less(WRITE_ROOM as int - 2 * (n - m), n as int + 1);
            }
        }
        let ghost bottom_pool = self.pool;
        let c = match self.insert_copy(cur.data_idx, q, OctreeValue::new_leaf(id)) {
            Ok(c) => c,
            Err(e) => {
                self.entry = entry0;
                    self.give_back(&inserted, Ghost(old0));
                    *cur = VoxelCursorInner::new(self.entry, pos0, self.quadrant_size);
                return Err(e);
            },
        };
        let ghost pre_rep = replaced@;
        let ghost pre_ins = inserted@;
        inserted.push(c);
        replaced.push(cur.data_idx);
        cur.data_idx = c;
        proof {
            assert forall|t: int| #[trigger] self.pool.rc_or0(t) == old0.rc_or0(t) + cnt(inserted@, t) by {
                lemma_cnt_push(pre_ins, c, t);
                assert(pre_pool.rc_or0(t) == old0.rc_or0(t) + cnt(pre_ins, t));
            }
            assert forall|t: int| #[trigger] cnt(inserted@, t) + cnt(d_par, t) + (if d_cur == t { 1nat } else { 0nat }) == cnt(replaced@, t)
                + cnt(cur.parent_idxs@, t) + (if cur.data_idx == t { 1nat } else { 0nat }) by {
                lemma_cnt_push(pre_ins, c, t);
                lemma_cnt_push(pre_rep, pre_cur.data_idx, t);
                assert(cnt(pre_ins, t) + cnt(d_par, t) + (if d_cur == t { 1nat } else { 0nat }) == cnt(pre_rep, t)
                    + cnt(pre_cur.parent_idxs@, t) + (if pre_cur.data_idx == t { 1nat } else { 0nat }));
            }
            assert forall|j: int| 0 <= j <= n implies #[trigger] chain_at(cur.parent_idxs@, cur.data_idx, j) < self.pool.len() by {
                if j < n {
                    assert(chain_at(pre_cur.parent_idxs@, pre_cur.data_idx, j) < pre_pool.len());
                }
            }
            assert forall|j: int| 0 <= j < replaced@.len() implies #[trigger] replaced@[j] < self.pool.len() by {
                if j < replaced@.len() - 1 {
                    assert(replaced@[j] < pre_pool.len());
                }
            }
            if live0 {
                assert forall|j: int| 0 <= j <= n implies #[trigger] self.pool.live(chain_at(cur.parent_idxs@, cur.data_idx, j) as int) by {
                    if j < n {
                        assert(chain_at(cur.parent_idxs@, cur.data_idx, j) == chain_at(pre_cur.parent_idxs@, pre_cur.data_idx, j));
                        assert(pre_pool.live(chain_at(pre_cur.parent_idxs@, pre_cur.data_idx, j) as int));
                    }
                }
                assert forall|j: int, cc: int|
                    0 <= j <= n && 0 <= cc < 8 && cc != cell_towards(pos, level_qs(root, j as nat))
                        implies #[trigger] self.pool.node(chain_at(cur.parent_idxs@, cur.data_idx, j) as int)@[cc]
                        == expected_cell(old0, d_par, d_cur, v, j, cc) by {
                    let cj = chain_at(pre_cur.parent_idxs@, pre_cur.data_idx, j);
                    assert(pre_pool.live(cj as int));
                    assert(pre_pool.node(cj as int)@[cc] == expected_cell(old0, d_par, d_cur, v, j, cc));
                    if j < n {
                        assert(chain_at(cur.parent_idxs@, cur.data_idx, j) == cj);
                    }
                }
            }
        }
        proof {
            assert forall|kk: int| kk >= WRITE_ROOM && #[trigger] old0.has_room(kk) implies self.pool.has_room(kk - 2 * (n - m) - 1 - (n - n)) by {
                assert(bottom_pool.has_room(kk - 2 * (n - m)));
            }
        }
        let mut child = c;
        let mut k = n;
        let mut parent_qs = cur.quadrant_size;
        while k > 0
            invariant
                counts_are_paths(old0, old(self).entry as int, root),
                live0,
                old(self).entry < old0.len(),
                entry0 == old(self).entry,
                pos0 == old(cur).pos,
                old0.wf(),
                forall|t: int| #[trigger] self.pool.rc_or0(t) == old0.rc_or0(t) + cnt(inserted@, t),
                forall|t: int| #[trigger] cnt(inserted@, t) + cnt(d_par, t) + (if d_cur == t { 1nat } else { 0nat }) == cnt(replaced@, t)
                    + cnt(cur.parent_idxs@, t) + (if cur.data_idx == t { 1nat } else { 0nat }),
                room0 ==> self.pool.has_room(k as int),
                n <= 30,
                forall|kk: int| kk >= WRITE_ROOM && #[trigger] old0.has_room(kk) ==> self.pool.has_room(kk - 2 * (n - m) - 1 - (n - k)),
                room0 == old(self).has_room(),
                self.pool.wf(),
                self.entry < self.pool.len(),
                self.quadrant_size as nat == root,
                self.quadrant_size == old(self).quadrant_size,
                is_pow2(root),
                1 <= root <= MAX_QUADRANT_SIZE,
                self.position == old(self).position,
                cur.pos == pos,
                pos == old(cur).pos,
                old(self).voxel(pos) != OctreeValue::leaf(id),
                cur.quadrant_size == 1,
                cur.parent_idxs@.len() == n,
                m <= n,
                cur.data_idx == c,
                cursor_in_bounds(cur, self.pool.len(), root),
                0 <= k <= n,
                parent_qs as nat == level_qs(root, k as nat),
                child == chain_at(cur.parent_idxs@, cur.data_idx, k as int),
                forall|j: int| k <= j <= n ==> #[trigger] self.pool.live(chain_at(cur.parent_idxs@, cur.data_idx, j) as int),
                forall|j: int| k <= j < n ==> self.pool.node(chain_at(cur.parent_idxs@, cur.data_idx, j) as int)@[cell_of(
                    quadrant_of(pos, level_qs(root, j as nat)),
                )] == OctreeValue::pointer(#[trigger] chain_at(cur.parent_idxs@, cur.data_idx, j + 1)),
                self.pool.node(c as int)@[cell_of(quadrant_of(pos, 1))] == OctreeValue::leaf(id),
                forall|j: int| 0 <= j < replaced@.len() ==> #[trigger] replaced@[j] < self.pool.len(),
                old0.wf(),
                old0 == old(self).pool,
                m == d_par.len(),
                old0.keeps_live(&self.pool),
                level_qs(root, m) > 1 ==> v.is_leaf_spec(),
                v == old0.node(d_cur as int)@[cell_towards(pos, level_qs(root, m))],
                live0 ==> forall|j: int| 0 <= j <= n ==> #[trigger] self.pool.live(chain_at(cur.parent_idxs@, cur.data_idx, j) as int),
                live0 ==> forall|j: int, cc: int|
                    0 <= j <= n && 0 <= cc < 8 && cc != cell_towards(pos, level_qs(root, j as nat))
                        ==> #[trigger] self.pool.node(chain_at(cur.parent_idxs@, cur.data_idx, j) as int)@[cc]
                        == expected_cell(old0, d_par, d_cur, v, j, cc),
            decreases k,
        {
            let ghost pre_pool = self.pool;
            let ghost pre_cur = *cur;
            proof {
                lemma_level(root, n as nat);
                if k < n {
                    let mm = lemma_level_multiple(root, k as nat, n as nat);
                    assert(level_qs(root, k as nat) >= 1) by (nonlinear_arith)
                        requires level_qs(root, k as nat) == 2 * level_qs(root, n as nat) * mm, mm >= 1, level_qs(root, n as nat) >= 1;
                }
                lemma_level(root, k as nat);
                if k > 1 {
                    let mm = lemma_level_multiple(root, 0, (k - 1) as nat);
                    assert(root >= level_qs(root, (k - 1) as nat)) by (nonlinear_arith)
                        requires root == 2 * level_qs(root, (k - 1) as nat) * mm, mm >= 1;
                }
            }
            k = k - 1;
            parent_qs = parent_qs * 2;
            let a = cur.parent_idxs[k];
            proof {
                assert(chain_at(cur.parent_idxs@, cur.data_idx, k as int) == a);
                assert(a < self.pool.len());
            }
            let q = quadrant_at(cur.pos, parent_qs);
            let ghost pre_rep = replaced@;
            let ghost pre_ins = inserted@;
            let ghost prop_pool = self.pool;
            let p = match self.insert_copy(a, q, OctreeValue::new_pointer(child)) {
                Ok(p) => p,
                Err(e) => {
                    self.entry = entry0;
                    self.give_back(&inserted, Ghost(old0));
                    *cur = VoxelCursorInner::new(self.entry, pos0, self.quadrant_size);
                    return Err(e);
                },
            };
            inserted.push(p);
            replaced.push(a);
            cur.parent_idxs.set(k, p);
            child = p;
            proof {
                assert forall|kk: int| kk >= WRITE_ROOM && #[trigger] old0.has_room(kk) implies self.pool.has_room(kk - 2 * (n - m) - 1 - (n - k)) by {
                    assert(prop_pool.has_room(kk - 2 * (n - m) - 1 - (n - (k + 1))));
                }
                assert forall|t: int| #[trigger] self.pool.rc_or0(t) == old0.rc_or0(t) + cnt(inserted@, t) by {
                    lemma_cnt_push(pre_ins, p, t);
                    assert(pre_pool.rc_or0(t) == old0.rc_or0(t) + cnt(pre_ins, t));
                }
                assert forall|t: int| #[trigger] cnt(inserted@, t) + cnt(d_par, t) + (if d_cur == t { 1nat } else { 0nat }) == cnt(replaced@, t)
                    + cnt(cur.parent_idxs@, t) + (if cur.data_idx == t { 1nat } else { 0nat }) by {
                    lemma_cnt_push(pre_ins, p, t);
                    lemma_cnt_push(pre_rep, a, t);
                    lemma_cnt_update(pre_cur.parent_idxs@, k as int, p, t);
                    assert(cnt(pre_ins, t) + cnt(d_par, t) + (if d_cur == t { 1nat } else { 0nat }) == cnt(pre_rep, t)
                        + cnt(pre_cur.parent_idxs@, t) + (if pre_cur.data_idx == t { 1nat } else { 0nat }));
                }
                assert forall|j: int| 0 <= j <= n implies #[trigger] chain_at(cur.parent_idxs@, cur.data_idx, j) == (if j == k {
                    p
                } else {
                    chain_at(pre_cur.parent_idxs@, pre_cur.data_idx, j)
                }) by {}
                assert forall|j: int| k <= j <= n implies #[trigger] self.pool.live(chain_at(cur.parent_idxs@, cur.data_idx, j) as int) by {
                    if j > k {
                        assert(pre_pool.live(chain_at(pre_cur.parent_idxs@, pre_cur.data_idx, j) as int));
                    }
                }
                assert forall|j: int| k <= j < n implies self.pool.node(chain_at(cur.parent_idxs@, cur.data_idx, j) as int)@[cell_of(
                    quadrant_of(pos, level_qs(root, j as nat)),
                )] == OctreeValue::pointer(#[trigger] chain_at(cur.parent_idxs@, cur.data_idx, j + 1)) by {
                    if j > k {
                        assert(pre_pool.live(chain_at(pre_cur.parent_idxs@, pre_cur.data_idx, j) as int));
                        assert(pre_pool.node(chain_at(pre_cur.parent_idxs@, pre_cur.data_idx, j) as int)@[cell_of(
                            quadrant_of(pos, level_qs(root, j as nat)),
                        )] == OctreeValue::pointer(chain_at(pre_cur.parent_idxs@, pre_cur.data_idx, j + 1)));
                    } else {
                        lemma_quadrant_of_is_quadrant(pos, parent_qs as nat);
                    }
                }
                assert(pre_pool.live(chain_at(pre_cur.parent_idxs@, pre_cur.data_idx, n as int) as int));
                assert forall|j: int| 0 <= j <= n implies #[trigger] chain_at(cur.parent_idxs@, cur.data_idx, j) < self.pool.len() by {
                    if j < k {
                        assert(chain_at(pre_cur.parent_idxs@, pre_cur.data_idx, j) < pre_pool.len());
                    }
                }
                assert forall|j: int| 0 <= j < replaced@.len() implies #[trigger] replaced@[j] < self.pool.len() by {
                    if j < replaced@.len() - 1 {
                        assert(replaced@[j] < pre_pool.len());
                    }
                }
                if live0 {
                    assert forall|j: int| 0 <= j <= n implies #[trigger] self.pool.live(chain_at(cur.parent_idxs@, cur.data_idx, j) as int) by {
                        if j != k {
                            assert(pre_pool.live(chain_at(pre_cur.parent_idxs@, pre_cur.data_idx, j) as int));
                        }
                    }
                    assert forall|j: int, cc: int|
                        0 <= j <= n && 0 <= cc < 8 && cc != cell_towards(pos, level_qs(root, j as nat))
                            implies #[trigger] self.pool.node(chain_at(cur.parent_idxs@, cur.data_idx, j) as int)@[cc]
                            == expected_cell(old0, d_par, d_cur, v, j, cc) by {
                        let cj = chain_at(pre_cur.parent_idxs@, pre_cur.data_idx, j);
                        assert(pre_pool.live(cj as int));
                        assert(pre_pool.node(cj as int)@[cc] == expected_cell(old0, d_par, d_cur, v, j, cc));
                        if j == k {
                            lemma_quadrant_of_is_quadrant(pos, parent_qs as nat);
                        }
                    }
                }
            }
        }
        self.entry = child;
        let ghost data = self.pool.data@;
        proof {
            assert(cur.on_path(data, self.entry, root));
            cur.lemma_on_path_lookup(data, self.entry, root);
            if m < n {
                let mm = lemma_level_multiple(root, m, n as nat);
                assert(level_qs(root, m) >= 2) by (nonlinear_arith)
                    requires level_qs(root, m) == 2 * level_qs(root, n as nat) * mm, mm >= 1, level_qs(root, n as nat) == 1;
            }
            if live0 {
                assert(live_nodes_kept(old0, data));
                let par = cur.parent_idxs@;
                let bottom = cur.data_idx;
                assert forall|jj: int, cc: int|
                    0 <= jj <= par.len() && 0 <= cc < 8 && cc != cell_towards(pos, level_qs(root, jj as nat))
                        implies #[trigger] data[chain_at(par, bottom, jj) as int]@[cc]
                        == expected_cell(old0, d_par, d_cur, v, jj, cc) by {
                    assert(self.pool.node(chain_at(par, bottom, jj) as int)@[cc] == expected_cell(old0, d_par, d_cur, v, jj, cc));
                }
                assert forall|jj: int| 0 <= jj < par.len() implies data[chain_at(par, bottom, jj) as int]@[cell_towards(pos, level_qs(root, jj as nat))]
                    == OctreeValue::pointer(#[trigger] chain_at(par, bottom, jj + 1)) by {
                    assert(self.pool.node(chain_at(par, bottom, jj) as int)@[cell_of(quadrant_of(pos, level_qs(root, jj as nat)))]
                        == OctreeValue::pointer(chain_at(par, bottom, jj + 1)));
                }
                if old(self).in_volume(pos) {
                    assert forall|q: UVec3| old(self).in_volume(q) && q != pos implies #[trigger] lookup(data, self.entry as int, root, q) == old(self).voxel(q) by {
                        let kd = lemma_distinct_differ(pos, q, root, n as nat);
                        assert(path_live(old0, old(self).entry as int, root, q));
                        assert(chain_at(d_par, d_cur, 0) == old(self).entry);
                        lemma_isolation(old0, data, cur.parent_idxs@, cur.data_idx, d_par, d_cur, v, root, pos, q, kd as int, 0);
                    }
                }
                assert(chain_at(d_par, d_cur, 0) == old(self).entry);
                lemma_counts_after_write(old0, self.pool, par, bottom, d_par, d_cur, v, root, pos, replaced@, inserted@);
                assert(chain_at(par, bottom, 0) == self.entry);
            }
        }
        let ghost entry = self.entry;
        assert(replaced@.subrange(0, replaced@.len() as int) =~= replaced@);
        let mut i: usize = 0;
        proof {
            assert forall|kk: int| kk >= WRITE_ROOM && #[trigger] old0.has_room(kk) implies self.pool.has_room(kk - WRITE_ROOM) by {
                assert(self.pool.has_room(kk - 2 * (n - m) - 1 - (n - 0)));
                self.pool.lemma_has_room_less(kk - 2 * (n - m) - 1 - n, kk - WRITE_ROOM);
            }
        }
        while i < replaced.len()
            invariant
                0 <= i <= replaced@.len(),
                m <= n && n <= 30,
                forall|kk: int| kk >= WRITE_ROOM && #[trigger] old0.has_room(kk) ==> self.pool.has_room(kk - WRITE_ROOM),
                forall|t: int| 0 <= t ==> #[trigger] self.pool.rc_or0(t) == paths(data, entry as int, root, t)
                    + cnt(replaced@.subrange(i as int, replaced@.len() as int), t),
                room0 == old(self).has_room(),
                self.pool.wf(),
                self.pool.data@ == data,
                self.entry == entry,
                self.entry < self.pool.len(),
                self.quadrant_size as nat == root,
                self.quadrant_size == old(self).quadrant_size,
                is_pow2(root),
                1 <= root <= MAX_QUADRANT_SIZE,
                self.position == old(self).position,
                cur.pos == pos,
                pos == old(cur).pos,
                old(self).voxel(pos) != OctreeValue::leaf(id),
                cur.on_path(data, self.entry, root),
                self.voxel(pos) == OctreeValue::leaf(id),
                live0 && old(self).in_volume(pos) ==> forall|q: UVec3|
                    old(self).in_volume(q) && q != pos ==> #[trigger] lookup(data, entry as int, root, q) == old(self).voxel(q),
                forall|j: int| 0 <= j < replaced@.len() ==> #[trigger] replaced@[j] < self.pool.len(),
            decreases replaced.len() - i,
        {
            let x = replaced[i];
            let ghost pre_pool = self.pool;
            proof {
                lemma_cnt_suffix(replaced@, i as int, x as int);
                assert(self.pool.rc_or0(x as int) >= 1);
            }
            self.pool.release(x);
            proof {
                assert forall|kk: int| kk >= WRITE_ROOM && #[trigger] old0.has_room(kk) implies self.pool.has_room(kk - WRITE_ROOM) by {
                    assert(pre_pool.has_room(kk - WRITE_ROOM));
                }
                assert forall|t: int| 0 <= t implies #[trigger] self.pool.rc_or0(t) == paths(data, entry as int, root, t)
                    + cnt(replaced@.subrange(i as int + 1, replaced@.len() as int), t) by {
                    lemma_cnt_suffix(replaced@, i as int, t);
                    assert(pre_pool.rc_or0(t) == paths(data, entry as int, root, t) + cnt(replaced@.subrange(i as int, replaced@.len() as int), t));
                }
            }
            i = i + 1;
        }
        proof {
            assert(replaced@.subrange(replaced@.len() as int, replaced@.len() as int) =~= Seq::<u32>::empty());
            assert forall|t: int| 0 <= t < self.pool.len() implies #[trigger] self.pool.rc(t) == paths(self.pool.data@, self.entry as int, root, t) by {
                assert(self.pool.rc_or0(t) == paths(data, entry as int, root, t) + cnt(replaced@.subrange(i as int, replaced@.len() as int), t));
            }
        }
        proof {
            assert forall|w: nat| #[trigger] old(self).has_room_for(w + 1) implies self.has_room_for(w) by {
                assert(old0.has_room(WRITE_ROOM * (w + 1)));
                assert(WRITE_ROOM * (w + 1) - WRITE_ROOM == WRITE_ROOM * w);
            }
            if old(self).in_volume(pos) {
                assert forall|q: UVec3| old(self).in_volume(q) && q != pos implies #[trigger] self.voxel(q) == old(self).voxel(q) by {
                    assert(lookup(data, entry as int, root, q) == old(self).voxel(q));
                }
            }
        }
        Ok(())
    }

    /// Sets the voxel at `pos` to the id `id`; no other voxel changes. Fails
    /// with `PoolExhausted`, changing no voxel, only when the pool lacks room
    /// for one write (`has_room`).
    pub fn set_voxel(&mut self, pos: UVec3, id: u32) -> (r: Result<(), OctreeError>)
        requires
            old(self).wf(),
            old(self).in_volume(pos),
            id <= MAX_PAYLOAD,
        ensures
            final(self).wf(),
            final(self).size() == old(self).size(),
            final(self).origin() == old(self).origin(),
            old(self).has_room() ==> r is Ok,
            r is Err ==> r == Err::<(), OctreeError>(OctreeError::PoolExhausted),
            r is Ok ==> final(self).voxel(pos) == OctreeValue::leaf(id),
            forall|q: UVec3| old(self).in_volume(q) && q != pos ==> #[trigger] final(self).voxel(q) == old(self).voxel(q),
            r is Err ==> forall|q: UVec3| #[trigger] final(self).voxel(q) == old(self).voxel(q),
            r is Ok ==> forall|w: nat| #[trigger] old(self).has_room_for(w + 1) ==> final(self).has_room_for(w),
            old(self).voxel(pos) == OctreeValue::leaf(id) ==> r is Ok && *final(self) == *old(self),
    {
        let mut cur = VoxelCursorInner::new(self.entry, pos, self.quadrant_size);
        proof {
            assert(chain_at(cur.parent_idxs@, cur.data_idx, 0) == self.entry);
        }
        self.write_at(&mut cur, id)
    }

    /// A read-only cursor at `pos`, starting at the root.
    pub fn voxel_cursor(&self, pos: UVec3) -> (r: VoxelCursor)
        requires
            self.wf(),
            self.in_volume(pos),
        ensures
            r.wf(),
            r.tree() == *self,
            r.at() == pos,
            2 * r.level_size() == r.tree().size(),
    {
        let inner = VoxelCursorInner::new(self.entry, pos, self.quadrant_size);
        proof {
            assert(chain_at(inner.parent_idxs@, inner.data_idx, 0) == self.entry);
        }
        VoxelCursor { octree: self, inner }
    }

    /// A cursor at `pos` that can write voxels, starting at the root.
    pub fn voxel_cursor_mut(&mut self, pos: UVec3) -> (r: VoxelCursorMut)
        requires
            old(self).wf(),
            old(self).in_volume(pos),
        ensures
            r.wf(),
            r.tree() == *old(self),
            r.at() == pos,
            2 * r.level_size() == r.tree().size(),
    {
        let inner = VoxelCursorInner::new(self.entry, pos, self.quadrant_size);
        proof {
            assert(chain_at(inner.parent_idxs@, inner.data_idx, 0) == self.entry);
        }
        VoxelCursorMut { octree: self, inner }
    }

    /// Resets to the empty leaf every voxel of the box at `pos` of extent
    /// `size`, stepping one cursor through it with the last axis fastest.
    fn clear_area(&mut self, pos: UVec3, size: UVec3) -> (r: Result<(), OctreeError>)
        requires
            old(self).wf(),
            pos.x + size.x <= old(self).size(),
            pos.y + size.y <= old(self).size(),
            pos.z + size.z <= old(self).size(),
        ensures
            final(self).wf(),
            final(self).size() == old(self).size(),
            final(self).origin() == old(self).origin(),
            r is Err ==> r == Err::<(), OctreeError>(OctreeError::PoolExhausted),
            old(self).has_room_for(box_volume(size)) ==> r is Ok,
            r is Ok ==> forall|q: UVec3|
                old(self).in_volume(q) ==> #[trigger] final(self).voxel(q) == if in_box(q, pos, size) {
                    OctreeValue::leaf(0)
                } else {
                    old(self).voxel(q)
                },
            r is Ok ==> forall|w: nat| #[trigger] old(self).has_room_for(w + box_volume(size)) ==> final(self).has_room_for(w),
    {
        let end = UVec3::new(pos.x + size.x, pos.y + size.y, pos.z + size.z);
        let back_y = (0i64 - size.y as i64) as i32;
        let back_z = (0i64 - size.z as i64) as i32;
        let ghost plane: int = size.y as int * size.z as int;
        let ghost vol: int = box_volume(size) as int;
        let ghost mut done: int = 0;
        let mut cur = VoxelCursorInner::new(self.entry, pos, self.quadrant_size);
        proof {
            assert(chain_at(cur.parent_idxs@, cur.data_idx, 0) == self.entry);
            assert(vol == size.x as int * plane) by (nonlinear_arith)
                requires vol == box_volume(size), plane == size.y as int * size.z as int;
        }
        while cur.pos.x < end.x
            invariant
                self.wf(),
                self.cursor_ok(&cur),
                self.size() == old(self).size(),
                self.origin() == old(self).origin(),
                end.x <= self.size() && end.y <= self.size() && end.z <= self.size(),
                end.x == pos.x + size.x,
                end.y == pos.y + size.y,
                end.z == pos.z + size.z,
                back_y == -size.y,
                back_z == -size.z,
                pos.x <= cur.pos.x <= end.x,
                cur.pos.y == pos.y,
                cur.pos.z == pos.z,
                plane == size.y as int * size.z as int,
                vol == size.x as int * plane,
                vol == box_volume(size) as int,
                done == (cur.pos.x - pos.x) * plane,
                forall|w: nat| #[trigger] old(self).has_room_for(w + done as nat) ==> self.has_room_for(w),
                forall|q: UVec3|
                    old(self).in_volume(q) ==> #[trigger] self.voxel(q) == if cleared_upto(q, pos, size, cur.pos) {
                        OctreeValue::leaf(0)
                    } else {
                        old(self).voxel(q)
                    },
            decreases end.x - cur.pos.x,
        {
            let ghost x0 = cur.pos.x;
            while cur.pos.y < end.y
                invariant
                    cur.pos.x == x0,
                    pos.x <= x0 < end.x,
                    self.wf(),
                    self.cursor_ok(&cur),
                    self.size() == old(self).size(),
                    self.origin() == old(self).origin(),
                    end.x <= self.size() && end.y <= self.size() && end.z <= self.size(),
                    end.x == pos.x + size.x,
                    end.y == pos.y + size.y,
                    end.z == pos.z + size.z,
                    back_y == -size.y,
                    back_z == -size.z,
                    pos.y <= cur.pos.y <= end.y,
                    cur.pos.z == pos.z,
                    plane == size.y as int * size.z as int,
                    vol == size.x as int * plane,
                vol == box_volume(size) as int,
                    done == (x0 - pos.x) * plane + (cur.pos.y - pos.y) * size.z,
                    forall|w: nat| #[trigger] old(self).has_room_for(w + done as nat) ==> self.has_room_for(w),
                    forall|q: UVec3|
                        old(self).in_volume(q) ==> #[trigger] self.voxel(q) == if cleared_upto(q, pos, size, cur.pos) {
                            OctreeValue::leaf(0)
                        } else {
                            old(self).voxel(q)
                        },
                decreases end.y - cur.pos.y,
            {
                let ghost y0 = cur.pos.y;
                while cur.pos.z < end.z
                    invariant
                        cur.pos.x == x0,
                        cur.pos.y == y0,
                        pos.x <= x0 < end.x,
                        pos.y <= y0 < end.y,
                        self.wf(),
                        self.cursor_ok(&cur),
                        self.size() == old(self).size(),
                        self.origin() == old(self).origin(),
                        end.x <= self.size() && end.y <= self.size() && end.z <= self.size(),
                        end.x == pos.x + size.x,
                        end.y == pos.y + size.y,
                        end.z == pos.z + size.z,
                        pos.z <= cur.pos.z <= end.z,
                        plane == size.y as int * size.z as int,
                        vol == size.x as int * plane,
                vol == box_volume(size) as int,
                        done == (x0 - pos.x) * plane + (y0 - pos.y) * size.z + (cur.pos.z - pos.z),
                        forall|w: nat| #[trigger] old(self).has_room_for(w + done as nat) ==> self.has_room_for(w),
                        forall|q: UVec3|
                            old(self).in_volume(q) ==> #[trigger] self.voxel(q) == if cleared_upto(q, pos, size, cur.pos) {
                                OctreeValue::leaf(0)
                            } else {
                                old(self).voxel(q)
                            },
                    decreases end.z - cur.pos.z,
                {
                    let ghost pre = *self;
                    let ghost c0 = cur.pos;
                    proof {
                        assert(done + 1 <= vol) by (nonlinear_arith)
                            requires
                                done == (x0 - pos.x) * plane + (y0 - pos.y) * size.z + (c0.z - pos.z),
                                x0 < pos.x + size.x, y0 < pos.y + size.y, c0.z < pos.z + size.z,
                                pos.x <= x0, pos.y <= y0, pos.z <= c0.z,
                                plane == size.y as int * size.z as int, vol == size.x as int * plane;
                        if old(self).has_room_for(box_volume(size)) {
                            let w = (vol - done) as nat;
                            assert(w + done as nat == box_volume(size));
                            assert(old(self).has_room_for(w + done as nat));
                            assert(self.has_room_for(w));
                            self.pool.lemma_has_room_less(WRITE_ROOM * w, WRITE_ROOM as int);
                        }
                    }
                    match self.write_at(&mut cur, 0) {
                        Ok(()) => {},
                        Err(e) => return Err(e),
                    }
                    proof {
                        assert forall|w: nat| #[trigger] old(self).has_room_for(w + (done + 1) as nat) implies self.has_room_for(w) by {
                            assert(old(self).has_room_for((w + 1) + done as nat));
                            assert(pre.has_room_for(w + 1));
                        }
                        done = done + 1;
                        assert forall|q: UVec3| old(self).in_volume(q) implies #[trigger] self.voxel(q) == if cleared_upto(
                            q,
                            pos,
                            size,
                            UVec3 { x: c0.x, y: c0.y, z: (c0.z + 1) as u32 },
                        ) {
                            OctreeValue::leaf(0)
                        } else {
                            old(self).voxel(q)
                        } by {
                            if q != c0 {
                                assert(pre.voxel(q) == self.voxel(q));
                            }
                        }
                    }
                    self.step(&mut cur, IVec3::new(0, 0, 1));
                }
                proof {
                    assert(done == (x0 - pos.x) * plane + (y0 + 1 - pos.y) * size.z) by (nonlinear_arith)
                        requires done == (x0 - pos.x) * plane + (y0 - pos.y) * size.z + size.z;
                }
                let ghost c1 = cur.pos;
                self.step(&mut cur, IVec3::new(0, 1, back_z));
                proof {
                    assert forall|q: UVec3| old(self).in_volume(q) implies #[trigger] self.voxel(q) == if cleared_upto(q, pos, size, cur.pos) {
                        OctreeValue::leaf(0)
                    } else {
                        old(self).voxel(q)
                    } by {
                        assert(cleared_upto(q, pos, size, cur.pos) == cleared_upto(q, pos, size, c1));
                    }
                }
            }
            proof {
                assert(done == (x0 + 1 - pos.x) * plane) by (nonlinear_arith)
                    requires done == (x0 - pos.x) * plane + (size.y as int) * size.z, plane == size.y as int * size.z as int;
            }
            let ghost c2 = cur.pos;
            self.step(&mut cur, IVec3::new(1, back_y, 0));
            proof {
                assert forall|q: UVec3| old(self).in_volume(q) implies #[trigger] self.voxel(q) == if cleared_upto(q, pos, size, cur.pos) {
                    OctreeValue::leaf(0)
                } else {
                    old(self).voxel(q)
                } by {
                    assert(cleared_upto(q, pos, size, cur.pos) == cleared_upto(q, pos, size, c2));
                }
            }
        }
        proof {
            assert(done == vol);
            assert forall|q: UVec3| old(self).in_volume(q) implies #[trigger] self.voxel(q) == if in_box(q, pos, size) {
                OctreeValue::leaf(0)
            } else {
                old(self).voxel(q)
            } by {
                assert(cleared_upto(q, pos, size, cur.pos) == in_box(q, pos, size));
            }
        }
        Ok(())
    }

    fn step(&self, cur: &mut VoxelCursorInner, delta: IVec3)
        requires
            self.wf(),
            self.cursor_ok(old(cur)),
            0 <= old(cur).pos.x + delta.x <= u32::MAX,
            0 <= old(cur).pos.y + delta.y <= u32::MAX,
            0 <= old(cur).pos.z + delta.z <= u32::MAX,
        ensures
            self.cursor_ok(final(cur)),
            final(cur).pos.x == old(cur).pos.x + delta.x,
            final(cur).pos.y == old(cur).pos.y + delta.y,
            final(cur).pos.z == old(cur).pos.z + delta.z,
            final(cur).quadrant_size >= old(cur).quadrant_size,
            delta == (IVec3 { x: 0, y: 0, z: 0 }) ==> final(cur).quadrant_size == old(cur).quadrant_size
                && final(cur).data_idx == old(cur).data_idx,
            final(cur).parent_idxs@.len() == 0 || same_block(old(cur).pos, final(cur).pos, final(cur).quadrant_size as nat),
            final(cur).quadrant_size > old(cur).quadrant_size ==> !same_block(
                old(cur).pos,
                final(cur).pos,
                (final(cur).quadrant_size / 2) as nat,
            ),
    {
        cur.move_by(delta, Ghost(self.pool.data@), Ghost(self.entry), Ghost(self.quadrant_size as nat));
    }

    /// Moves the volume's world origin to `pos`, first clearing the voxels
    /// whose local coordinates leave the window: on each axis, the leading
    /// slab of width `shift` when the shift is positive, else the trailing
    /// slab of width `-shift` (each capped at the edge). The slabs are
    /// cleared X first, then Y and Z, each skipping what an earlier axis
    /// already cleared.
    pub fn set_position(&mut self, pos: IVec3) -> (r: Result<(), OctreeError>)
        requires
            old(self).wf(),
        ensures
            final(self).wf(),
            final(self).size() == old(self).size(),
            r is Ok ==> final(self).origin() == pos,
            r is Err ==> final(self).origin() == old(self).origin(),
            r is Err ==> r == Err::<(), OctreeError>(OctreeError::PoolExhausted),
            old(self).has_room_for(3 * (old(self).size() * old(self).size() * old(self).size())) ==> r is Ok,
            r is Ok ==> forall|q: UVec3|
                old(self).in_volume(q) ==> #[trigger] final(self).voxel(q) == if evicted(
                    q.x as int,
                    pos.x - old(self).origin().x,
                    old(self).size() as int,
                ) || evicted(q.y as int, pos.y - old(self).origin().y, old(self).size() as int) || evicted(
                    q.z as int,
                    pos.z - old(self).origin().z,
                    old(self).size() as int,
                ) {
                    OctreeValue::leaf(0)
                } else {
                    old(self).voxel(q)
                },
    {
        let tree_size = self.quadrant_size * 2;
        let ghost ts = tree_size as int;
        let ghost o = *self;
        let (start_x, size_x) = slab(pos.x as i64 - self.position.x as i64, tree_size);
        let (start_y, size_y) = slab(pos.y as i64 - self.position.y as i64, tree_size);
        let (start_z, size_z) = slab(pos.z as i64 - self.position.z as i64, tree_size);
        let ghost sx1 = start_x;
        let ghost wx1 = size_x;
        let ghost sy1 = start_y;
        let ghost wy1 = size_y;
        let b1p = UVec3::new(start_x, 0, 0);
        let b1s = UVec3::new(size_x, tree_size, tree_size);
        let ghost cube = (ts * ts * ts) as nat;
        proof {
            assert(box_volume(b1s) <= cube) by (nonlinear_arith)
                requires b1s.x <= ts, b1s.y == ts, b1s.z == ts, ts >= 0, cube == ts * ts * ts,
                    box_volume(b1s) == b1s.x * b1s.y * b1s.z;
            if o.has_room_for(3 * cube) {
                self.pool.lemma_has_room_less(WRITE_ROOM * (3 * cube), WRITE_ROOM * box_volume(b1s));
            }
        }
        match self.clear_area(b1p, b1s) {
            Ok(()) => {},
            Err(e) => return Err(e),
        }
        let ghost o1 = *self;
        let (start_x, size_x) = remaining(start_x, size_x, tree_size);
        let b2p = UVec3::new(start_x, start_y, 0);
        let b2s = UVec3::new(size_x, size_y, tree_size);
        proof {
            assert(box_volume(b2s) <= cube) by (nonlinear_arith)
                requires b2s.x <= ts, b2s.y <= ts, b2s.z == ts, ts >= 0, cube == ts * ts * ts,
                    box_volume(b2s) == b2s.x * b2s.y * b2s.z;
            if o.has_room_for(3 * cube) {
                let w = (3 * cube - box_volume(b1s)) as nat;
                assert(o.has_room_for(w + box_volume(b1s)));
                assert(o1.has_room_for(w));
                self.pool.lemma_has_room_less(WRITE_ROOM * w, WRITE_ROOM * (box_volume(b2s) + cube));
            }
        }
        match self.clear_area(b2p, b2s) {
            Ok(()) => {},
            Err(e) => return Err(e),
        }
        let ghost o2 = *self;
        let (start_y, size_y) = remaining(start_y, size_y, tree_size);
        let b3p = UVec3::new(start_x, start_y, start_z);
        let b3s = UVec3::new(size_x, size_y, size_z);
        proof {
            assert(box_volume(b3s) <= cube) by (nonlinear_arith)
                requires b3s.x <= ts, b3s.y <= ts, b3s.z <= ts, ts >= 0, cube == ts * ts * ts,
                    box_volume(b3s) == b3s.x * b3s.y * b3s.z;
            if o.has_room_for(3 * cube) {
                let w = (box_volume(b2s) + cube - box_volume(b2s)) as nat;
                assert(o1.has_room_for(w + box_volume(b2s)));
                assert(o2.has_room_for(w));
                self.pool.lemma_has_room_less(WRITE_ROOM * w, WRITE_ROOM * box_volume(b3s));
            }
        }
        match self.clear_area(b3p, b3s) {
            Ok(()) => {},
            Err(e) => return Err(e),
        }
        let ghost o3 = *self;
        self.position = pos;
        proof {
            assert forall|q: UVec3| o.in_volume(q) implies #[trigger] self.voxel(q) == if evicted(q.x as int, pos.x - o.origin().x, ts)
                || evicted(q.y as int, pos.y - o.origin().y, ts) || evicted(q.z as int, pos.z - o.origin().z, ts) {
                OctreeValue::leaf(0)
            } else {
                o.voxel(q)
            } by {
                assert(o1.voxel(q) == if in_box(q, b1p, b1s) { OctreeValue::leaf(0) } else { o.voxel(q) });
                assert(o2.voxel(q) == if in_box(q, b2p, b2s) { OctreeValue::leaf(0) } else { o1.voxel(q) });
                assert(o3.voxel(q) == if in_box(q, b3p, b3s) { OctreeValue::leaf(0) } else { o2.voxel(q) });
                assert(self.voxel(q) == o3.voxel(q));
                assert(evicted(q.x as int, pos.x - o.origin().x, ts) == within(q.x as int, sx1 as int, wx1 as int));
                assert(evicted(q.y as int, pos.y - o.origin().y, ts) == within(q.y as int, sy1 as int, wy1 as int));
                assert(evicted(q.z as int, pos.z - o.origin().z, ts) == within(q.z as int, start_z as int, size_z as int));
                assert(within(q.x as int, b2p.x as int, b2s.x as int) == !within(q.x as int, sx1 as int, wx1 as int));
                assert(within(q.y as int, start_y as int, size_y as int) == !within(q.y as int, sy1 as int, wy1 as int));
            }
        }
        Ok(())
    }

    /// Number of live nodes: pool slots with a non-zero reference count.
    pub closed spec fn live_count(&self) -> nat {
        count_nonzero(self.pool.refcounts@)
    }

    /// The pool's free slots, as sorted half-open ranges.
    pub closed spec fn free_list(&self) -> Seq<(u32, u32)> {
        self.pool.free@
    }

    /// Number of slots in the node pool, live or free.
    pub fn pool_size(&self) -> (r: usize)
        ensures
            r == self.pool_len(),
    {
        self.pool.data.len()
    }

    /// Number of nodes currently in use.
    pub fn live_node_count(&self) -> (r: usize)
        requires
            self.wf(),
        ensures
            r == self.live_count(),
    {
        let rc = &self.pool.refcounts;
        let mut n: usize = 0;
        let mut i: usize = 0;
        while i < rc.len()
            invariant
                i <= rc@.len(),
                n <= i,
                n == count_nonzero(rc@.subrange(0, i as int)),
            decreases rc.len() - i,
        {
            proof {
                assert(rc@.subrange(0, i as int + 1).drop_last() =~= rc@.subrange(0, i as int));
            }
            if rc[i] > 0 {
                n = n + 1;
            }
            i = i + 1;
        }
        proof {
            assert(rc@.subrange(0, rc@.len() as int) =~= rc@);
        }
        n
    }

    /// The pool's free slots, as sorted, maximally merged half-open ranges.
    pub fn free_ranges(&self) -> (r: Vec<(u32, u32)>)
        ensures
            r@ == self.free_list(),
    {
        let src = &self.pool.free.ranges;
        let mut r: Vec<(u32, u32)> = Vec::new();
        let mut i: usize = 0;
        while i < src.len()
            invariant
                i <= src@.len(),
                r@ == src@.subrange(0, i as int),
            decreases src.len() - i,
        {
            r.push(src[i]);
            i = i + 1;
            assert(r@ =~= src@.subrange(0, i as int));
        }
        assert(src@.subrange(0, src@.len() as int) =~= src@);
        r
    }
}

/// Whether `q` lies in the box at `pos` of extent `size`.
pub open spec fn in_box(q: UVec3, pos: UVec3, size: UVec3) -> bool {
    &&& pos.x <= q.x < pos.x + size.x
    &&& pos.y <= q.y < pos.y + size.y
    &&& pos.z <= q.z < pos.z + size.z
}

/// Number of voxels in a box of extent `size`.
pub open spec fn box_volume(size: UVec3) -> nat {
    (size.x * size.y * size.z) as nat
}

/// Whether a scan of the box that has reached `c` (x slowest, z fastest)
/// has already passed `q`.
pub open spec fn cleared_upto(q: UVec3, pos: UVec3, size: UVec3, c: UVec3) -> bool {
    &&& in_box(q, pos, size)
    &&& (q.x < c.x || (q.x == c.x && (q.y < c.y || (q.y == c.y && q.z < c.z))))
}

/// Whether `c` lies in `[start, start + width)`.
pub open spec fn within(c: int, start: int, width: int) -> bool {
    start <= c < start + width
}

/// Whether coordinate `c` of an axis of edge `size` leaves the window when
/// the origin moves by `shift` on that axis: the leading `shift` coordinates
/// for a positive shift, the trailing `-shift` ones otherwise.
pub open spec fn evicted(c: int, shift: int, size: int) -> bool {
    if shift > 0 {
        c < shift
    } else {
        c >= size + shift
    }
}

/// Number of non-zero counts in `s`.
pub open spec fn count_nonzero(s: Seq<u32>) -> nat
    decreases s.len(),
{
    if s.len() == 0 {
        0
    } else {
        count_nonzero(s.drop_last()) + if s.last() > 0 { 1nat } else { 0nat }
    }
}

/// The slab of one axis that a shift of the window by `shift` evicts, as
/// (start, width): leading when the shift is positive, trailing otherwise,
/// with the width capped at the edge `tree_size`.
pub fn slab(shift: i64, tree_size: u32) -> (r: (u32, u32))
    requires
        -0x1_0000_0000 <= shift <= 0x1_0000_0000,
    ensures
        r.1 as int == if shift > 0 {
            if shift <= tree_size { shift as int } else { tree_size as int }
        } else {
            if -shift <= tree_size { -shift } else { tree_size as int }
        },
        r.0 == if shift > 0 { 0 } else { tree_size - r.1 },
        r.0 + r.1 <= tree_size,
        forall|c: int| 0 <= c < tree_size ==> (#[trigger] within(c, r.0 as int, r.1 as int) <==> evicted(c, shift as int, tree_size as int)),
{
    if shift > 0 {
        let w = if shift <= tree_size as i64 { shift as u32 } else { tree_size };
        (0, w)
    } else {
        let w = if -shift <= tree_size as i64 { (-shift) as u32 } else { tree_size };
        (tree_size - w, w)
    }
}

/// The part of an axis `[0, tree_size)` left over by the slab `(start, width)`
/// produced by [`slab`].
pub fn remaining(start: u32, width: u32, tree_size: u32) -> (r: (u32, u32))
    requires
        start + width <= tree_size,
        start == 0 || start + width == tree_size,
    ensures
        start == 0 ==> r == (width, (tree_size - width) as u32),
        start != 0 ==> r == (0u32, start),
        r.0 + r.1 <= tree_size,
        forall|c: int| 0 <= c < tree_size ==> (#[trigger] within(c, r.0 as int, r.1 as int) <==> !within(c, start as int, width as int)),
{
    if start == 0 {
        (width, tree_size - width)
    } else {
        (0, start)
    }
}

/// A read-only cursor over an octree.
#[derive(Debug)]
pub struct VoxelCursor<'a> {
    octree: &'a Octree,
    inner: VoxelCursorInner,
}

impl<'a> VoxelCursor<'a> {
    pub closed spec fn wf(&self) -> bool {
        self.octree.wf() && self.octree.cursor_ok(&self.inner)
    }

    pub closed spec fn tree(&self) -> Octree {
        *self.octree
    }

    /// The cursor's voxel coordinate.
    pub closed spec fn at(&self) -> UVec3 {
        self.inner.pos
    }

    /// Half-extent of the quadrants of the cursor's node.
    pub closed spec fn level_size(&self) -> u32 {
        self.inner.quadrant_size
    }

    /// Whether the cursor sits in the root node.
    pub closed spec fn at_root(&self) -> bool {
        self.inner.parent_idxs@.len() == 0
    }

    /// The value of the cursor's quadrant in the cursor's node.
    pub closed spec fn current(&self) -> OctreeValue {
        self.octree.pool.node(self.inner.data_idx as int)@[cell_of(
            quadrant_of(self.inner.pos, self.inner.quadrant_size as nat),
        )]
    }

    pub fn value(&self) -> (r: OctreeValue)
        requires
            self.wf(),
        ensures
            r == self.current(),
    {
        proof {
            assert(chain_at(self.inner.parent_idxs@, self.inner.data_idx, self.inner.parent_idxs@.len() as int) < self.octree.pool.len());
        }
        self.inner.value(&self.octree.pool.data)
    }

    pub fn is_leaf(&self) -> (r: bool)
        requires
            self.wf(),
        ensures
            r == self.current().is_leaf_spec(),
    {
        self.value().is_voxel()
    }

    /// Descends to the leaf holding the cursor's voxel.
    pub fn move_to_leaf(&mut self)
        requires
            old(self).wf(),
        ensures
            final(self).wf(),
            final(self).tree() == old(self).tree(),
            final(self).at() == old(self).at(),
            final(self).current() == final(self).tree().voxel(final(self).at()),
            final(self).level_size() == 1 || final(self).current().is_leaf_spec(),
            final(self).level_size() <= old(self).level_size(),
            old(self).level_size() == 1 || old(self).current().is_leaf_spec() ==> final(self).level_size()
                == old(self).level_size() && final(self).current() == old(self).current(),
    {
        self.octree.descend(&mut self.inner);
    }

    /// Moves the coordinate by `delta` and climbs until the current subtree
    /// covers it; does not descend.
    pub fn move_by(&mut self, delta: IVec3)
        requires
            old(self).wf(),
            0 <= old(self).at().x + delta.x <= u32::MAX,
            0 <= old(self).at().y + delta.y <= u32::MAX,
            0 <= old(self).at().z + delta.z <= u32::MAX,
        ensures
            final(self).wf(),
            final(self).tree() == old(self).tree(),
            final(self).at().x == old(self).at().x + delta.x,
            final(self).at().y == old(self).at().y + delta.y,
            final(self).at().z == old(self).at().z + delta.z,
            final(self).level_size() >= old(self).level_size(),
            delta == (IVec3 { x: 0, y: 0, z: 0 }) ==> final(self).level_size() == old(self).level_size()
                && final(self).current() == old(self).current(),
            final(self).at_root() || same_block(old(self).at(), final(self).at(), final(self).level_size() as nat),
            final(self).level_size() > old(self).level_size() ==> !same_block(
                old(self).at(),
                final(self).at(),
                (final(self).level_size() / 2) as nat,
            ),
    {
        self.octree.step(&mut self.inner, delta);
    }

    pub fn pos(&self) -> (r: UVec3)
        ensures
            r == self.at(),
    {
        self.inner.pos
    }

    pub fn quadrant_size(&self) -> (r: u32)
        ensures
            r == self.level_size(),
    {
        self.inner.quadrant_size
    }
}

/// A cursor that can also write voxels; it borrows its octree exclusively.
pub struct VoxelCursorMut<'a> {
    octree: &'a mut Octree,
    inner: VoxelCursorInner,
}

impl<'a> VoxelCursorMut<'a> {
    pub closed spec fn wf(&self) -> bool {
        self.octree.wf() && self.octree.cursor_ok(&self.inner)
    }

    pub closed spec fn tree(&self) -> Octree {
        *self.octree
    }

    /// The cursor's voxel coordinate.
    pub closed spec fn at(&self) -> UVec3 {
        self.inner.pos
    }

    /// Half-extent of the quadrants of the cursor's node.
    pub closed spec fn level_size(&self) -> u32 {
        self.inner.quadrant_size
    }

    /// Whether the cursor sits in the root node.
    pub closed spec fn at_root(&self) -> bool {
        self.inner.parent_idxs@.len() == 0
    }

    /// The value of the cursor's quadrant in the cursor's node.
    pub closed spec fn current(&self) -> OctreeValue {
        self.octree.pool.node(self.inner.data_idx as int)@[cell_of(
            quadrant_of(self.inner.pos, self.inner.quadrant_size as nat),
        )]
    }

    pub fn value(&self) -> (r: OctreeValue)
        requires
            self.wf(),
        ensures
            r == self.current(),
    {
        proof {
            assert(chain_at(self.inner.parent_idxs@, self.inner.data_idx, self.inner.parent_idxs@.len() as int) < self.octree.pool.len());
        }
        self.inner.value(&self.octree.pool.data)
    }

    pub fn is_leaf(&self) -> (r: bool)
        requires
            self.wf(),
        ensures
            r == self.current().is_leaf_spec(),
    {
        self.value().is_voxel()
    }

    /// Sets the voxel under the cursor to the id `id`.
    pub fn set_voxel(&mut self, id: u32) -> (r: Result<(), OctreeError>)
        requires
            old(self).wf(),
            id <= MAX_PAYLOAD,
        ensures
            final(self).tree().wf(),
            final(self).tree().size() == old(self).tree().size(),
            final(self).tree().origin() == old(self).tree().origin(),
            final(self).at() == old(self).at(),
            final(self).wf(),
            r is Ok ==> final(self).tree().voxel(final(self).at()) == OctreeValue::leaf(id),
            old(self).tree().in_volume(old(self).at()) ==> forall|q: UVec3|
                old(self).tree().in_volume(q) && q != old(self).at() ==> #[trigger] final(self).tree().voxel(q)
                    == old(self).tree().voxel(q),
            r is Err ==> forall|q: UVec3| #[trigger] final(self).tree().voxel(q) == old(self).tree().voxel(q),
            old(self).tree().voxel(old(self).at()) == OctreeValue::leaf(id) ==> r is Ok && final(self).tree()
                == old(self).tree(),
            old(self).tree().has_room() ==> r is Ok,
            r is Err ==> r == Err::<(), OctreeError>(OctreeError::PoolExhausted),
    {
        self.octree.write_at(&mut self.inner, id)
    }

    /// Descends to the leaf holding the cursor's voxel.
    pub fn move_to_leaf(&mut self)
        requires
            old(self).wf(),
        ensures
            final(self).wf(),
            final(self).tree() == old(self).tree(),
            final(self).at() == old(self).at(),
            final(self).current() == final(self).tree().voxel(final(self).at()),
            final(self).level_size() == 1 || final(self).current().is_leaf_spec(),
            final(self).level_size() <= old(self).level_size(),
            old(self).level_size() == 1 || old(self).current().is_leaf_spec() ==> final(self).level_size()
                == old(self).level_size() && final(self).current() == old(self).current(),
    {
        self.octree.descend(&mut self.inner);
    }

    /// Moves the coordinate by `delta` and climbs until the current subtree
    /// covers it; does not descend.
    pub fn move_by(&mut self, delta: IVec3)
        requires
            old(self).wf(),
            0 <= old(self).at().x + delta.x <= u32::MAX,
            0 <= old(self).at().y + delta.y <= u32::MAX,
            0 <= old(self).at().z + delta.z <= u32::MAX,
        ensures
            final(self).wf(),
            final(self).tree() == old(self).tree(),
            final(self).at().x == old(self).at().x + delta.x,
            final(self).at().y == old(self).at().y + delta.y,
            final(self).at().z == old(self).at().z + delta.z,
            final(self).level_size() >= old(self).level_size(),
            delta == (IVec3 { x: 0, y: 0, z: 0 }) ==> final(self).level_size() == old(self).level_size()
                && final(self).current() == old(self).current(),
            final(self).at_root() || same_block(old(self).at(), final(self).at(), final(self).level_size() as nat),
            final(self).level_size() > old(self).level_size() ==> !same_block(
                old(self).at(),
                final(self).at(),
                (final(self).level_size() / 2) as nat,
            ),
    {
        self.octree.step(&mut self.inner, delta);
    }

    pub fn pos(&self) -> (r: UVec3)
        ensures
            r == self.at(),
    {
        self.inner.pos
    }

    pub fn quadrant_size(&self) -> (r: u32)
        ensures
            r == self.level_size(),
    {
        self.inner.quadrant_size
    }
}

} // verus!
