use vstd::prelude::*;
use std::collections::BTreeMap;

use crate::error::OctreeError;
use crate::free_ranges::FreeRanges;
use crate::node::{NodeKey, OctreeNode};
use crate::value::MAX_PAYLOAD;

verus! {

broadcast use vstd::laws_cmp::group_laws_cmp, vstd::std_specs::btree::group_btree_axioms;

/// True iff every pointer cell of `n` names an index below `len`.
pub open spec fn pointers_below(n: OctreeNode, len: int) -> bool {
    forall|c: int| 0 <= c < 8 && !(#[trigger] n@[c]).is_leaf_spec() ==> n@[c].payload() < len
}

/// Hash-consed arena of tree nodes: each distinct live content is stored
/// once, with a reference count; dead slots are kept in a free list.
#[derive(Debug)]
pub struct NodePool {
    pub(crate) data: Vec<OctreeNode>,
    pub(crate) refcounts: Vec<u32>,
    pub(crate) index: BTreeMap<NodeKey, u32>,
    pub(crate) free: FreeRanges,
}

impl NodePool {
    pub(crate) open spec fn len(&self) -> int {
        self.data@.len() as int
    }

    pub(crate) open spec fn node(&self, i: int) -> OctreeNode {
        self.data@[i]
    }

    pub(crate) open spec fn rc(&self, i: int) -> u32 {
        self.refcounts@[i]
    }

    /// The count of slot `i`, and 0 past the pool's end.
    pub(crate) open spec fn rc_or0(&self, i: int) -> int {
        if 0 <= i < self.len() {
            self.rc(i) as int
        } else {
            0
        }
    }

    pub(crate) open spec fn live(&self, i: int) -> bool {
        0 <= i < self.len() && self.rc(i) > 0
    }

    pub(crate) open spec fn wf(&self) -> bool {
        &&& self.refcounts@.len() == self.data@.len()
        &&& self.data@.len() <= MAX_PAYLOAD + 1
        &&& self.free.wf()
        &&& forall|i: int| #[trigger] self.free.contains(i) ==> 0 <= i < self.len()
        &&& forall|i: int| 0 <= i < self.len() ==> (self.free.contains(i) <==> #[trigger] self.rc(i) == 0)
        &&& forall|k: NodeKey| #[trigger] self.index@.contains_key(k) ==> {
            let i = self.index@[k] as int;
            &&& self.live(i)
            &&& self.node(i).key() == k
        }
        &&& forall|i: int| #[trigger] self.live(i) ==> {
            &&& self.index@.contains_key(self.node(i).key())
            &&& self.index@[self.node(i).key()] == i
        }
        &&& forall|i: int| 0 <= i < self.len() ==> pointers_below(#[trigger] self.node(i), self.len())
    }

    /// Room for `k` more insertions: `k` more slots fit in a pointer's
    /// payload, and `k` more references fit in every count.
    pub(crate) open spec fn has_room(&self, k: int) -> bool {
        &&& self.len() + k <= MAX_PAYLOAD + 1
        &&& forall|i: int| 0 <= i < self.len() ==> #[trigger] self.rc(i) + k <= u32::MAX
    }

    pub(crate) proof fn lemma_has_room_less(&self, k: int, j: int)
        requires
            self.has_room(k),
            j <= k,
        ensures
            self.has_room(j),
    {
        assert forall|i: int| 0 <= i < self.len() implies #[trigger] self.rc(i) + j <= u32::MAX by {
            assert(self.rc(i) + k <= u32::MAX);
        }
    }

    /// The pool index holding content `n`, if some live slot holds it.
    pub(crate) open spec fn find(&self, n: OctreeNode) -> Option<u32> {
        if self.index@.contains_key(n.key()) {
            Some(self.index@[n.key()])
        } else {
            None
        }
    }

    /// The slots whose content is kept by a change of `self` into `post`.
    pub(crate) open spec fn keeps_live(&self, post: &NodePool) -> bool {
        &&& post.len() >= self.len()
        &&& forall|i: int| #[trigger] self.live(i) ==> post.live(i) && post.node(i) == self.node(i)
    }

    /// A pool holding just the all-empty node, at index 0 with count 1.
    pub(crate) fn new() -> (r: NodePool)
        ensures
            r.wf(),
            r.len() == 1,
            r.rc(0) == 1,
            r.free@.len() == 0,
            r.node(0)@ == Seq::new(8, |i: int| crate::value::OctreeValue(0)),
    {
        let empty = OctreeNode::new();
        let mut index: BTreeMap<NodeKey, u32> = BTreeMap::new();
        index.insert(empty.key_exec(), 0);
        let r = NodePool { data: vec![empty], refcounts: vec![1], index, free: FreeRanges::new() };
        assert forall|k: NodeKey| #[trigger] r.index@.contains_key(k) implies r.live(r.index@[k] as int)
            && r.node(r.index@[k] as int).key() == k by {}
        r
    }

    /// Returns the index of a slot holding `node`, sharing an equal live node
    /// when there is one, else filling the first free slot, else appending.
    pub(crate) fn get_or_insert(&mut self, node: OctreeNode) -> (r: Result<u32, OctreeError>)
        requires
            old(self).wf(),
            pointers_below(node, old(self).len()),
        ensures
            final(self).wf(),
            match r {
                Ok(i) => {
                    &&& final(self).live(i as int)
                    &&& final(self).node(i as int)@ == node@
                    &&& old(self).keeps_live(final(self))
                    &&& final(self).rc(i as int) == if old(self).live(i as int) {
                        old(self).rc(i as int) + 1
                    } else {
                        1
                    }
                    &&& forall|j: int| 0 <= j < old(self).len() && j != i ==> #[trigger] final(self).rc(j) == old(self).rc(j)
                    &&& forall|j: int| #[trigger] final(self).rc_or0(j) == old(self).rc_or0(j) + (if j == i { 1int } else { 0int })
                    &&& forall|k: int| 1 <= k && #[trigger] old(self).has_room(k) ==> final(self).has_room(k - 1)
                    &&& match old(self).find(node) {
                        Some(j) => {
                            &&& i == j
                            &&& final(self).data@ == old(self).data@
                            &&& final(self).index@ == old(self).index@
                            &&& final(self).free@ == old(self).free@
                        },
                        None => {
                            &&& final(self).index@ == old(self).index@.insert(node.key(), i)
                            &&& forall|x: int| final(self).free.contains(x) <==> (old(self).free.contains(x) && x != i)
                            &&& if old(self).free@.len() > 0 {
                                i == old(self).free@[0].0 && final(self).len() == old(self).len()
                            } else {
                                i == old(self).len() && final(self).len() == old(self).len() + 1
                            }
                        },
                    }
                },
                Err(e) => {
                    &&& e == OctreeError::PoolExhausted
                    &&& !old(self).has_room(1)
                    &&& *final(self) == *old(self)
                    &&& match old(self).find(node) {
                        Some(j) => old(self).rc(j as int) == u32::MAX,
                        None => old(self).free@.len() == 0 && old(self).len() > MAX_PAYLOAD,
                    }
                },
            },
    {
        let key = node.key_exec();
        match self.index.get(&key) {
            Some(i) => {
                let i = *i;
                let c = self.refcounts[i as usize];
                if c == u32::MAX {
                    return Err(OctreeError::PoolExhausted);
                }
                self.refcounts.set(i as usize, c + 1);
                assert(self.free@ == old(self).free@);
                assert forall|j: int| 0 <= j < self.len() implies (self.free.contains(j) <==> #[trigger] self.rc(j) == 0) by {
                    assert(old(self).free.contains(j) <==> old(self).rc(j) == 0);
                }
                assert forall|j: int| #[trigger] self.live(j) implies self.index@.contains_key(self.node(j).key())
                    && self.index@[self.node(j).key()] == j by {
                    if j != i {
                        assert(old(self).live(j));
                    }
                }
                assert forall|k: NodeKey| #[trigger] self.index@.contains_key(k) implies self.live(self.index@[k] as int)
                    && self.node(self.index@[k] as int).key() == k by {
                    assert(old(self).live(old(self).index@[k] as int));
                }
                assert forall|j: int| #[trigger] old(self).live(j) implies self.live(j) && self.node(j) == old(self).node(j) by {}
                assert forall|j: int| 0 <= j < self.len() implies pointers_below(#[trigger] self.node(j), self.len()) by {
                    assert(pointers_below(old(self).node(j), old(self).len()));
                }
                proof {
                    crate::node::lemma_key_injective(node, self.node(i as int));
                }
                assert forall|j: int| 0 <= j < old(self).len() && j != i implies #[trigger] self.rc(j) == old(self).rc(j) by {}
                assert forall|k: int| 1 <= k && #[trigger] old(self).has_room(k) implies self.has_room(k - 1) by {
                    assert forall|j: int| 0 <= j < self.len() implies #[trigger] self.rc(j) + (k - 1) <= u32::MAX by {
                        if j < old(self).len() {
                            assert(old(self).rc(j) + k <= u32::MAX);
                        }
                    }
                }
                Ok(i)
            },
            None => {
                let i: u32;
                if self.free.is_empty() {
                    if self.data.len() > MAX_PAYLOAD as usize {
                        return Err(OctreeError::PoolExhausted);
                    }
                    i = self.data.len() as u32;
                    self.data.push(node);
                    self.refcounts.push(1);
                } else {
                    let taken = self.free.take_first();
                    i = taken.unwrap();
                    self.data.set(i as usize, node);
                    self.refcounts.set(i as usize, 1);
                }
                self.index.insert(key, i);
                assert forall|j: int| #[trigger] old(self).live(j) implies self.live(j) && self.node(j) == old(self).node(j) by {
                    assert(j != i);
                }
                assert forall|j: int| 0 <= j < self.len() implies (self.free.contains(j) <==> #[trigger] self.rc(j) == 0) by {
                    if j != i {
                        assert(old(self).free.contains(j) <==> old(self).rc(j) == 0);
                    }
                }
                assert forall|j: int| #[trigger] self.live(j) implies self.index@.contains_key(self.node(j).key())
                    && self.index@[self.node(j).key()] == j by {
                    if j != i {
                        assert(old(self).live(j));
                        assert(self.node(j).key() != key);
                    }
                }
                assert forall|k: NodeKey| #[trigger] self.index@.contains_key(k) implies self.live(self.index@[k] as int)
                    && self.node(self.index@[k] as int).key() == k by {
                    if k != key {
                        assert(old(self).live(old(self).index@[k] as int));
                    }
                }
                assert forall|j: int| 0 <= j < self.len() implies pointers_below(#[trigger] self.node(j), self.len()) by {
                    if j != i {
                        assert(pointers_below(old(self).node(j), old(self).len()));
                    }
                }
                assert forall|j: int| 0 <= j < old(self).len() && j != i implies #[trigger] self.rc(j) == old(self).rc(j) by {}
                assert forall|k: int| 1 <= k && #[trigger] old(self).has_room(k) implies self.has_room(k - 1) by {
                    assert forall|j: int| 0 <= j < self.len() implies #[trigger] self.rc(j) + (k - 1) <= u32::MAX by {
                        if j < old(self).len() {
                            assert(old(self).rc(j) + k <= u32::MAX);
                        }
                    }
                }
                assert forall|x: int| self.free.contains(x) <==> (old(self).free.contains(x) && x != i) by {
                    if x == i {
                        if old(self).free.contains(x) {
                            assert(x < old(self).len());
                            assert(old(self).rc(x) == 0);
                        }
                        assert(self.free.contains(x) <==> self.rc(x) == 0);
                    }
                }
                Ok(i)
            },
        }
    }
    /// Drops one reference to the node at `idx`; when none is left, forgets
    /// its content and marks the slot free.
    pub(crate) fn release(&mut self, idx: u32)
        requires
            old(self).wf(),
            old(self).live(idx as int),
        ensures
            final(self).wf(),
            final(self).data@ == old(self).data@,
            forall|k: int| #[trigger] old(self).has_room(k) ==> final(self).has_room(k),
            forall|j: int| #[trigger] final(self).rc_or0(j) == old(self).rc_or0(j) - (if j == idx { 1int } else { 0int }),
            final(self).refcounts@ == old(self).refcounts@.update(idx as int, (old(self).rc(idx as int) - 1) as u32),
            if old(self).rc(idx as int) == 1 {
                &&& final(self).index@ == old(self).index@.remove(old(self).node(idx as int).key())
                &&& forall|j: int| final(self).free.contains(j) <==> (old(self).free.contains(j) || j == idx)
            } else {
                &&& final(self).index@ == old(self).index@
                &&& final(self).free@ == old(self).free@
            },
    {
        let c = self.refcounts[idx as usize];
        assert(old(self).free.contains(idx as int) <==> old(self).rc(idx as int) == 0);
        self.refcounts.set(idx as usize, c - 1);
        if c == 1 {
            let key = self.data[idx as usize].key_exec();
            self.index.remove(&key);
            self.free.release(idx);
            assert forall|k: NodeKey| #[trigger] self.index@.contains_key(k) implies self.live(self.index@[k] as int)
                && self.node(self.index@[k] as int).key() == k by {
                assert(old(self).live(old(self).index@[k] as int));
            }
            assert forall|j: int| #[trigger] self.live(j) implies self.index@.contains_key(self.node(j).key())
                && self.index@[self.node(j).key()] == j by {
                assert(old(self).live(j));
                assert(old(self).index@[old(self).node(j).key()] == j);
                assert(old(self).index@[key] == idx);
            }
        } else {
            assert forall|k: NodeKey| #[trigger] self.index@.contains_key(k) implies self.live(self.index@[k] as int)
                && self.node(self.index@[k] as int).key() == k by {
                assert(old(self).live(old(self).index@[k] as int));
            }
            assert forall|j: int| #[trigger] self.live(j) implies self.index@.contains_key(self.node(j).key())
                && self.index@[self.node(j).key()] == j by {
                assert(old(self).live(j));
            }
        }
        assert forall|j: int| 0 <= j < self.len() implies (self.free.contains(j) <==> #[trigger] self.rc(j) == 0) by {
            assert(old(self).free.contains(j) <==> old(self).rc(j) == 0);
        }
        assert forall|j: int| 0 <= j < self.len() implies pointers_below(#[trigger] self.node(j), self.len()) by {
            assert(pointers_below(old(self).node(j), old(self).len()));
        }
        assert forall|k: int| #[trigger] old(self).has_room(k) implies self.has_room(k) by {
            assert forall|j: int| 0 <= j < self.len() implies #[trigger] self.rc(j) + k <= u32::MAX by {
                assert(old(self).rc(j) + k <= u32::MAX);
            }
        }
    }
}

} // verus!
