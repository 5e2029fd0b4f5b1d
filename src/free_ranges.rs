use vstd::prelude::*;

verus! {

/// True iff index `i` lies in one of the half-open ranges of `s`.
pub open spec fn covered(s: Seq<(u32, u32)>, i: int) -> bool {
    exists|k: int| 0 <= k < s.len() && #[trigger] s[k].0 <= i < s[k].1
}

/// Ranges are non-empty, sorted by start, and separated by at least one
/// index, so that no two of them could be merged.
pub open spec fn ranges_wf(s: Seq<(u32, u32)>) -> bool {
    &&& forall|k: int| 0 <= k < s.len() ==> #[trigger] s[k].0 < s[k].1
    &&& forall|a: int, b: int| 0 <= a < b < s.len() ==> #[trigger] s[a].1 < #[trigger] s[b].0
}

/// Free pool indices as a sorted list of maximally merged half-open ranges.
#[derive(Debug)]
pub struct FreeRanges {
    pub ranges: Vec<(u32, u32)>,
}

impl FreeRanges {
    pub open spec fn view(&self) -> Seq<(u32, u32)> {
        self.ranges@
    }

    pub open spec fn wf(&self) -> bool {
        ranges_wf(self@)
    }

    pub open spec fn contains(&self, i: int) -> bool {
        covered(self@, i)
    }

    pub fn new() -> (r: FreeRanges)
        ensures
            r.wf(),
            r@.len() == 0,
            forall|i: int| !r.contains(i),
    {
        FreeRanges { ranges: Vec::new() }
    }

    pub fn is_empty(&self) -> (r: bool)
        ensures
            r == (self@.len() == 0),
            r ==> forall|i: int| !self.contains(i),
    {
        self.ranges.len() == 0
    }

    /// Takes the smallest free index, shrinking (or dropping) the first range.
    pub fn take_first(&mut self) -> (r: Option<u32>)
        requires
            old(self).wf(),
        ensures
            final(self).wf(),
            old(self)@.len() == 0 <==> r.is_none(),
            r.is_none() ==> final(self)@ == old(self)@,
            r.is_some() ==> {
                &&& r.unwrap() == old(self)@[0].0
                &&& old(self).contains(r.unwrap() as int)
                &&& forall|i: int| old(self).contains(i) ==> r.unwrap() <= i
                &&& forall|i: int|
                    final(self).contains(i) <==> (old(self).contains(i) && i != r.unwrap())
            },
    {
        if self.ranges.len() == 0 {
            return None;
        }
        let (start, end) = self.ranges[0];
        let ghost s0 = self@;
        if start + 1 == end {
            self.ranges.remove(0);
            assert forall|i: int| self.contains(i) <==> (covered(s0, i) && i != start) by {
                if covered(s0, i) && i != start {
                    let k = choose|k: int| 0 <= k < s0.len() && #[trigger] s0[k].0 <= i < s0[k].1;
                    assert(self@[k - 1] == s0[k]);
                }
                if self.contains(i) {
                    let k = choose|k: int| 0 <= k < self@.len() && #[trigger] self@[k].0 <= i < self@[k].1;
                    assert(self@[k] == s0[k + 1]);
                }
            }
        } else {
            self.ranges.set(0, (start + 1, end));
            assert forall|i: int| self.contains(i) <==> (covered(s0, i) && i != start) by {
                if covered(s0, i) && i != start {
                    let k = choose|k: int| 0 <= k < s0.len() && #[trigger] s0[k].0 <= i < s0[k].1;
                    assert(self@[k].0 <= i < self@[k].1);
                }
                if self.contains(i) {
                    let k = choose|k: int| 0 <= k < self@.len() && #[trigger] self@[k].0 <= i < self@[k].1;
                    assert(s0[k].0 <= i < s0[k].1);
                }
            }
        }
        assert forall|i: int| covered(s0, i) implies start <= i by {
            let k = choose|k: int| 0 <= k < s0.len() && #[trigger] s0[k].0 <= i < s0[k].1;
            if k > 0 {
                assert(s0[0].1 < s0[k].0);
            }
        }
        assert(covered(s0, start as int)) by {
            assert(s0[0].0 <= start < s0[0].1);
        }
        Some(start)
    }

    /// Number of ranges whose start is below `idx`.
    fn search(&self, idx: u32) -> (r: usize)
        requires
            self.wf(),
        ensures
            r <= self@.len(),
            forall|k: int| 0 <= k < r ==> #[trigger] self@[k].0 < idx,
            forall|k: int| r <= k < self@.len() ==> #[trigger] self@[k].0 >= idx,
    {
        let mut lo: usize = 0;
        let mut hi: usize = self.ranges.len();
        while lo < hi
            invariant
                self.wf(),
                lo <= hi <= self@.len(),
                forall|k: int| 0 <= k < lo ==> #[trigger] self@[k].0 < idx,
                forall|k: int| hi <= k < self@.len() ==> #[trigger] self@[k].0 >= idx,
            decreases hi - lo,
        {
            let mid = lo + (hi - lo) / 2;
            if self.ranges[mid].0 < idx {
                assert forall|k: int| 0 <= k <= mid implies #[trigger] self@[k].0 < idx by {
                    if k < mid {
                        assert(self@[k].0 < self@[k].1);
                        assert(self@[k].1 < self@[mid as int].0);
                    }
                }
                lo = mid + 1;
            } else {
                assert forall|k: int| mid <= k < self@.len() implies #[trigger] self@[k].0 >= idx by {
                    if k > mid {
                        assert(self@[mid as int].0 < self@[mid as int].1);
                        assert(self@[mid as int].1 < self@[k].0);
                    }
                }
                hi = mid;
            }
        }
        lo
    }

    /// Marks `idx` free, merging it with the range just before and/or just
    /// after it so that the ranges stay maximally merged.
    pub fn release(&mut self, idx: u32)
        requires
            old(self).wf(),
            !old(self).contains(idx as int),
            idx < u32::MAX,
        ensures
            final(self).wf(),
            forall|i: int| final(self).contains(i) <==> (old(self).contains(i) || i == idx),
    {
        let ghost s0 = self@;
        let pos = self.search(idx);
        assert forall|k: int| 0 <= k < pos implies #[trigger] s0[k].1 <= idx by {
            if s0[k].1 > idx {
                assert(s0[k].0 <= idx < s0[k].1);
            }
        }
        assert forall|k: int| pos <= k < s0.len() implies #[trigger] s0[k].0 > idx by {
            if s0[k].0 == idx {
                assert(s0[k].0 <= idx < s0[k].1);
            }
        }
        let len = self.ranges.len();
        let joins_prev = pos > 0 && self.ranges[pos - 1].1 == idx;
        let joins_next = pos < len && self.ranges[pos].0 == idx + 1;
        if joins_prev && joins_next {
            self.join_both(pos, idx);
        } else if joins_prev {
            self.extend_prev(pos, idx);
        } else if joins_next {
            self.extend_next(pos, idx);
        } else {
            self.insert_single(pos, idx);
        }
    }

    spec fn splits_at(&self, pos: int, idx: u32) -> bool {
        &&& self.wf()
        &&& 0 <= pos <= self@.len()
        &&& idx < u32::MAX
        &&& forall|k: int| 0 <= k < pos ==> #[trigger] self@[k].1 <= idx
        &&& forall|k: int| pos <= k < self@.len() ==> #[trigger] self@[k].0 > idx
    }

    fn join_both(&mut self, pos: usize, idx: u32)
        requires
            old(self).splits_at(pos as int, idx),
            0 < pos < old(self)@.len(),
            old(self)@[pos - 1].1 == idx,
            old(self)@[pos as int].0 == idx + 1,
        ensures
            final(self).wf(),
            forall|i: int| final(self).contains(i) <==> (old(self).contains(i) || i == idx),
    {
        let ghost s0 = self@;
        let start = self.ranges[pos - 1].0;
        let end = self.ranges[pos].1;
        self.ranges.set(pos - 1, (start, end));
        self.ranges.remove(pos);
        let ghost s = self@;
        assert(s =~= s0.subrange(0, pos - 1).push((start, end)).add(s0.subrange(pos + 1, s0.len() as int)));
        assert forall|a: int, b: int| 0 <= a < b < s.len() implies #[trigger] s[a].1 < #[trigger] s[b].0 by {
            let a0 = if a < pos - 1 { a } else { a + 1 };
            let b0 = if b < pos - 1 { b } else { b + 1 };
            assert(s0[a0].1 < s0[b0].0 || a0 == pos - 1 || b0 == pos);
            if a == pos - 1 {
                assert(s0[pos as int].1 < s0[b + 1].0);
            }
            if b == pos - 1 {
                assert(s0[a].1 < s0[pos - 1].0);
            }
        }
        assert forall|i: int| self.contains(i) <==> (covered(s0, i) || i == idx) by {
            if covered(s0, i) {
                let k = choose|k: int| 0 <= k < s0.len() && #[trigger] s0[k].0 <= i < s0[k].1;
                if k < pos - 1 {
                    assert(s[k] == s0[k]);
                } else if k == pos - 1 || k == pos {
                    assert(s[pos - 1].0 <= i < s[pos - 1].1);
                } else {
                    assert(s[k - 1] == s0[k]);
                }
            }
            if i == idx {
                assert(s[pos - 1].0 <= i < s[pos - 1].1);
            }
            if self.contains(i) {
                let k = choose|k: int| 0 <= k < s.len() && #[trigger] s[k].0 <= i < s[k].1;
                if k < pos - 1 {
                    assert(s0[k].0 <= i < s0[k].1);
                } else if k == pos - 1 {
                    if i < idx {
                        assert(s0[k].0 <= i < s0[k].1);
                    } else if i > idx {
                        assert(s0[pos as int].0 <= i < s0[pos as int].1);
                    }
                } else {
                    assert(s0[k + 1].0 <= i < s0[k + 1].1);
                }
            }
        }
    }

    fn extend_prev(&mut self, pos: usize, idx: u32)
        requires
            old(self).splits_at(pos as int, idx),
            0 < pos <= old(self)@.len(),
            old(self)@[pos - 1].1 == idx,
            pos < old(self)@.len() ==> old(self)@[pos as int].0 != idx + 1,
        ensures
            final(self).wf(),
            forall|i: int| final(self).contains(i) <==> (old(self).contains(i) || i == idx),
    {
        let ghost s0 = self@;
        let start = self.ranges[pos - 1].0;
        self.ranges.set(pos - 1, (start, idx + 1));
        let ghost s = self@;
        assert forall|a: int, b: int| 0 <= a < b < s.len() implies #[trigger] s[a].1 < #[trigger] s[b].0 by {
            assert(s0[a].1 < s0[b].0);
        }
        assert forall|i: int| self.contains(i) <==> (covered(s0, i) || i == idx) by {
            if covered(s0, i) {
                let k = choose|k: int| 0 <= k < s0.len() && #[trigger] s0[k].0 <= i < s0[k].1;
                assert(s[k].0 <= i < s[k].1);
            }
            if i == idx {
                assert(s[pos - 1].0 <= i < s[pos - 1].1);
            }
            if self.contains(i) {
                let k = choose|k: int| 0 <= k < s.len() && #[trigger] s[k].0 <= i < s[k].1;
                if k != pos - 1 || i < idx {
                    assert(s0[k].0 <= i < s0[k].1);
                }
            }
        }
    }

    fn extend_next(&mut self, pos: usize, idx: u32)
        requires
            old(self).splits_at(pos as int, idx),
            pos < old(self)@.len(),
            old(self)@[pos as int].0 == idx + 1,
            pos > 0 ==> old(self)@[pos - 1].1 != idx,
        ensures
            final(self).wf(),
            forall|i: int| final(self).contains(i) <==> (old(self).contains(i) || i == idx),
    {
        let ghost s0 = self@;
        let end = self.ranges[pos].1;
        self.ranges.set(pos, (idx, end));
        let ghost s = self@;
        assert forall|a: int, b: int| 0 <= a < b < s.len() implies #[trigger] s[a].1 < #[trigger] s[b].0 by {
            if b == pos {
                assert(s0[a].1 <= idx);
                if a < pos - 1 {
                    assert(s0[a].1 < s0[pos - 1].0);
                    assert(s0[pos - 1].0 < s0[pos - 1].1);
                }
            } else {
                assert(s0[a].1 < s0[b].0);
            }
        }
        assert forall|i: int| self.contains(i) <==> (covered(s0, i) || i == idx) by {
            if covered(s0, i) {
                let k = choose|k: int| 0 <= k < s0.len() && #[trigger] s0[k].0 <= i < s0[k].1;
                assert(s[k].0 <= i < s[k].1);
            }
            if i == idx {
                assert(s[pos as int].0 <= i < s[pos as int].1);
            }
            if self.contains(i) {
                let k = choose|k: int| 0 <= k < s.len() && #[trigger] s[k].0 <= i < s[k].1;
                if k != pos || i > idx {
                    assert(s0[k].0 <= i < s0[k].1);
                }
            }
        }
    }

    fn insert_single(&mut self, pos: usize, idx: u32)
        requires
            old(self).splits_at(pos as int, idx),
            pos > 0 ==> old(self)@[pos - 1].1 != idx,
            pos < old(self)@.len() ==> old(self)@[pos as int].0 != idx + 1,
        ensures
            final(self).wf(),
            forall|i: int| final(self).contains(i) <==> (old(self).contains(i) || i == idx),
    {
        let ghost s0 = self@;
        self.ranges.insert(pos, (idx, idx + 1));
        let ghost s = self@;
        assert(s[pos as int] == (idx, (idx + 1) as u32));
        assert forall|a: int, b: int| 0 <= a < b < s.len() implies #[trigger] s[a].1 < #[trigger] s[b].0 by {
            if b < pos {
                assert(s[a] == s0[a] && s[b] == s0[b]);
                assert(s0[a].1 < s0[b].0);
            } else if a > pos {
                assert(s[a] == s0[a - 1] && s[b] == s0[b - 1]);
                assert(s0[a - 1].1 < s0[b - 1].0);
            } else if a < pos && b > pos {
                assert(s[a] == s0[a] && s[b] == s0[b - 1]);
                assert(s0[a].1 <= idx);
                assert(s0[b - 1].0 > idx + 1);
            } else if a == pos {
                assert(s[b] == s0[b - 1]);
                assert(s0[b - 1].0 > idx + 1);
            } else {
                assert(s[a] == s0[a]);
                if a < pos - 1 {
                    assert(s0[a].1 < s0[pos - 1].0);
                    assert(s0[pos - 1].0 < s0[pos - 1].1);
                }
                assert(s0[a].1 < idx);
            }
        }
        proof {
            assert(self@ == s0.insert(pos as int, (idx, (idx + 1) as u32)));
            lemma_insert_covered(s0, pos as int, idx);
            assert(s0 == old(self)@);
            assert forall|i: int| self.contains(i) <==> (old(self).contains(i) || i == idx) by {
                assert(covered(s0.insert(pos as int, (idx, (idx + 1) as u32)), i) <==> (covered(s0, i) || i == idx));
            }
        }
    }
}

proof fn lemma_insert_covered(s0: Seq<(u32, u32)>, pos: int, idx: u32)
    requires
        0 <= pos <= s0.len(),
        idx < u32::MAX,
    ensures
        forall|i: int| covered(s0.insert(pos, (idx, (idx + 1) as u32)), i) <==> (covered(s0, i) || i == idx),
{
    let s = s0.insert(pos, (idx, (idx + 1) as u32));
    assert forall|i: int| covered(s, i) <==> (covered(s0, i) || i == idx) by {
        if covered(s0, i) {
            let k = choose|k: int| 0 <= k < s0.len() && #[trigger] s0[k].0 <= i < s0[k].1;
            if k < pos {
                assert(s[k] == s0[k]);
            } else {
                assert(s[k + 1] == s0[k]);
            }
        }
        if i == idx {
            assert(s[pos].0 <= i < s[pos].1);
        }
        if covered(s, i) {
            let k = choose|k: int| 0 <= k < s.len() && #[trigger] s[k].0 <= i < s[k].1;
            if k < pos {
                assert(s0[k].0 <= i < s0[k].1);
            } else if k > pos {
                assert(s0[k - 1].0 <= i < s0[k - 1].1);
            }
        }
    }
}

/// Two free indices next to each other always lie in one and the same range:
/// the free list never holds two ranges that touch.
pub proof fn lemma_adjacent_free_indices_share_range(f: FreeRanges, i: int)
    requires
        f.wf(),
        f.contains(i),
        f.contains(i + 1),
    ensures
        exists|k: int| 0 <= k < f@.len() && #[trigger] f@[k].0 <= i && i + 1 < f@[k].1,
        forall|a: int, b: int|
            0 <= a < f@.len() && 0 <= b < f@.len() && #[trigger] f@[a].0 <= i < f@[a].1
                && #[trigger] f@[b].0 <= i + 1 < f@[b].1 ==> a == b,
{
    let s = f@;
    let a = choose|k: int| 0 <= k < s.len() && #[trigger] s[k].0 <= i < s[k].1;
    let b = choose|k: int| 0 <= k < s.len() && #[trigger] s[k].0 <= i + 1 < s[k].1;
    if a < b {
        assert(s[a].1 < s[b].0);
    } else if b < a {
        assert(s[b].1 < s[a].0);
    }
    assert(s[a].0 <= i && i + 1 < s[a].1);
    assert forall|x: int, y: int|
        0 <= x < s.len() && 0 <= y < s.len() && #[trigger] s[x].0 <= i < s[x].1
            && #[trigger] s[y].0 <= i + 1 < s[y].1 implies x == y by {
        if x < y {
            assert(s[x].1 < s[y].0);
        } else if y < x {
            assert(s[y].1 < s[x].0);
        }
    }
}

} // verus!
