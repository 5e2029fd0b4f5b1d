//! Reference counts as path counts: a node's count is the number of ways
//! to reach it from the root, so a node is live exactly while reachable.

use vstd::prelude::*;

use crate::isolation::{expected_cell, live_nodes_kept, path_live};
use crate::model::{cell_towards, is_pow2, lemma_level_multiple, lemma_quadrant_of_is_quadrant, level_qs, quadrant_of};
use crate::traversal::{chain_at, chain_points};
use crate::value::MAX_PAYLOAD;
use crate::node::{cell_of, OctreeNode};
use crate::pool::{pointers_below, NodePool};
use crate::geometry::UVec3;
use crate::value::OctreeValue;

verus! {

/// Paths from a cell holding `v`, whose target has quadrants of
/// half-extent `qs`, down to node `t`.
pub(crate) open spec fn ptr_paths(nodes: Seq<OctreeNode>, v: OctreeValue, qs: nat, t: int) -> nat
    decreases qs, 1nat,
{
    if !v.is_leaf_spec() && qs >= 1 {
        paths(nodes, v.payload() as int, qs, t)
    } else {
        0
    }
}

/// Number of ways to reach node `t` from node `idx`, whose quadrants have
/// half-extent `qs`, counting `idx` itself.
pub(crate) open spec fn paths(nodes: Seq<OctreeNode>, idx: int, qs: nat, t: int) -> nat
    decreases qs, 0nat,
{
    let here: nat = if idx == t { 1 } else { 0 };
    if qs > 1 && 0 <= idx < nodes.len() {
        let n = nodes[idx]@;
        let h = qs / 2;
        here + ptr_paths(nodes, n[0], h, t) + ptr_paths(nodes, n[1], h, t) + ptr_paths(nodes, n[2], h, t)
            + ptr_paths(nodes, n[3], h, t) + ptr_paths(nodes, n[4], h, t) + ptr_paths(nodes, n[5], h, t)
            + ptr_paths(nodes, n[6], h, t) + ptr_paths(nodes, n[7], h, t)
    } else {
        here
    }
}

/// Every node reachable from a cell holding `v` is live.
pub(crate) open spec fn ptr_all_live(pool: NodePool, v: OctreeValue, qs: nat) -> bool
    decreases qs, 1nat,
{
    !v.is_leaf_spec() && qs >= 1 ==> all_live(pool, v.payload() as int, qs)
}

/// Node `idx` and every node reachable from it are live.
pub(crate) open spec fn all_live(pool: NodePool, idx: int, qs: nat) -> bool
    decreases qs, 0nat,
{
    &&& pool.live(idx)
    &&& qs > 1 ==> {
        let n = pool.node(idx)@;
        let h = qs / 2;
        &&& ptr_all_live(pool, n[0], h)
        &&& ptr_all_live(pool, n[1], h)
        &&& ptr_all_live(pool, n[2], h)
        &&& ptr_all_live(pool, n[3], h)
        &&& ptr_all_live(pool, n[4], h)
        &&& ptr_all_live(pool, n[5], h)
        &&& ptr_all_live(pool, n[6], h)
        &&& ptr_all_live(pool, n[7], h)
    }
}

/// Each slot's count is its number of paths from the root.
pub(crate) open spec fn counts_are_paths(pool: NodePool, entry: int, root: nat) -> bool {
    forall|i: int| 0 <= i < pool.len() ==> #[trigger] pool.rc(i) == paths(pool.data@, entry, root, i)
}

pub(crate) proof fn lemma_all_live_path_live(pool: NodePool, idx: int, qs: nat, q: UVec3)
    requires
        all_live(pool, idx, qs),
        qs >= 1,
    ensures
        path_live(pool, idx, qs, q),
    decreases qs,
{
    let c = cell_of(quadrant_of(q, qs));
    assert(0 <= c < 8);
    let v = pool.node(idx)@[c];
    if qs > 1 && !v.is_leaf_spec() {
        assert(ptr_all_live(pool, v, qs / 2));
        lemma_all_live_path_live(pool, v.payload() as int, qs / 2, q);
    }
}

pub(crate) proof fn lemma_paths_kept(old: NodePool, nodes: Seq<OctreeNode>, idx: int, qs: nat, t: int)
    requires
        live_nodes_kept(old, nodes),
        all_live(old, idx, qs),
    ensures
        paths(nodes, idx, qs, t) == paths(old.data@, idx, qs, t),
    decreases qs,
{
    if qs > 1 {
        let n = old.node(idx)@;
        let h = qs / 2;
        assert(nodes[idx] == old.node(idx));
        assert forall|c: int| 0 <= c < 8 implies #[trigger] ptr_paths(nodes, n[c], h, t) == ptr_paths(old.data@, n[c], h, t) by {
            assert(ptr_all_live(old, n[c], h)) by {
                assert(c == 0 || c == 1 || c == 2 || c == 3 || c == 4 || c == 5 || c == 6 || c == 7);
            }
            if !n[c].is_leaf_spec() && h >= 1 {
                lemma_paths_kept(old, nodes, n[c].payload() as int, h, t);
            }
        }
        assert(ptr_paths(nodes, n[0], h, t) == ptr_paths(old.data@, n[0], h, t));
        assert(ptr_paths(nodes, n[1], h, t) == ptr_paths(old.data@, n[1], h, t));
        assert(ptr_paths(nodes, n[2], h, t) == ptr_paths(old.data@, n[2], h, t));
        assert(ptr_paths(nodes, n[3], h, t) == ptr_paths(old.data@, n[3], h, t));
        assert(ptr_paths(nodes, n[4], h, t) == ptr_paths(old.data@, n[4], h, t));
        assert(ptr_paths(nodes, n[5], h, t) == ptr_paths(old.data@, n[5], h, t));
        assert(ptr_paths(nodes, n[6], h, t) == ptr_paths(old.data@, n[6], h, t));
        assert(ptr_paths(nodes, n[7], h, t) == ptr_paths(old.data@, n[7], h, t));
    }
}

/// A node reached only through in-bounds pointers never reaches a slot
/// past the pool's end.
pub(crate) proof fn lemma_paths_beyond(pool: NodePool, idx: int, qs: nat, t: int)
    requires
        pool.wf(),
        0 <= idx < pool.len(),
        t >= pool.len(),
    ensures
        paths(pool.data@, idx, qs, t) == 0,
    decreases qs,
{
    if qs > 1 {
        let n = pool.node(idx)@;
        let h = qs / 2;
        assert(pointers_below(pool.node(idx), pool.len()));
        assert forall|c: int| 0 <= c < 8 implies #[trigger] ptr_paths(pool.data@, n[c], h, t) == 0 by {
            if !n[c].is_leaf_spec() && h >= 1 {
                lemma_paths_beyond(pool, n[c].payload() as int, h, t);
            }
        }
        assert(ptr_paths(pool.data@, n[0], h, t) == 0);
        assert(ptr_paths(pool.data@, n[1], h, t) == 0);
        assert(ptr_paths(pool.data@, n[2], h, t) == 0);
        assert(ptr_paths(pool.data@, n[3], h, t) == 0);
        assert(ptr_paths(pool.data@, n[4], h, t) == 0);
        assert(ptr_paths(pool.data@, n[5], h, t) == 0);
        assert(ptr_paths(pool.data@, n[6], h, t) == 0);
        assert(ptr_paths(pool.data@, n[7], h, t) == 0);
    }
}

/// A node whose paths to every slot are covered by the root's is, with
/// all it reaches, live when counts are path counts.
pub(crate) proof fn lemma_dominated_all_live(pool: NodePool, entry: int, root: nat, idx: int, qs: nat)
    requires
        pool.wf(),
        counts_are_paths(pool, entry, root),
        0 <= idx < pool.len(),
        forall|t: int| #[trigger] paths(pool.data@, entry, root, t) >= paths(pool.data@, idx, qs, t),
    ensures
        all_live(pool, idx, qs),
    decreases qs,
{
    assert(paths(pool.data@, idx, qs, idx) >= 1);
    assert(paths(pool.data@, entry, root, idx) >= 1);
    assert(pool.rc(idx) >= 1);
    if qs > 1 {
        let n = pool.node(idx)@;
        let h = qs / 2;
        assert(pointers_below(pool.node(idx), pool.len()));
        assert forall|c: int| 0 <= c < 8 implies #[trigger] ptr_all_live(pool, n[c], h) by {
            if !n[c].is_leaf_spec() && h >= 1 {
                let ch = n[c].payload() as int;
                assert forall|t: int| #[trigger] paths(pool.data@, entry, root, t) >= paths(pool.data@, ch, h, t) by {
                    assert(paths(pool.data@, idx, qs, t) >= ptr_paths(pool.data@, n[c], h, t)) by {
                        assert(c == 0 || c == 1 || c == 2 || c == 3 || c == 4 || c == 5 || c == 6 || c == 7);
                    }
                }
                lemma_dominated_all_live(pool, entry, root, ch, h);
            }
        }
        assert(ptr_all_live(pool, n[0], h));
        assert(ptr_all_live(pool, n[1], h));
        assert(ptr_all_live(pool, n[2], h));
        assert(ptr_all_live(pool, n[3], h));
        assert(ptr_all_live(pool, n[4], h));
        assert(ptr_all_live(pool, n[5], h));
        assert(ptr_all_live(pool, n[6], h));
        assert(ptr_all_live(pool, n[7], h));
    }
}

/// Occurrences of node `t` among the chain's levels `j` to `n`.
pub(crate) open spec fn chain_count(par: Seq<u32>, cur: u32, j: int, n: int, t: int) -> nat
    decreases n - j + 1,
{
    if j > n {
        0
    } else {
        (if chain_at(par, cur, j) == t { 1nat } else { 0nat }) + chain_count(par, cur, j + 1, n, t)
    }
}

pub(crate) open spec fn sum8(f: Seq<nat>) -> nat {
    f[0] + f[1] + f[2] + f[3] + f[4] + f[5] + f[6] + f[7]
}

pub(crate) proof fn lemma_sum8_except(a: Seq<nat>, b: Seq<nat>, k: int)
    requires
        a.len() == 8,
        b.len() == 8,
        0 <= k < 8,
        forall|c: int| 0 <= c < 8 && c != k ==> a[c] == b[c],
    ensures
        sum8(a) + b[k] == sum8(b) + a[k],
{
    assert(k == 0 || k == 1 || k == 2 || k == 3 || k == 4 || k == 5 || k == 6 || k == 7);
    assert(a[0] == b[0] || k == 0);
    assert(a[1] == b[1] || k == 1);
    assert(a[2] == b[2] || k == 2);
    assert(a[3] == b[3] || k == 3);
    assert(a[4] == b[4] || k == 4);
    assert(a[5] == b[5] || k == 5);
    assert(a[6] == b[6] || k == 6);
    assert(a[7] == b[7] || k == 7);
}

/// One level of a rewritten path that copies an old node but for the cell
/// towards the written voxel.
pub(crate) proof fn lemma_step_on_path(old: NodePool, nodes: Seq<OctreeNode>, here: int, dj: int, qs: nat, pc: int, next: int, t: int)
    requires
        live_nodes_kept(old, nodes),
        all_live(old, dj, qs),
        qs >= 2,
        0 <= here < nodes.len(),
        0 <= dj < old.len(),
        0 <= pc < 8,
        0 <= next <= MAX_PAYLOAD,
        nodes[here]@[pc] == OctreeValue::pointer(next as u32),
        forall|c: int| 0 <= c < 8 && c != pc ==> #[trigger] nodes[here]@[c] == old.node(dj)@[c],
    ensures
        paths(nodes, here, qs, t) + ptr_paths(old.data@, old.node(dj)@[pc], qs / 2, t) + (if dj == t { 1nat } else { 0nat })
            == paths(old.data@, dj, qs, t) + paths(nodes, next, qs / 2, t) + (if here == t { 1nat } else { 0nat }),
{
    let h = qs / 2;
    let nn = nodes[here]@;
    let on = old.node(dj)@;
    assert(nodes[dj] == old.node(dj));
    assert forall|c: int| 0 <= c < 8 && c != pc implies #[trigger] ptr_paths(nodes, nn[c], h, t) == ptr_paths(old.data@, on[c], h, t) by {
        assert(ptr_all_live(old, on[c], h)) by {
            assert(c == 0 || c == 1 || c == 2 || c == 3 || c == 4 || c == 5 || c == 6 || c == 7);
        }
        if !on[c].is_leaf_spec() && h >= 1 {
            lemma_paths_kept(old, nodes, on[c].payload() as int, h, t);
        }
    }
    let fa = Seq::new(8, |c: int| ptr_paths(nodes, nn[c], h, t));
    let fb = Seq::new(8, |c: int| ptr_paths(old.data@, on[c], h, t));
    lemma_sum8_except(fa, fb, pc);
    assert(paths(nodes, here, qs, t) == (if here == t { 1nat } else { 0nat }) + sum8(fa));
    assert(paths(old.data@, dj, qs, t) == (if dj == t { 1nat } else { 0nat }) + sum8(fb));
    assert(fa[pc] == paths(nodes, next, h, t));
}

/// One level of a rewritten path below the old leaf: all other cells are
/// leaves.
pub(crate) proof fn lemma_step_below(nodes: Seq<OctreeNode>, here: int, qs: nat, pc: int, next: int, t: int)
    requires
        qs >= 2,
        0 <= here < nodes.len(),
        0 <= pc < 8,
        0 <= next <= MAX_PAYLOAD,
        nodes[here]@[pc] == OctreeValue::pointer(next as u32),
        forall|c: int| 0 <= c < 8 && c != pc ==> (#[trigger] nodes[here]@[c]).is_leaf_spec(),
    ensures
        paths(nodes, here, qs, t) == (if here == t { 1nat } else { 0nat }) + paths(nodes, next, qs / 2, t),
{
    let h = qs / 2;
    let nn = nodes[here]@;
    let fa = Seq::new(8, |c: int| ptr_paths(nodes, nn[c], h, t));
    let fb = Seq::new(8, |c: int| 0nat);
    assert forall|c: int| 0 <= c < 8 && c != pc implies fa[c] == fb[c] by {
        assert(nn[c].is_leaf_spec());
    }
    lemma_sum8_except(fa, fb, pc);
    assert(paths(nodes, here, qs, t) == (if here == t { 1nat } else { 0nat }) + sum8(fa));
    assert(fa[pc] == paths(nodes, next, h, t));
}

/// Rewriting the path towards `p` moves each node's path count by its
/// occurrences on the new path minus those on the old one.
pub(crate) proof fn lemma_paths_delta(
    old: NodePool,
    nodes: Seq<OctreeNode>,
    par: Seq<u32>,
    cur: u32,
    d_par: Seq<u32>,
    d_cur: u32,
    v: OctreeValue,
    root: nat,
    p: UVec3,
    t: int,
    j: int,
)
    requires
        old.wf(),
        is_pow2(root),
        d_par.len() <= par.len(),
        level_qs(root, par.len()) == 1,
        nodes.len() <= MAX_PAYLOAD + 1,
        live_nodes_kept(old, nodes),
        forall|jj: int| 0 <= jj <= par.len() ==> #[trigger] chain_at(par, cur, jj) < nodes.len(),
        forall|jj: int, c: int|
            0 <= jj <= par.len() && 0 <= c < 8 && c != cell_towards(p, level_qs(root, jj as nat))
                ==> #[trigger] nodes[chain_at(par, cur, jj) as int]@[c] == expected_cell(old, d_par, d_cur, v, jj, c),
        forall|jj: int|
            0 <= jj < par.len() ==> nodes[chain_at(par, cur, jj) as int]@[cell_towards(p, level_qs(root, jj as nat))]
                == OctreeValue::pointer(#[trigger] chain_at(par, cur, jj + 1)),
        chain_points(old.data@, d_par, d_cur, root, p, d_par.len() as int),
        old.node(chain_at(d_par, d_cur, d_par.len() as int) as int)@[cell_towards(p, level_qs(root, d_par.len()))] == v,
        d_par.len() < par.len() ==> v.is_leaf_spec(),
        0 <= j <= par.len(),
        j <= d_par.len() ==> all_live(old, chain_at(d_par, d_cur, j) as int, level_qs(root, j as nat)),
    ensures
        j <= d_par.len() ==> paths(nodes, chain_at(par, cur, j) as int, level_qs(root, j as nat), t) + chain_count(
            d_par,
            d_cur,
            j,
            d_par.len() as int,
            t,
        ) == paths(old.data@, chain_at(d_par, d_cur, j) as int, level_qs(root, j as nat), t) + chain_count(
            par,
            cur,
            j,
            par.len() as int,
            t,
        ),
        j > d_par.len() ==> paths(nodes, chain_at(par, cur, j) as int, level_qs(root, j as nat), t) == chain_count(
            par,
            cur,
            j,
            par.len() as int,
            t,
        ),
    decreases par.len() - j,
{
    let n = par.len() as int;
    let m = d_par.len() as int;
    let qs = level_qs(root, j as nat);
    let here = chain_at(par, cur, j);
    let dj = chain_at(d_par, d_cur, j);
    assert(chain_count(par, cur, j + 1, n, t) + (if here == t { 1nat } else { 0nat }) == chain_count(par, cur, j, n, t));
    if j <= m {
        assert(chain_count(d_par, d_cur, j + 1, m, t) + (if dj == t { 1nat } else { 0nat }) == chain_count(d_par, d_cur, j, m, t));
        assert(dj < old.len());
    }
    if j == n {
        assert(qs == 1);
        assert(chain_count(par, cur, j + 1, n, t) == 0);
        if j <= m {
            assert(chain_count(d_par, d_cur, j + 1, m, t) == 0);
        }
    } else {
        let mm = lemma_level_multiple(root, j as nat, n as nat);
        assert(qs >= 2) by (nonlinear_arith)
            requires qs == 2 * level_qs(root, n as nat) * mm, mm >= 1, level_qs(root, n as nat) == 1;
        let h = qs / 2;
        assert(level_qs(root, (j + 1) as nat) == h);
        lemma_quadrant_of_is_quadrant(p, qs);
        let pc = cell_towards(p, qs);
        let next = chain_at(par, cur, j + 1);
        let nn = nodes[here as int]@;
        assert(nn[pc] == OctreeValue::pointer(next));
        assert(next < nodes.len());
        if j < m {
            let dn = chain_at(d_par, d_cur, j + 1);
            let on = old.node(dj as int)@;
            assert(on[pc] == OctreeValue::pointer(dn));
            assert(dn < old.len());
            assert(ptr_all_live(old, on[pc], h)) by {
                assert(pc == 0 || pc == 1 || pc == 2 || pc == 3 || pc == 4 || pc == 5 || pc == 6 || pc == 7);
            }
        }
        lemma_paths_delta(old, nodes, par, cur, d_par, d_cur, v, root, p, t, j + 1);
        if j <= m {
            let on = old.node(dj as int)@;
            assert forall|c: int| 0 <= c < 8 && c != pc implies #[trigger] nn[c] == on[c] by {}
            lemma_step_on_path(old, nodes, here as int, dj as int, qs, pc, next as int, t);
            if j == m {
                assert(on[pc] == v);
                assert(ptr_paths(old.data@, on[pc], h, t) == 0);
            } else {
                assert(ptr_paths(old.data@, on[pc], h, t) == paths(old.data@, chain_at(d_par, d_cur, j + 1) as int, h, t));
            }
        } else {
            assert forall|c: int| 0 <= c < 8 && c != pc implies #[trigger] nn[c] == v by {}
            lemma_step_below(nodes, here as int, qs, pc, next as int, t);
        }
    }
}

/// Occurrences of `t` in `s`.
pub(crate) open spec fn cnt(s: Seq<u32>, t: int) -> nat
    decreases s.len(),
{
    if s.len() == 0 {
        0
    } else {
        (if s[0] == t { 1nat } else { 0nat }) + cnt(s.subrange(1, s.len() as int), t)
    }
}

pub(crate) proof fn lemma_cnt_push(s: Seq<u32>, x: u32, t: int)
    ensures
        cnt(s.push(x), t) == cnt(s, t) + (if x == t { 1nat } else { 0nat }),
    decreases s.len(),
{
    let sp = s.push(x);
    if s.len() > 0 {
        assert(sp[0] == s[0]);
        assert(sp.subrange(1, sp.len() as int) =~= s.subrange(1, s.len() as int).push(x));
        lemma_cnt_push(s.subrange(1, s.len() as int), x, t);
    } else {
        assert(sp[0] == x);
        assert(sp.subrange(1, sp.len() as int) =~= Seq::<u32>::empty());
        assert(cnt(Seq::<u32>::empty(), t) == 0);
        assert(s =~= Seq::<u32>::empty());
    }
}

pub(crate) proof fn lemma_cnt_update(s: Seq<u32>, k: int, y: u32, t: int)
    requires
        0 <= k < s.len(),
    ensures
        cnt(s.update(k, y), t) + (if s[k] == t { 1nat } else { 0nat }) == cnt(s, t) + (if y == t { 1nat } else { 0nat }),
    decreases s.len(),
{
    let su = s.update(k, y);
    if k == 0 {
        assert(su.subrange(1, su.len() as int) =~= s.subrange(1, s.len() as int));
    } else {
        assert(su.subrange(1, su.len() as int) =~= s.subrange(1, s.len() as int).update(k - 1, y));
        lemma_cnt_update(s.subrange(1, s.len() as int), k - 1, y, t);
    }
}

/// Dropping the first `i` entries of a suffix drops exactly its first entry's
/// occurrence.
pub(crate) proof fn lemma_cnt_suffix(s: Seq<u32>, i: int, t: int)
    requires
        0 <= i < s.len(),
    ensures
        cnt(s.subrange(i, s.len() as int), t) == (if s[i] == t { 1nat } else { 0nat }) + cnt(
            s.subrange(i + 1, s.len() as int),
            t,
        ),
{
    let a = s.subrange(i, s.len() as int);
    assert(a.subrange(1, a.len() as int) =~= s.subrange(i + 1, s.len() as int));
}

pub(crate) proof fn lemma_chain_count_cnt(par: Seq<u32>, cur: u32, j: int, t: int)
    requires
        0 <= j <= par.len(),
    ensures
        chain_count(par, cur, j, par.len() as int, t) == cnt(par.subrange(j, par.len() as int), t) + (if cur == t {
            1nat
        } else {
            0nat
        }),
    decreases par.len() - j,
{
    if j < par.len() {
        lemma_cnt_suffix(par, j, t);
        lemma_chain_count_cnt(par, cur, j + 1, t);
    } else {
        assert(par.subrange(j, par.len() as int) =~= Seq::<u32>::empty());
        assert(chain_count(par, cur, j + 1, par.len() as int, t) == 0);
    }
}

/// After a write, each slot's count is its new path count plus the times
/// it still waits to be released.
pub(crate) proof fn lemma_counts_after_write(
    old: NodePool,
    pool: NodePool,
    par: Seq<u32>,
    cur: u32,
    d_par: Seq<u32>,
    d_cur: u32,
    v: OctreeValue,
    root: nat,
    p: UVec3,
    rep: Seq<u32>,
    ins: Seq<u32>,
)
    requires
        old.wf(),
        pool.wf(),
        is_pow2(root),
        d_par.len() <= par.len(),
        level_qs(root, par.len()) == 1,
        live_nodes_kept(old, pool.data@),
        forall|jj: int| 0 <= jj <= par.len() ==> #[trigger] chain_at(par, cur, jj) < pool.data@.len(),
        forall|jj: int, c: int|
            0 <= jj <= par.len() && 0 <= c < 8 && c != cell_towards(p, level_qs(root, jj as nat))
                ==> #[trigger] pool.data@[chain_at(par, cur, jj) as int]@[c] == expected_cell(old, d_par, d_cur, v, jj, c),
        forall|jj: int|
            0 <= jj < par.len() ==> pool.data@[chain_at(par, cur, jj) as int]@[cell_towards(p, level_qs(root, jj as nat))]
                == OctreeValue::pointer(#[trigger] chain_at(par, cur, jj + 1)),
        chain_points(old.data@, d_par, d_cur, root, p, d_par.len() as int),
        old.node(chain_at(d_par, d_cur, d_par.len() as int) as int)@[cell_towards(p, level_qs(root, d_par.len()))] == v,
        d_par.len() < par.len() ==> v.is_leaf_spec(),
        0 <= chain_at(d_par, d_cur, 0) < old.len(),
        counts_are_paths(old, chain_at(d_par, d_cur, 0) as int, root),
        forall|t: int| #[trigger] pool.rc_or0(t) == old.rc_or0(t) + cnt(ins, t),
        forall|t: int| #[trigger] cnt(ins, t) + cnt(d_par, t) + (if d_cur == t { 1nat } else { 0nat }) == cnt(rep, t)
            + cnt(par, t) + (if cur == t { 1nat } else { 0nat }),
    ensures
        forall|t: int| 0 <= t ==> #[trigger] pool.rc_or0(t) == paths(pool.data@, chain_at(par, cur, 0) as int, root, t) + cnt(rep, t),
{
    let oe = chain_at(d_par, d_cur, 0) as int;
    assert forall|t: int| #[trigger] paths(old.data@, oe, root, t) >= paths(old.data@, oe, root, t) by {}
    lemma_dominated_all_live(old, oe, root, oe, root);
    assert(par.subrange(0, par.len() as int) =~= par);
    assert(d_par.subrange(0, d_par.len() as int) =~= d_par);
    assert(level_qs(root, 0) == root);
    assert forall|t: int| 0 <= t implies #[trigger] pool.rc_or0(t) == paths(pool.data@, chain_at(par, cur, 0) as int, root, t) + cnt(rep, t) by {
        lemma_paths_delta(old, pool.data@, par, cur, d_par, d_cur, v, root, p, t, 0);
        lemma_chain_count_cnt(par, cur, 0, t);
        lemma_chain_count_cnt(d_par, d_cur, 0, t);
        if t >= old.len() {
            lemma_paths_beyond(old, oe, root, t);
        }
    }
}

} // verus!
