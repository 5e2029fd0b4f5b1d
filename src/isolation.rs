//! Why a write leaves the other voxels alone: while every reachable node
//! is live, a rewritten path reads like the old tree off its own direction.

use vstd::prelude::*;

use crate::geometry::UVec3;
use crate::model::{
    cell_towards, is_pow2, lemma_level_multiple, lemma_quadrant_of_is_quadrant, level_qs, lookup,
    quadrant_of,
};
use crate::node::{cell_of, OctreeNode};
use crate::pool::NodePool;
use crate::traversal::{chain_at, chain_points};
use crate::value::{OctreeValue, MAX_PAYLOAD};

verus! {

/// Every node met when descending from `idx` towards `p` is live.
pub(crate) open spec fn path_live(pool: NodePool, idx: int, qs: nat, p: UVec3) -> bool
    decreases qs,
{
    &&& pool.live(idx)
    &&& {
        let v = pool.node(idx)@[cell_of(quadrant_of(p, qs))];
        qs > 1 && !v.is_leaf_spec() ==> path_live(pool, v.payload() as int, qs / 2, p)
    }
}

/// Nodes that were live in `old` hold the same content in `nodes`.
pub(crate) open spec fn live_nodes_kept(old: NodePool, nodes: Seq<OctreeNode>) -> bool {
    &&& nodes.len() >= old.len()
    &&& forall|i: int| #[trigger] old.live(i) ==> nodes[i] == old.node(i)
}

/// A descent through live nodes reads the same wherever live nodes kept
/// their content.
pub(crate) proof fn lemma_lookup_kept(old: NodePool, nodes: Seq<OctreeNode>, idx: int, qs: nat, p: UVec3)
    requires
        live_nodes_kept(old, nodes),
        path_live(old, idx, qs, p),
    ensures
        lookup(nodes, idx, qs, p) == lookup(old.data@, idx, qs, p),
    decreases qs,
{
    let v = old.node(idx)@[cell_of(quadrant_of(p, qs))];
    if qs > 1 && !v.is_leaf_spec() {
        lemma_lookup_kept(old, nodes, v.payload() as int, qs / 2, p);
    }
}

/// Along a chain towards `p`, a descent towards `t` (which takes the same
/// quadrants as `p` above level `kk`) meets only live nodes down to `kk`.
pub(crate) proof fn lemma_chain_path_live(pool: NodePool, par: Seq<u32>, cur: u32, root: nat, p: UVec3, t: UVec3, n: int, kk: int, k: int)
    requires
        pool.wf(),
        is_pow2(root),
        0 <= k <= kk <= n,
        level_qs(root, n as nat) >= 1,
        chain_points(pool.data@, par, cur, root, p, n),
        forall|j: int| 0 <= j < kk ==> #[trigger] quadrant_of(t, level_qs(root, j as nat)) == quadrant_of(p, level_qs(root, j as nat)),
        path_live(pool, chain_at(par, cur, k) as int, level_qs(root, k as nat), t),
    ensures
        path_live(pool, chain_at(par, cur, kk) as int, level_qs(root, kk as nat), t),
    decreases kk - k,
{
    if k < kk {
        let m = lemma_level_multiple(root, k as nat, n as nat);
        assert(level_qs(root, k as nat) >= 2) by (nonlinear_arith)
            requires level_qs(root, k as nat) == 2 * level_qs(root, n as nat) * m, m >= 1, level_qs(root, n as nat) >= 1;
        assert(level_qs(root, (k + 1) as nat) == level_qs(root, k as nat) / 2);
        assert(quadrant_of(t, level_qs(root, k as nat)) == quadrant_of(p, level_qs(root, k as nat)));
        let next = chain_at(par, cur, k + 1);
        assert(pool.node(chain_at(par, cur, k) as int)@[cell_towards(p, level_qs(root, k as nat))] == OctreeValue::pointer(next));
        assert(next < pool.len());
        lemma_chain_path_live(pool, par, cur, root, p, t, n, kk, k + 1);
    }
}

/// What a rewritten path holds off the written voxel's direction: the old
/// path's cells down to level `m`, and the old leaf `v` below it.
pub(crate) open spec fn expected_cell(old: NodePool, d_par: Seq<u32>, d_cur: u32, v: OctreeValue, j: int, c: int) -> OctreeValue {
    if j <= d_par.len() {
        old.node(chain_at(d_par, d_cur, j) as int)@[c]
    } else {
        v
    }
}

/// The rewritten path agrees with the old tree at every coordinate but the
/// written one.
pub(crate) proof fn lemma_isolation(
    old: NodePool,
    nodes: Seq<OctreeNode>,
    par: Seq<u32>,
    cur: u32,
    d_par: Seq<u32>,
    d_cur: u32,
    v: OctreeValue,
    root: nat,
    p: UVec3,
    q: UVec3,
    kd: int,
    j: int,
)
    requires
        old.wf(),
        is_pow2(root),
        d_par.len() <= par.len(),
        level_qs(root, par.len()) == 1,
        nodes.len() <= MAX_PAYLOAD + 1,
        live_nodes_kept(old, nodes),
        forall|jj: int| 0 <= jj <= par.len() ==> #[trigger] chain_at(par, cur, jj) < nodes.len(),
        forall|jj: int, c: int|
            0 <= jj <= par.len() && 0 <= c < 8 && c != cell_towards(p, level_qs(root, jj as nat))
                ==> #[trigger] nodes[chain_at(par, cur, jj) as int]@[c] == expected_cell(old, d_par, d_cur, v, jj, c),
        forall|jj: int|
            0 <= jj < par.len() ==> nodes[chain_at(par, cur, jj) as int]@[cell_towards(p, level_qs(root, jj as nat))]
                == OctreeValue::pointer(#[trigger] chain_at(par, cur, jj + 1)),
        chain_points(old.data@, d_par, d_cur, root, p, d_par.len() as int),
        old.node(chain_at(d_par, d_cur, d_par.len() as int) as int)@[cell_towards(p, level_qs(root, d_par.len()))] == v,
        d_par.len() < par.len() ==> v.is_leaf_spec(),
        0 <= j <= kd <= par.len(),
        forall|jj: int| 0 <= jj < j ==> #[trigger] quadrant_of(q, level_qs(root, jj as nat)) == quadrant_of(p, level_qs(root, jj as nat)),
        quadrant_of(q, level_qs(root, kd as nat)) != quadrant_of(p, level_qs(root, kd as nat)),
        j <= d_par.len() ==> path_live(old, chain_at(d_par, d_cur, j) as int, level_qs(root, j as nat), q),
    ensures
        lookup(nodes, chain_at(par, cur, j) as int, level_qs(root, j as nat), q) == if j <= d_par.len() {
            lookup(old.data@, chain_at(d_par, d_cur, j) as int, level_qs(root, j as nat), q)
        } else {
            v
        },
    decreases par.len() - j,
{
    let n = par.len() as int;
    let m = d_par.len() as int;
    let qs = level_qs(root, j as nat);
    if j < n {
        let mm = lemma_level_multiple(root, j as nat, n as nat);
        assert(qs >= 2) by (nonlinear_arith)
            requires qs == 2 * level_qs(root, n as nat) * mm, mm >= 1, level_qs(root, n as nat) == 1;
        assert(level_qs(root, (j + 1) as nat) == qs / 2);
    } else {
        assert(qs == 1);
    }
    lemma_quadrant_of_is_quadrant(q, qs);
    lemma_quadrant_of_is_quadrant(p, qs);
    let cq = cell_towards(q, qs);
    let cp = cell_towards(p, qs);
    let here = chain_at(par, cur, j);
    if quadrant_of(q, qs) != quadrant_of(p, qs) {
        assert(cq != cp);
        let w = nodes[here as int]@[cq];
        assert(w == expected_cell(old, d_par, d_cur, v, j, cq));
        if j <= m {
            let dj = chain_at(d_par, d_cur, j);
            assert(old.live(dj as int));
            if qs > 1 && !w.is_leaf_spec() {
                lemma_lookup_kept(old, nodes, w.payload() as int, qs / 2, q);
            }
        }
    } else {
        assert(j < kd);
        let next = chain_at(par, cur, j + 1);
        assert(nodes[here as int]@[cp] == OctreeValue::pointer(next));
        assert(forall|jj: int| 0 <= jj < j + 1 ==> #[trigger] quadrant_of(q, level_qs(root, jj as nat)) == quadrant_of(p, level_qs(root, jj as nat)));
        if j < m {
            let dj = chain_at(d_par, d_cur, j);
            let dn = chain_at(d_par, d_cur, j + 1);
            assert(old.node(dj as int)@[cp] == OctreeValue::pointer(dn));
            assert(dn < old.len());
        }
        lemma_isolation(old, nodes, par, cur, d_par, d_cur, v, root, p, q, kd, j + 1);
    }
}

} // verus!
