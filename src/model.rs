//! The arithmetic model of the tree: powers of two, quadrants, levels, and
//! what a descent from a node reads.

use vstd::prelude::*;
use vstd::arithmetic::power2::{lemma2_to64, lemma_pow2_strictly_increases, lemma_pow2_unfold, pow2};

use crate::geometry::UVec3;
use crate::node::{cell_of, is_quadrant, OctreeNode};
use crate::value::OctreeValue;

verus! {

/// Largest half-extent a tree can have (its edge then is 2^31).
pub const MAX_QUADRANT_SIZE: u32 = 0x4000_0000;

pub open spec fn is_pow2(n: nat) -> bool
    decreases n,
{
    if n <= 1 {
        n == 1
    } else {
        n % 2 == 0 && is_pow2(n / 2)
    }
}

/// The quadrant (0 or 1 per axis) holding `p` inside a node whose
/// subtrees have half-extent `qs`.
pub open spec fn quadrant_of(p: UVec3, qs: nat) -> UVec3 {
    UVec3 {
        x: ((p.x as nat / qs) % 2) as u32,
        y: ((p.y as nat / qs) % 2) as u32,
        z: ((p.z as nat / qs) % 2) as u32,
    }
}

/// The value reached from node `idx`, whose quadrants have half-extent
/// `qs`, by following pointers towards `p` down to a leaf or to unit size.
pub open spec fn lookup(nodes: Seq<OctreeNode>, idx: int, qs: nat, p: UVec3) -> OctreeValue
    decreases qs,
{
    let v = nodes[idx]@[cell_of(quadrant_of(p, qs))];
    if qs > 1 && !v.is_leaf_spec() {
        lookup(nodes, v.payload() as int, qs / 2, p)
    } else {
        v
    }
}

/// Half-extent of the quadrants of the node `k` levels below the root.
pub open spec fn level_qs(root: nat, k: nat) -> nat
    decreases k,
{
    if k == 0 {
        root
    } else {
        level_qs(root, (k - 1) as nat) / 2
    }
}

pub(crate) proof fn lemma_pow2_bound(n: nat, c: nat)
    requires
        is_pow2(n),
        is_pow2(c),
        n < 2 * c,
    ensures
        n <= c,
    decreases n,
{
    if n >= 2 && c >= 2 {
        lemma_pow2_bound(n / 2, c / 2);
    }
}

pub(crate) proof fn lemma_quadrant_of_is_quadrant(p: UVec3, qs: nat)
    requires
        qs > 0,
    ensures
        is_quadrant(quadrant_of(p, qs)),
        0 <= cell_of(quadrant_of(p, qs)) < 8,
{
}

pub(crate) proof fn lemma_level(root: nat, k: nat)
    requires
        is_pow2(root),
        level_qs(root, k) >= 1,
    ensures
        is_pow2(level_qs(root, k)),
        k > 0 ==> level_qs(root, (k - 1) as nat) == 2 * level_qs(root, k),
    decreases k,
{
    if k > 0 {
        let prev = level_qs(root, (k - 1) as nat);
        assert(prev >= 2);
        lemma_level(root, (k - 1) as nat);
    }
}

/// A node `k` levels up has a half-extent that is a multiple of twice the
/// half-extent at level `j`.
pub(crate) proof fn lemma_level_multiple(root: nat, k: nat, j: nat) -> (m: nat)
    requires
        is_pow2(root),
        k < j,
        level_qs(root, j) >= 1,
    ensures
        m >= 1,
        level_qs(root, k) == 2 * level_qs(root, j) * m,
    decreases j - k,
{
    lemma_level(root, j);
    if j == k + 1 {
        1
    } else {
        lemma_level(root, (j - 1) as nat);
        let m0 = lemma_level_multiple(root, k, (j - 1) as nat);
        let a = level_qs(root, j);
        assert(level_qs(root, k) == 2 * (2 * a) * m0);
        assert(2 * (2 * a) * m0 == 2 * a * (2 * m0)) by (nonlinear_arith);
        2 * m0
    }
}

/// Coordinates in the same block of edge `2 * qs` lie in the same quadrant
/// of every node above that block.
pub(crate) proof fn lemma_same_block_same_quadrant(a: nat, b: nat, block: nat, m: nat)
    requires
        block > 0,
        m >= 1,
        a / block == b / block,
    ensures
        (a / (block * m)) % 2 == (b / (block * m)) % 2,
{
    vstd::arithmetic::div_mod::lemma_div_denominator(a as int, block as int, m as int);
    vstd::arithmetic::div_mod::lemma_div_denominator(b as int, block as int, m as int);
}

/// Coordinates below `2 * level_qs(root, k)` that share their quadrants at
/// every level from `k` down to unit size are equal.
pub(crate) proof fn lemma_quadrants_determine(a: nat, b: nat, root: nat, k: nat, n: nat)
    requires
        is_pow2(root),
        k <= n,
        level_qs(root, n) == 1,
        a / level_qs(root, k) == b / level_qs(root, k),
        forall|j: nat| k <= j <= n ==> (#[trigger] (a / level_qs(root, j))) % 2 == (b / level_qs(root, j)) % 2,
    ensures
        a == b,
    decreases n - k,
{
    if k == n {
        assert(a / 1 == a && b / 1 == b);
    } else {
        if k + 1 < n {
            let m = lemma_level_multiple(root, (k + 1) as nat, n);
            assert(level_qs(root, (k + 1) as nat) >= 1) by (nonlinear_arith)
                requires level_qs(root, (k + 1) as nat) == 2 * level_qs(root, n) * m, m >= 1, level_qs(root, n) == 1;
        }
        lemma_level(root, (k + 1) as nat);
        let lo = level_qs(root, (k + 1) as nat);
        vstd::arithmetic::div_mod::lemma_div_denominator(a as int, lo as int, 2);
        vstd::arithmetic::div_mod::lemma_div_denominator(b as int, lo as int, 2);
        vstd::arithmetic::div_mod::lemma_fundamental_div_mod((a / lo) as int, 2);
        vstd::arithmetic::div_mod::lemma_fundamental_div_mod((b / lo) as int, 2);
        assert(lo * 2 == level_qs(root, k));
        assert((a / lo) % 2 == (b / lo) % 2);
        lemma_quadrants_determine(a, b, root, (k + 1) as nat, n);
    }
}

pub(crate) proof fn lemma_below_twice(a: nat, r: nat)
    requires
        r >= 1,
        a < 2 * r,
    ensures
        a / r < 2,
        a / r == (a / r) % 2,
{
    vstd::arithmetic::div_mod::lemma_fundamental_div_mod(a as int, r as int);
    let t = a / r;
    assert(t < 2) by (nonlinear_arith)
        requires r * t <= a, a < 2 * r, r >= 1;
}

/// Two distinct coordinates of the volume differ in quadrant at some level.
pub(crate) proof fn lemma_distinct_differ(p: UVec3, q: UVec3, root: nat, n: nat) -> (k: nat)
    requires
        is_pow2(root),
        level_qs(root, n) == 1,
        p != q,
        p.x < 2 * root && p.y < 2 * root && p.z < 2 * root,
        q.x < 2 * root && q.y < 2 * root && q.z < 2 * root,
    ensures
        k <= n,
        quadrant_of(p, level_qs(root, k)) != quadrant_of(q, level_qs(root, k)),
{
    if forall|j: nat| j <= n ==> #[trigger] quadrant_of(p, level_qs(root, j)) == quadrant_of(q, level_qs(root, j)) {
        assert(level_qs(root, 0) == root);
        assert(root >= 1);
        assert forall|j: nat| 0 <= j <= n implies (#[trigger] (p.x as nat / level_qs(root, j))) % 2 == (q.x as nat / level_qs(root, j)) % 2
            && (p.y as nat / level_qs(root, j)) % 2 == (q.y as nat / level_qs(root, j)) % 2
            && (p.z as nat / level_qs(root, j)) % 2 == (q.z as nat / level_qs(root, j)) % 2 by {
            assert(quadrant_of(p, level_qs(root, j)) == quadrant_of(q, level_qs(root, j)));
        }
        assert forall|j: nat| 0 <= j <= n implies (#[trigger] (p.y as nat / level_qs(root, j))) % 2 == (q.y as nat / level_qs(root, j)) % 2 by {
            assert(quadrant_of(p, level_qs(root, j)) == quadrant_of(q, level_qs(root, j)));
        }
        assert forall|j: nat| 0 <= j <= n implies (#[trigger] (p.z as nat / level_qs(root, j))) % 2 == (q.z as nat / level_qs(root, j)) % 2 by {
            assert(quadrant_of(p, level_qs(root, j)) == quadrant_of(q, level_qs(root, j)));
        }
        lemma_below_twice(p.x as nat, root);
        lemma_below_twice(q.x as nat, root);
        lemma_below_twice(p.y as nat, root);
        lemma_below_twice(q.y as nat, root);
        lemma_below_twice(p.z as nat, root);
        lemma_below_twice(q.z as nat, root);
        assert(quadrant_of(p, level_qs(root, 0)) == quadrant_of(q, level_qs(root, 0)));
        lemma_quadrants_determine(p.x as nat, q.x as nat, root, 0, n);
        lemma_quadrants_determine(p.y as nat, q.y as nat, root, 0, n);
        lemma_quadrants_determine(p.z as nat, q.z as nat, root, 0, n);
        assert(false);
        0
    } else {
        choose|j: nat| j <= n && quadrant_of(p, level_qs(root, j)) != quadrant_of(q, level_qs(root, j))
    }
}

/// Cell of the quadrant towards `p` in a node whose quadrants have
/// half-extent `qs`.
pub open spec fn cell_towards(p: UVec3, qs: nat) -> int {
    cell_of(quadrant_of(p, qs))
}

pub(crate) proof fn lemma_level_times_pow2(root: nat, k: nat)
    requires
        is_pow2(root),
        level_qs(root, k) >= 1,
    ensures
        root == level_qs(root, k) * pow2(k),
    decreases k,
{
    lemma2_to64();
    if k > 0 {
        lemma_level(root, k);
        lemma_level_times_pow2(root, (k - 1) as nat);
        lemma_pow2_unfold(k);
        let a = level_qs(root, k);
        let b = pow2((k - 1) as nat);
        assert(level_qs(root, (k - 1) as nat) == 2 * a);
        assert(root == (2 * a) * b);
        assert((2 * a) * b == a * (2 * b)) by (nonlinear_arith);
        assert(pow2(k) == 2 * b);
    } else {
        assert(level_qs(root, 0) == root);
        assert(root * 1 == root);
    }
}

/// A tree of half-extent at most `MAX_QUADRANT_SIZE` has at most 30 levels
/// below its root.
pub(crate) proof fn lemma_depth_bound(root: nat, k: nat)
    requires
        is_pow2(root),
        root <= MAX_QUADRANT_SIZE,
        level_qs(root, k) >= 1,
    ensures
        k <= 30,
{
    lemma_level_times_pow2(root, k);
    if k > 30 {
        lemma_pow2_strictly_increases(30, k);
        lemma2_to64();
        let a = level_qs(root, k);
        assert(root >= pow2(k)) by (nonlinear_arith)
            requires root == a * pow2(k), a >= 1;
    }
}

} // verus!
