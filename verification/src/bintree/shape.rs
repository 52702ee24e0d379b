//! The arithmetic of a complete binary tree laid out in an array.
//!
//! The nodes are numbered breadth-first from 0, the root. Level `l`, counted
//! from 1 at the root, holds the `2^(l-1)` nodes from `2^(l-1) - 1` on.
//! The children of node `i` are `2i + 1` and `2i + 2`.
use vstd::prelude::*;
use vstd::arithmetic::power2::{
    pow2,
    lemma_pow2_pos,
    lemma_pow2_unfold,
    lemma_pow2_adds,
    lemma_pow2_strictly_increases,
    lemma2_to64,
};

verus! {

/// The index of the first node of level `l`, for `l >= 1`.
pub open spec fn level_first(l: int) -> int {
    pow2((l - 1) as nat) - 1
}

/// The number of nodes of a tree with `levels` levels.
pub open spec fn node_count(levels: int) -> int {
    pow2(levels as nat) - 1
}

/// The least `k` with `pages <= 2^k`: how often a block of `2^k` pages must
/// be halved to reach a single page, for the smallest such block that holds
/// `pages` pages.
pub open spec fn order(pages: nat) -> nat
    decreases pages,
{
    if pages <= 1 {
        0
    } else {
        1 + order((pages + 1) / 2)
    }
}

/// The parent of node `i`, for `i >= 1`.
pub open spec fn parent(i: int) -> int {
    (i + 1) / 2 - 1
}

/// Whether node `i` is `root` or lies below it.
pub open spec fn in_subtree(i: int, root: int) -> bool
    decreases i,
{
    root >= 0 && (i == root || (i > root && in_subtree(parent(i), root)))
}

/// The first of the `2^d` nodes that lie `d` levels below `root`.
pub open spec fn row_first(root: int, d: nat) -> int {
    (root + 1) * pow2(d) - 1
}

/// Whether node `i` lies `d` levels below `root`.
pub open spec fn in_row(i: int, root: int, d: nat) -> bool {
    row_first(root, d) <= i < row_first(root, d) + pow2(d)
}

/// Whether node `i` lies less than `d` levels below `root`.
pub open spec fn in_rows(i: int, root: int, d: nat) -> bool
    decreases d,
{
    d > 0 && (in_row(i, root, (d - 1) as nat) || in_rows(i, root, (d - 1) as nat))
}

/// `2^(e+1)` is twice `2^e`, and `2^e` is positive.
pub proof fn lemma_pow2_step(e: nat)
    ensures
        pow2(e + 1) == 2 * pow2(e),
        pow2(e) >= 1,
{
    lemma_pow2_unfold(e + 1);
    lemma_pow2_pos(e);
}

/// `2^a <= 2^b` for `a <= b`.
pub proof fn lemma_pow2_mono(a: nat, b: nat)
    requires
        a <= b,
    ensures
        pow2(a) <= pow2(b),
{
    if a < b {
        lemma_pow2_strictly_increases(a, b);
    }
}

/// `order(pages)` is the least `k` with `pages <= 2^k`.
pub proof fn lemma_order(pages: nat)
    ensures
        pages <= pow2(order(pages)),
        order(pages) > 0 ==> pow2((order(pages) - 1) as nat) < pages,
    decreases pages,
{
    lemma2_to64();
    if pages > 1 {
        let half = (pages + 1) / 2;
        lemma_order(half);
        lemma_pow2_step(order(half));
        if order(half) > 0 {
            lemma_pow2_step((order(half) - 1) as nat);
        }
    }
}

/// Only `order(pages)` is the least `k` with `pages <= 2^k`.
pub proof fn lemma_order_unique(pages: nat, k: nat)
    requires
        pages <= pow2(k),
        k > 0 ==> pow2((k - 1) as nat) < pages,
    ensures
        k == order(pages),
{
    lemma_order(pages);
    let o = order(pages);
    if k < o {
        lemma_pow2_mono(k, (o - 1) as nat);
    }
    if o < k {
        lemma_pow2_mono(o, (k - 1) as nat);
    }
}

/// A block of more pages has no smaller order.
pub proof fn lemma_order_mono(a: nat, b: nat)
    requires
        a <= b,
    ensures
        order(a) <= order(b),
{
    lemma_order(a);
    lemma_order(b);
    if order(b) < order(a) {
        lemma_pow2_mono(order(b), (order(a) - 1) as nat);
    }
}

/// `order(2^k)` is `k`.
pub proof fn lemma_order_pow2(k: nat)
    ensures
        order(pow2(k)) == k,
{
    if k > 0 {
        lemma_pow2_strictly_increases((k - 1) as nat, k);
    }
    lemma_order_unique(pow2(k), k);
}

/// The rows below a node follow one another: row `d + 1` begins where
/// the children of row `d` begin, and not before row `d` ends.
pub proof fn lemma_row_step(root: int, d: nat)
    requires
        root >= 0,
    ensures
        row_first(root, d + 1) == 2 * row_first(root, d) + 1,
        row_first(root, d) + pow2(d) <= row_first(root, d + 1),
        row_first(root, d) >= root,
{
    lemma_pow2_step(d);
    let p = pow2(d) as int;
    assert((root + 1) * (2 * p) == 2 * ((root + 1) * p)) by (nonlinear_arith);
    assert((root + 1) * p >= root + 1) by (nonlinear_arith)
        requires
            p >= 1,
            root >= 0,
    ;
    assert((root + 1) * p >= p) by (nonlinear_arith)
        requires
            p >= 1,
            root >= 0,
    ;
}

/// Row `0` below a node is the node itself.
pub proof fn lemma_row_zero(root: int)
    ensures
        row_first(root, 0) == root,
        pow2(0) == 1,
{
    lemma2_to64();
}

/// Later rows begin at higher indices.
pub proof fn lemma_row_mono(root: int, a: nat, b: nat)
    requires
        root >= 0,
        a <= b,
    ensures
        row_first(root, a) <= row_first(root, b),
        a < b ==> row_first(root, a) + pow2(a) <= row_first(root, b),
    decreases b - a,
{
    if a < b {
        lemma_row_step(root, a);
        lemma_row_mono(root, a + 1, b);
    }
}

/// A node of a row below `root` lies in the subtree of `root`.
pub proof fn lemma_row_in_subtree(i: int, root: int, d: nat)
    requires
        root >= 0,
        in_row(i, root, d),
    ensures
        in_subtree(i, root),
    decreases d,
{
    if d == 0 {
        lemma_row_zero(root);
    } else {
        let e = (d - 1) as nat;
        lemma_row_step(root, e);
        lemma_pow2_step(e);
        assert(in_row(parent(i), root, e));
        lemma_row_in_subtree(parent(i), root, e);
    }
}

/// A node of the subtree of `root` lies in one of the rows below `root`.
pub proof fn lemma_subtree_in_row(i: int, root: int) -> (d: nat)
    requires
        in_subtree(i, root),
    ensures
        in_row(i, root, d),
    decreases i,
{
    if i == root {
        lemma_row_zero(root);
        0
    } else {
        let e = lemma_subtree_in_row(parent(i), root);
        lemma_row_step(root, e);
        lemma_pow2_step(e);
        e + 1
    }
}

/// The rows before row `d` are the part of the subtree before that row.
pub proof fn lemma_rows(i: int, root: int, d: nat)
    requires
        root >= 0,
    ensures
        in_rows(i, root, d) <==> in_subtree(i, root) && i < row_first(root, d),
    decreases d,
{
    if d == 0 {
        lemma_row_zero(root);
        if in_subtree(i, root) {
            let e = lemma_subtree_in_row(i, root);
            lemma_row_mono(root, 0, e);
        }
    } else {
        let e = (d - 1) as nat;
        lemma_rows(i, root, e);
        lemma_row_step(root, e);
        if in_row(i, root, e) {
            lemma_row_in_subtree(i, root, e);
        }
        if in_subtree(i, root) && i < row_first(root, d) && !in_rows(i, root, e) {
            let k = lemma_subtree_in_row(i, root);
            if k < e {
                lemma_row_mono(root, k, e);
            }
            if k > e {
                lemma_row_mono(root, d, k);
            }
        }
    }
}

/// A row that begins inside a tree of `levels` levels ends inside it.
pub proof fn lemma_row_fits(root: int, d: nat, levels: nat)
    requires
        root >= 0,
        row_first(root, d) < node_count(levels as int),
    ensures
        row_first(root, d) + pow2(d) <= node_count(levels as int),
        d < levels,
{
    let a = root + 1;
    let w = pow2(d) as int;
    lemma_pow2_pos(d);
    assert(a * w >= w) by (nonlinear_arith)
        requires
            a >= 1,
            w >= 1,
    ;
    if levels <= d {
        lemma_pow2_mono(levels, d);
    }
    let rest = pow2((levels - d) as nat) as int;
    lemma_pow2_adds(d, (levels - d) as nat);
    assert(a < rest) by (nonlinear_arith)
        requires
            a * w < w * rest,
            w >= 1,
    ;
    assert((a + 1) * w <= w * rest) by (nonlinear_arith)
        requires
            a + 1 <= rest,
            w >= 1,
    ;
    assert((a + 1) * w == a * w + w) by (nonlinear_arith);
}

/// What lies below a node of a subtree lies in the subtree.
pub proof fn lemma_subtree_trans(y: int, x: int, root: int)
    requires
        in_subtree(y, x),
        in_subtree(x, root),
    ensures
        in_subtree(y, root),
    decreases y,
{
    lemma_subtree_above(x, root);
    if y != x {
        lemma_subtree_trans(parent(y), x, root);
    }
}

/// A node of a subtree has no lower index than the root of the subtree.
pub proof fn lemma_subtree_above(x: int, root: int)
    requires
        in_subtree(x, root),
    ensures
        0 <= root <= x,
{
}

/// The levels of a tree are the rows below node 0.
pub proof fn lemma_level_is_row(l: int)
    requires
        l >= 1,
    ensures
        level_first(l) == row_first(0, (l - 1) as nat),
        level_first(l + 1) == level_first(l) + pow2((l - 1) as nat),
        level_first(l + 1) == node_count(l),
        level_first(l) >= 0,
{
    lemma_pow2_step((l - 1) as nat);
}

/// Row `d` below a node of level `l` is part of level `l + d`: below the
/// `j`-th node of the level it begins at the node `j * 2^d` of that level.
pub proof fn lemma_row_in_level(l: int, j: int, d: nat)
    requires
        l >= 1,
        0 <= j < pow2((l - 1) as nat),
    ensures
        row_first(level_first(l) + j, d) == level_first(l + d) + j * pow2(d),
        row_first(level_first(l) + j, d) + pow2(d) <= level_first(l + d + 1),
{
    let a = pow2((l - 1) as nat) as int;
    let p = pow2(d) as int;
    lemma_pow2_adds((l - 1) as nat, d);
    lemma_pow2_step((l + d - 1) as nat);
    lemma_pow2_pos(d);
    assert((a - 1 + j + 1) * p == a * p + j * p) by (nonlinear_arith);
    assert((j + 1) * p <= a * p) by (nonlinear_arith)
        requires
            j + 1 <= a,
            p >= 1,
    ;
    assert((j + 1) * p == j * p + p) by (nonlinear_arith);
}

} // verus!
