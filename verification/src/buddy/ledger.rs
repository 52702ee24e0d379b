//! What holds of an allocator from one request to the next.
//!
//! A [`Ledger`] is the caller's side of the books: the blocks that were
//! handed out and not yet given back. [`accounts`] is what ties the books to
//! an allocator. It holds after `init` with no block out, it is kept when
//! `allocate` serves a request and the block is entered, and it is kept when
//! a block of the books is given to `deallocate`, which then takes it back.
//! While it holds, the blocks of the books lie apart from one another,
//! inside the arena and behind the pages of the tree, and the count of free
//! pages and the pages asked for of the blocks are together the pages that
//! `init` left free.
//!
//! The count follows the pages asked for, and the tree the blocks. While
//! a block that is larger than its request is out, the count is above the
//! number of free leaves; while every block fills its node, the two are
//! equal.
//!
//! A request is answered from the front of its level: what goes out or
//! comes back behind a block does not move the answer, so a block that came
//! back goes out again for the same request.
//!
//! An allocator cannot tell a block of the books from another run of used
//! pages. Giving it an address and a size that are not in the books breaks
//! the tie: nothing here speaks of what follows then.
use vstd::prelude::*;
use vstd::arithmetic::power2::lemma_pow2_pos;
use crate::bintree::def::{MAX_LEVEL, MAX_NODES, MIN_SIZE};
use crate::bintree::shape::{
    in_subtree,
    level_first,
    order,
    lemma_level_is_row,
    lemma_order,
    lemma_pow2_step,
    lemma_row_mono,
    lemma_row_step,
    lemma_row_zero,
    lemma_subtree_in_row,
    lemma_subtree_trans,
};
use crate::bintree::tree::{block_bytes, BinTree};
use crate::def::lemma_multiple;
use super::buddy_allocator::{pages_of, rounded, BuddyAllocator, BuddyErr};
use super::def::{MAX_PAGES, PAGE_SIZE, ZONE_PAGES};

verus! {

/// A block that is out: its address, and its size in bytes as it is given
/// back, a multiple of the page size.
pub struct Block {
    pub addr: usize,
    pub size: usize,
}

/// The number of pages of an arena, and the blocks that are out.
pub struct Ledger {
    pub pages: nat,
    pub live: Seq<Block>,
}

impl Ledger {
    /// The books of an arena of `pages` pages with no block out.
    pub open spec fn opened(pages: nat) -> Ledger {
        Ledger { pages, live: Seq::empty() }
    }

    /// The books after block `b` went out.
    pub open spec fn with(self, b: Block) -> Ledger {
        Ledger { pages: self.pages, live: self.live.push(b) }
    }

    /// The books after the block with the number `k` came back.
    pub open spec fn without(self, k: int) -> Ledger {
        Ledger { pages: self.pages, live: self.live.remove(k) }
    }
}

/// The level of the node of block `b`.
pub open spec fn block_level(t: BinTree, b: Block) -> int {
    t.size_level(b.size)
}

/// The number of pages of the node of block `b`.
pub open spec fn block_pages(t: BinTree, b: Block) -> nat {
    t.block_leaves(block_level(t, b))
}

/// The node of block `b`: the node of its level at its address.
pub open spec fn block_node(t: BinTree, b: Block) -> int {
    level_first(block_level(t, b)) + (b.addr - t.root()) / block_bytes(
        t.level as int,
        block_level(t, b),
    )
}

/// The first leaf under the node of block `b`.
pub open spec fn block_leaf(t: BinTree, b: Block) -> int {
    t.first_leaf(block_node(t, b), block_level(t, b))
}

/// The pages asked for of all blocks of `live` together.
pub open spec fn held_pages(live: Seq<Block>) -> nat
    decreases live.len(),
{
    if live.len() == 0 {
        0
    } else {
        held_pages(live.drop_last()) + (live.last().size / PAGE_SIZE) as nat
    }
}

/// The leaves under the nodes of all blocks of `live` together.
pub open spec fn held_leaves(t: BinTree, live: Seq<Block>) -> nat
    decreases live.len(),
{
    if live.len() == 0 {
        0
    } else {
        held_leaves(t, live.drop_last()) + block_pages(t, live.last())
    }
}

/// Whether block `b` is out: the tree has a node of its size at its address,
/// and that node and every node below it are used.
pub open spec fn holds(t: BinTree, b: Block) -> bool {
    let i = block_node(t, b);
    &&& b.size as int % PAGE_SIZE as int == 0
    &&& t.fits(b.size)
    &&& t.on_level(i, block_level(t, b))
    &&& t.nodes@[i] == b.addr
    &&& forall|x: int| 0 <= x < t.count() && #[trigger] in_subtree(x, i) ==> t.bitmap@[x]
}

/// Whether the leaves of block `b` are leaves of the arena of `pages` pages
/// behind the pages of the tree.
pub open spec fn inside(t: BinTree, pages: nat, b: Block) -> bool {
    &&& t.leaf_first() + ZONE_PAGES <= block_leaf(t, b)
    &&& block_leaf(t, b) + block_pages(t, b) <= t.leaf_first() + pages
}

/// Whether blocks `b` and `c` share no leaf.
pub open spec fn apart(t: BinTree, b: Block, c: Block) -> bool {
    ||| block_leaf(t, b) + block_pages(t, b) <= block_leaf(t, c)
    ||| block_leaf(t, c) + block_pages(t, c) <= block_leaf(t, b)
}

/// Whether blocks `b` and `c` share no byte.
pub open spec fn disjoint(b: Block, c: Block) -> bool {
    b.addr + b.size <= c.addr || c.addr + c.size <= b.addr
}

/// Whether node `x` is a leaf that is never handed out: a leaf of the
/// tree's own pages, or a leaf beyond the arena of `pages` pages.
pub open spec fn kept(t: BinTree, pages: nat, x: int) -> bool {
    &&& t.leaf_first() <= x < t.count()
    &&& !(t.leaf_first() + ZONE_PAGES <= x < t.leaf_first() + pages)
}

/// Whether node `x` is the node of a block of `live` or lies below one.
pub open spec fn owned(t: BinTree, live: Seq<Block>, x: int) -> bool {
    exists|k: int| 0 <= k < live.len() && in_subtree(x, block_node(t, #[trigger] live[k]))
}

/// Whether every block of the books is out and inside the arena.
pub open spec fn all_out(t: BinTree, g: Ledger) -> bool {
    forall|k: int|
        0 <= k < g.live.len() ==> holds(t, #[trigger] g.live[k]) && inside(t, g.pages, g.live[k])
}

/// Whether the blocks of `live` lie apart from one another.
pub open spec fn all_apart(t: BinTree, live: Seq<Block>) -> bool {
    forall|j: int, k: int| 0 <= j < k < live.len() ==> apart(t, #[trigger] live[j], #[trigger] live[k])
}

/// Whether the used nodes are those that the books give a reason for: the
/// leaves that are never handed out, the nodes of the blocks of the books
/// with what lies below them, and what lies beyond the tree.
pub open spec fn exact(t: BinTree, g: Ledger) -> bool {
    &&& forall|x: int| kept(t, g.pages, x) ==> #[trigger] t.bitmap@[x]
    &&& forall|x: int| t.count() <= x < MAX_NODES ==> #[trigger] t.bitmap@[x]
    &&& forall|x: int|
        0 <= x < t.count() && #[trigger] t.bitmap@[x] ==> kept(t, g.pages, x) || owned(
            t,
            g.live,
            x,
        )
}

/// Whether the books `g` are those of allocator `a`:
/// the allocator is set up for an arena of `g.pages` pages; every block of
/// the books is out, inside the arena and apart from the others; no other
/// node of the tree is used without reason; the count of free pages and
/// the pages asked for of the blocks are together the pages of the arena
/// behind those of the tree; and so are the free leaves and the leaves
/// under the nodes of the blocks.
pub open spec fn accounts(a: BuddyAllocator, g: Ledger) -> bool {
    let t = a.tree();
    &&& a.wf()
    &&& ZONE_PAGES <= g.pages <= MAX_PAGES
    &&& t.level == order(g.pages) + 1
    &&& all_out(t, g)
    &&& all_apart(t, g.live)
    &&& exact(t, g)
    &&& a.free() + held_pages(g.live) == g.pages - ZONE_PAGES
    &&& t.free_leaves() + held_leaves(t, g.live) == g.pages - ZONE_PAGES
}

/// The block that `allocate` hands out for a request that it serves.
pub open spec fn granted(a: BuddyAllocator, size: usize, alignment: usize) -> Block {
    Block {
        addr: a.tree().nodes@[a.claim_index(size, alignment)],
        size: rounded(size) as usize,
    }
}

/// A block that goes out adds the pages asked for.
proof fn lemma_held_push(live: Seq<Block>, b: Block)
    ensures
        held_pages(live.push(b)) == held_pages(live) + b.size / PAGE_SIZE,
{
    assert(live.push(b).drop_last() =~= live);
}

/// A block that comes back takes the pages asked for with it.
proof fn lemma_held_remove(live: Seq<Block>, k: int)
    requires
        0 <= k < live.len(),
    ensures
        held_pages(live.remove(k)) + live[k].size / PAGE_SIZE == held_pages(live),
    decreases live.len(),
{
    if k == live.len() - 1 {
        assert(live.remove(k) =~= live.drop_last());
    } else {
        lemma_held_remove(live.drop_last(), k);
        assert(live.remove(k).drop_last() =~= live.drop_last().remove(k));
        assert(live.remove(k).last() == live.last());
    }
}

/// The leaves of the blocks depend on the number of levels alone.
proof fn lemma_leaves_level(t: BinTree, u: BinTree, live: Seq<Block>)
    requires
        t.level == u.level,
    ensures
        held_leaves(t, live) == held_leaves(u, live),
    decreases live.len(),
{
    if live.len() > 0 {
        lemma_leaves_level(t, u, live.drop_last());
    }
}

/// A block that goes out adds the leaves under its node.
proof fn lemma_leaves_push(t: BinTree, live: Seq<Block>, b: Block)
    ensures
        held_leaves(t, live.push(b)) == held_leaves(t, live) + block_pages(t, b),
{
    assert(live.push(b).drop_last() =~= live);
}

/// A block that comes back takes the leaves under its node with it.
proof fn lemma_leaves_remove(t: BinTree, live: Seq<Block>, k: int)
    requires
        0 <= k < live.len(),
    ensures
        held_leaves(t, live.remove(k)) + block_pages(t, live[k]) == held_leaves(t, live),
    decreases live.len(),
{
    if k == live.len() - 1 {
        assert(live.remove(k) =~= live.drop_last());
    } else {
        lemma_leaves_remove(t, live.drop_last(), k);
        assert(live.remove(k).drop_last() =~= live.drop_last().remove(k));
        assert(live.remove(k).last() == live.last());
    }
}

/// The node of a block is the node that has its address.
proof fn lemma_block_node(t: BinTree, i: int, b: Block)
    requires
        t.wf(),
        t.on_level(i, block_level(t, b)),
        t.nodes@[i] == b.addr,
    ensures
        block_node(t, b) == i,
{
    let l = block_level(t, b);
    let j = i - level_first(l);
    let bytes = block_bytes(t.level as int, l);
    lemma_level_is_row(l);
    lemma_pow2_pos((t.level - l) as nat);
    assert(t.nodes@[level_first(l) + j] == t.root() + j * bytes);
    vstd::arithmetic::div_mod::lemma_div_multiples_vanish(j, bytes);
    assert(j * bytes == bytes * j) by (nonlinear_arith);
}

/// A block has the pages for its bytes, and its level is one of the tree.
proof fn lemma_block_size(t: BinTree, b: Block)
    requires
        t.level <= MAX_LEVEL,
        t.fits(b.size),
        b.size as int % PAGE_SIZE as int == 0,
    ensures
        b.size <= block_pages(t, b) * PAGE_SIZE,
        block_pages(t, b) >= 1,
        1 <= block_level(t, b) <= t.level,
{
    t.lemma_fits(b.size);
    lemma_pow2_pos((t.level - block_level(t, b)) as nat);
    let q = b.size as int / PAGE_SIZE as int;
    let p = block_pages(t, b) as int;
    vstd::arithmetic::div_mod::lemma_fundamental_div_mod(b.size as int, PAGE_SIZE as int);
    assert(q * PAGE_SIZE <= p * PAGE_SIZE) by (nonlinear_arith)
        requires
            q <= p,
    ;
    assert(PAGE_SIZE * q == q * PAGE_SIZE) by (nonlinear_arith);
}

/// The leaves under the node of a block that is out are leaves of the
/// tree, and they are used, as the node is.
proof fn lemma_block_used(t: BinTree, b: Block)
    requires
        t.level <= MAX_LEVEL,
        holds(t, b),
    ensures
        t.run(block_leaf(t, b), block_pages(t, b) as int, true),
        t.bitmap@[block_node(t, b)],
        t.leaf_first() <= block_leaf(t, b),
        block_leaf(t, b) + block_pages(t, b) <= t.count(),
        block_pages(t, b) >= 1,
{
    let i = block_node(t, b);
    let l = block_level(t, b);
    t.lemma_leaves_of(i, l);
    lemma_block_size(t, b);
    assert(in_subtree(i, i));
    assert forall|k: int| 0 <= k < block_pages(t, b) implies #[trigger] t.bitmap@[block_leaf(t, b)
        + k] == true by {
        let x = block_leaf(t, b) + k;
        t.lemma_subtree_leaves(i, l, x);
        assert(in_subtree(x, i));
    }
}

/// The bytes of a block that is out begin at the page of its first leaf,
/// and are no more than the pages of its node.
proof fn lemma_block_range(t: BinTree, b: Block)
    requires
        t.wf(),
        holds(t, b),
    ensures
        b.addr == t.root() + (block_leaf(t, b) - t.leaf_first()) * PAGE_SIZE,
        b.size <= block_pages(t, b) * PAGE_SIZE,
{
    t.lemma_block_addr(block_node(t, b), block_level(t, b));
    lemma_block_size(t, b);
}

/// Two blocks that are out and lie apart have no node in common, neither
/// their own nor one below.
proof fn lemma_apart_subtrees(t: BinTree, b: Block, c: Block, x: int)
    requires
        t.level <= MAX_LEVEL,
        holds(t, b),
        holds(t, c),
        apart(t, b, c) || apart(t, c, b),
        0 <= x < t.count(),
        in_subtree(x, block_node(t, b)),
    ensures
        !in_subtree(x, block_node(t, c)),
{
    let i = block_node(t, b);
    let m = block_node(t, c);
    if in_subtree(x, m) {
        let y = t.lemma_leaf_below(i, block_level(t, b), x);
        lemma_subtree_trans(y, x, m);
        t.lemma_subtree_leaves(m, block_level(t, c), y);
    }
}

/// A block that is out stays out when the subtree of another node is
/// marked, unless that marks one of its own nodes as free.
proof fn lemma_stays_out(t: BinTree, u: BinTree, i: int, used: bool, b: Block)
    requires
        t.marks(i, used, u),
        t.count() <= MAX_NODES,
        holds(t, b),
        used || forall|x: int|
            0 <= x < t.count() && in_subtree(x, i) ==> !#[trigger] in_subtree(x, block_node(t, b)),
    ensures
        holds(u, b),
        block_node(u, b) == block_node(t, b),
        block_level(u, b) == block_level(t, b),
        block_leaf(u, b) == block_leaf(t, b),
        block_pages(u, b) == block_pages(t, b),
{
    let m = block_node(t, b);
    assert forall|x: int| 0 <= x < u.count() && #[trigger] in_subtree(x, m) implies u.bitmap@[x] by {
        assert(t.bitmap@[x]);
    }
}

/// A block that is out is owed its return: `deallocate` takes it back.
proof fn lemma_owed(a: BuddyAllocator, b: Block)
    requires
        a.wf(),
        holds(a.tree(), b),
    ensures
        a.releases(b.addr, b.size),
        a.match_index(b.addr, b.size) == block_node(a.tree(), b),
{
    let t = a.tree();
    let i = block_node(t, b);
    let l = block_level(t, b);
    let pages = (b.size / MIN_SIZE) as int;
    t.lemma_fits(b.size);
    t.lemma_block_addr(i, l);
    lemma_block_used(t, b);
    // The address is a multiple of the page size, as the arena's is.
    let off = t.first_leaf(i, l) - t.leaf_first();
    vstd::arithmetic::div_mod::lemma_mod_multiples_vanish(off, t.root(), PAGE_SIZE as int);
    assert(PAGE_SIZE * off + t.root() == t.root() + off * MIN_SIZE) by (nonlinear_arith)
        requires
            PAGE_SIZE == MIN_SIZE,
    ;
    // The node matches a search for used blocks, so the search finds one.
    assert forall|k: int| 0 <= k < pages implies #[trigger] t.bitmap@[t.first_leaf(i, l) + k]
        == true by {}
    let s = t.lemma_find_exists(b.size, true, i);
    assert forall|k: int| s <= k < i implies t.nodes@[k] != b.addr by {
        lemma_level_is_row(l);
        if t.nodes@[k] == b.addr {
            t.lemma_addr_unique(i, k, l);
        }
    }
    a.lemma_match_unique(b.addr, b.size, i);
}

/// The leaves of an allocator with books are no fewer than the pages of
/// its arena.
proof fn lemma_books(a: BuddyAllocator, g: Ledger)
    requires
        accounts(a, g),
    ensures
        a.tree().level >= 1,
        g.pages <= a.tree().leaves(),
        a.tree().count() <= MAX_NODES,
        a.tree().count() == a.tree().leaf_first() + a.tree().leaves(),
{
    lemma_order(g.pages);
    a.tree().lemma_count();
}

/// The block that `allocate` hands out is out afterwards. Its leaves were
/// free, so it lies inside the arena and apart from every block that was
/// out before.
proof fn lemma_enters(pre: BuddyAllocator, g: Ledger, size: usize, alignment: usize, u: BinTree)
    requires
        accounts(pre, g),
        pre.grants(size, alignment),
        pre.tree().marks(pre.claim_index(size, alignment), true, u),
    ensures
        holds(u, granted(pre, size, alignment)),
        inside(u, g.pages, granted(pre, size, alignment)),
        block_node(u, granted(pre, size, alignment)) == pre.claim_index(size, alignment),
        size <= granted(pre, size, alignment).size,
        forall|k: int|
            0 <= k < g.live.len() ==> apart(u, #[trigger] g.live[k], granted(pre, size, alignment)),
{
    let t = pre.tree();
    let b = granted(pre, size, alignment);
    let i = pre.claim_index(size, alignment);
    let l = t.size_level(b.size);
    let first = t.first_leaf(i, l);
    let n = t.block_leaves(l) as int;
    lemma_books(pre, g);
    lemma_multiple(size as int, PAGE_SIZE as int);
    t.lemma_fits(b.size);
    t.lemma_leaves_of(i, l);
    lemma_block_node(t, i, b);
    lemma_block_size(t, b);
    assert(u.wf());
    assert(block_node(u, b) == i);
    assert(holds(u, b));
    // The leaves of the block were free, so none of them is kept back.
    assert(t.bitmap@[first + 0] == false);
    assert(t.bitmap@[first + (n - 1)] == false);
    assert(!kept(t, g.pages, first));
    assert(!kept(t, g.pages, first + (n - 1)));
    assert forall|k: int| 0 <= k < g.live.len() implies apart(u, #[trigger] g.live[k], b) by {
        let c = g.live[k];
        assert(holds(t, c));
        lemma_block_used(t, c);
        let other = block_leaf(t, c);
        let m = block_pages(t, c) as int;
        if first <= other < first + n {
            assert(t.bitmap@[first + (other - first)] == false);
            assert(t.bitmap@[other + 0] == true);
        }
        if other <= first < other + m {
            assert(t.bitmap@[first + 0] == false);
            assert(t.bitmap@[other + (first - other)] == true);
        }
    }
}

/// When a block of the books comes back, the other blocks stay out,
/// inside the arena and apart from one another.
proof fn lemma_leaves_out(t: BinTree, u: BinTree, g: Ledger, k: int)
    requires
        t.count() <= MAX_NODES,
        t.level <= MAX_LEVEL,
        all_out(t, g),
        all_apart(t, g.live),
        0 <= k < g.live.len(),
        t.marks(block_node(t, g.live[k]), false, u),
    ensures
        all_out(u, g.without(k)),
        all_apart(u, g.without(k).live),
{
    let b = g.live[k];
    let i = block_node(t, b);
    let h = g.without(k);
    assert(holds(t, b));
    assert forall|j: int| 0 <= j < g.live.len() && j != k implies holds(u, #[trigger] g.live[j])
        && block_leaf(u, g.live[j]) == block_leaf(t, g.live[j]) && block_pages(u, g.live[j])
        == block_pages(t, g.live[j]) by {
        let c = g.live[j];
        assert(holds(t, c));
        if j < k {
            assert(apart(t, g.live[j], g.live[k]));
        } else {
            assert(apart(t, g.live[k], g.live[j]));
        }
        assert forall|x: int| 0 <= x < t.count() && in_subtree(x, i) implies !#[trigger] in_subtree(
            x,
            block_node(t, c),
        ) by {
            lemma_apart_subtrees(t, b, c, x);
        }
        lemma_stays_out(t, u, i, false, c);
    }
    assert forall|j: int| 0 <= j < h.live.len() implies holds(u, #[trigger] h.live[j]) && inside(
        u,
        h.pages,
        h.live[j],
    ) by {
        let c = if j < k {
            j
        } else {
            j + 1
        };
        assert(h.live[j] == g.live[c]);
        assert(inside(t, g.pages, g.live[c]));
    }
    assert forall|j: int, m: int| 0 <= j < m < h.live.len() implies apart(
        u,
        #[trigger] h.live[j],
        #[trigger] h.live[m],
    ) by {
        let c = if j < k {
            j
        } else {
            j + 1
        };
        let d = if m < k {
            m
        } else {
            m + 1
        };
        assert(h.live[j] == g.live[c]);
        assert(h.live[m] == g.live[d]);
        assert(apart(t, g.live[c], g.live[d]));
    }
}

/// When a block of the books comes back, the nodes that stay used are
/// those that the books still give a reason for.
proof fn lemma_leaves_exact(t: BinTree, u: BinTree, g: Ledger, k: int)
    requires
        t.count() <= MAX_NODES,
        1 <= t.level <= MAX_LEVEL,
        exact(t, g),
        0 <= k < g.live.len(),
        holds(t, g.live[k]),
        inside(t, g.pages, g.live[k]),
        t.marks(block_node(t, g.live[k]), false, u),
    ensures
        exact(u, g.without(k)),
{
    let b = g.live[k];
    let i = block_node(t, b);
    let l = block_level(t, b);
    let h = g.without(k);
    lemma_pow2_pos(t.level as nat);
    lemma_level_is_row(t.level as int);
    assert forall|x: int| kept(u, h.pages, x) implies #[trigger] u.bitmap@[x] by {
        t.lemma_subtree_leaves(i, l, x);
        assert(t.bitmap@[x]);
    }
    assert forall|x: int| u.count() <= x < MAX_NODES implies #[trigger] u.bitmap@[x] by {
        assert(t.bitmap@[x]);
    }
    assert forall|x: int| 0 <= x < u.count() && #[trigger] u.bitmap@[x] implies kept(
        u,
        h.pages,
        x,
    ) || owned(u, h.live, x) by {
        assert(t.bitmap@[x] && !in_subtree(x, i));
        if !kept(t, g.pages, x) {
            let c = choose|c: int|
                0 <= c < g.live.len() && in_subtree(x, block_node(t, #[trigger] g.live[c]));
            let j = if c < k {
                c
            } else {
                c - 1
            };
            assert(h.live[j] == g.live[c]);
            assert(block_node(u, h.live[j]) == block_node(t, g.live[c]));
        }
    }
}

/// When a block goes out, the blocks of the books stay out, and all lie
/// inside the arena and apart from one another.
proof fn lemma_enters_out(t: BinTree, u: BinTree, g: Ledger, b: Block, i: int)
    requires
        t.count() <= MAX_NODES,
        all_out(t, g),
        all_apart(t, g.live),
        t.marks(i, true, u),
        holds(u, b),
        inside(u, g.pages, b),
        forall|k: int| 0 <= k < g.live.len() ==> apart(u, #[trigger] g.live[k], b),
    ensures
        all_out(u, g.with(b)),
        all_apart(u, g.with(b).live),
{
    let h = g.with(b);
    let last = g.live.len() as int;
    assert(h.live[last] == b);
    assert forall|k: int| 0 <= k < h.live.len() implies holds(u, #[trigger] h.live[k]) && inside(
        u,
        h.pages,
        h.live[k],
    ) by {
        if k < last {
            assert(h.live[k] == g.live[k]);
            assert(holds(t, g.live[k]) && inside(t, g.pages, g.live[k]));
            lemma_stays_out(t, u, i, true, g.live[k]);
        }
    }
    assert forall|j: int, k: int| 0 <= j < k < h.live.len() implies apart(
        u,
        #[trigger] h.live[j],
        #[trigger] h.live[k],
    ) by {
        assert(h.live[j] == g.live[j]);
        assert(holds(t, g.live[j]));
        lemma_stays_out(t, u, i, true, g.live[j]);
        if k < last {
            assert(h.live[k] == g.live[k]);
            assert(holds(t, g.live[k]));
            lemma_stays_out(t, u, i, true, g.live[k]);
            assert(apart(t, g.live[j], g.live[k]));
        }
    }
}

/// When a block goes out, the nodes that are used are those that the
/// books give a reason for.
proof fn lemma_enters_exact(t: BinTree, u: BinTree, g: Ledger, b: Block, i: int)
    requires
        t.count() <= MAX_NODES,
        1 <= t.level,
        exact(t, g),
        t.marks(i, true, u),
        block_node(u, b) == i,
    ensures
        exact(u, g.with(b)),
{
    let h = g.with(b);
    let last = g.live.len() as int;
    lemma_pow2_pos(t.level as nat);
    lemma_level_is_row(t.level as int);
    assert(h.live[last] == b);
    assert forall|x: int| kept(u, h.pages, x) implies #[trigger] u.bitmap@[x] by {
        assert(t.bitmap@[x]);
    }
    assert forall|x: int| u.count() <= x < MAX_NODES implies #[trigger] u.bitmap@[x] by {
        assert(t.bitmap@[x]);
    }
    assert forall|x: int| 0 <= x < u.count() && #[trigger] u.bitmap@[x] implies kept(
        u,
        h.pages,
        x,
    ) || owned(u, h.live, x) by {
        if in_subtree(x, i) {
            assert(in_subtree(x, block_node(u, h.live[last])));
        } else {
            assert(t.bitmap@[x]);
            if !kept(t, g.pages, x) {
                let k = choose|k: int|
                    0 <= k < g.live.len() && in_subtree(x, block_node(t, #[trigger] g.live[k]));
                assert(h.live[k] == g.live[k]);
                assert(block_node(u, h.live[k]) == block_node(t, g.live[k]));
            }
        }
    }
}

/// An allocator that was set up has no block out.
pub proof fn law_init(a: BuddyAllocator, start: int, pages: int)
    requires
        ZONE_PAGES <= pages <= MAX_PAGES,
        a.set_up(start, pages),
    ensures
        accounts(a, Ledger::opened(pages as nat)),
{
    let t = a.tree();
    lemma_order(pages as nat);
    t.lemma_count();
    assert(Ledger::opened(pages as nat).live.len() == 0);
}

/// A block that `allocate` hands out enters the books: it lies at
/// a multiple of the alignment, holds the bytes asked for, lies inside the
/// arena and apart from every block that is out, and the count of free
/// pages goes down by the pages asked for.
pub proof fn law_allocate(
    pre: BuddyAllocator,
    g: Ledger,
    size: usize,
    alignment: usize,
    post: BuddyAllocator,
)
    requires
        accounts(pre, g),
        alignment > 0,
        pre.grants(size, alignment),
        pre.after_allocate(size, alignment, post),
    ensures
        accounts(post, g.with(granted(pre, size, alignment))),
        granted(pre, size, alignment).addr as int % alignment as int == 0,
        size <= granted(pre, size, alignment).size,
        granted(pre, size, alignment).size / PAGE_SIZE == pages_of(size),
        post.free() + pages_of(size) == pre.free(),
{
    let t = pre.tree();
    let u = post.tree();
    let b = granted(pre, size, alignment);
    let i = pre.claim_index(size, alignment);
    let l = t.size_level(b.size);
    let h = g.with(b);
    lemma_books(pre, g);
    lemma_enters(pre, g, size, alignment, u);
    lemma_enters_out(t, u, g, b, i);
    lemma_enters_exact(t, u, g, b, i);
    t.lemma_marked_leaves(i, l, true);
    lemma_leaves_level(t, u, h.live);
    lemma_leaves_push(t, g.live, b);
    lemma_held_push(g.live, b);
    lemma_multiple(size as int, PAGE_SIZE as int);
}

/// A block of the books that is given to `deallocate` is taken back: it
/// leaves the books, and the count of free pages goes up by the pages
/// that were asked for, which takes it no higher than `init` left it.
pub proof fn law_deallocate(pre: BuddyAllocator, g: Ledger, k: int, post: BuddyAllocator)
    requires
        accounts(pre, g),
        0 <= k < g.live.len(),
        pre.after_deallocate(g.live[k].addr, g.live[k].size, post),
    ensures
        pre.releases(g.live[k].addr, g.live[k].size),
        accounts(post, g.without(k)),
        pre.free() + g.live[k].size / PAGE_SIZE <= g.pages - ZONE_PAGES,
        post.free() == pre.free() + g.live[k].size / PAGE_SIZE,
{
    let t = pre.tree();
    let u = post.tree();
    let b = g.live[k];
    let i = block_node(t, b);
    let l = block_level(t, b);
    let h = g.without(k);
    lemma_books(pre, g);
    assert(holds(t, b) && inside(t, g.pages, b));
    lemma_owed(pre, b);
    lemma_block_used(t, b);
    lemma_leaves_out(t, u, g, k);
    lemma_leaves_exact(t, u, g, k);
    t.lemma_marked_leaves(i, l, false);
    lemma_leaves_level(t, u, h.live);
    lemma_leaves_remove(t, g.live, k);
    lemma_held_remove(g.live, k);
}

/// A block that `allocate` hands out can be given back at once, and the
/// count of free pages is then what it was before the block went out.
pub proof fn law_round_trip(
    pre: BuddyAllocator,
    size: usize,
    alignment: usize,
    mid: BuddyAllocator,
    post: BuddyAllocator,
)
    requires
        pre.wf(),
        alignment > 0,
        pre.grants(size, alignment),
        pre.after_allocate(size, alignment, mid),
        mid.after_deallocate(
            granted(pre, size, alignment).addr,
            granted(pre, size, alignment).size,
            post,
        ),
    ensures
        granted(pre, size, alignment).addr as int % PAGE_SIZE as int == 0,
        granted(pre, size, alignment).size == rounded(size),
        mid.releases(granted(pre, size, alignment).addr, granted(pre, size, alignment).size),
        mid.reply(granted(pre, size, alignment).addr, granted(pre, size, alignment).size) == Ok::<
            usize,
            BuddyErr,
        >(pre.free() as usize),
        mid.free() + granted(pre, size, alignment).size / PAGE_SIZE == pre.free(),
        post.free() == pre.free(),
{
    let t = pre.tree();
    let u = mid.tree();
    let b = granted(pre, size, alignment);
    let i = pre.claim_index(size, alignment);
    let l = t.size_level(b.size);
    lemma_multiple(size as int, PAGE_SIZE as int);
    t.lemma_count();
    t.lemma_fits(b.size);
    t.lemma_leaves_of(i, l);
    t.lemma_marked_leaves(i, l, true);
    assert(u.wf());
    lemma_block_node(u, i, b);
    assert(holds(u, b));
    lemma_owed(mid, b);
}

/// Two blocks that are out share no byte.
pub proof fn law_non_overlap(a: BuddyAllocator, g: Ledger, j: int, k: int)
    requires
        accounts(a, g),
        0 <= j < g.live.len(),
        0 <= k < g.live.len(),
        j != k,
    ensures
        disjoint(g.live[j], g.live[k]),
{
    let t = a.tree();
    let b = g.live[j];
    let c = g.live[k];
    if j < k {
        assert(apart(t, g.live[j], g.live[k]));
    } else {
        assert(apart(t, g.live[k], g.live[j]));
    }
    assert(holds(t, b) && holds(t, c));
    lemma_block_range(t, b);
    lemma_block_range(t, c);
    let p = block_leaf(t, b) - t.leaf_first();
    let q = block_leaf(t, c) - t.leaf_first();
    let n = block_pages(t, b) as int;
    let m = block_pages(t, c) as int;
    if p + n <= q {
        assert((p + n) * PAGE_SIZE <= q * PAGE_SIZE) by (nonlinear_arith)
            requires
                p + n <= q,
        ;
        assert((p + n) * PAGE_SIZE == p * PAGE_SIZE + n * PAGE_SIZE) by (nonlinear_arith);
    } else {
        assert((q + m) * PAGE_SIZE <= p * PAGE_SIZE) by (nonlinear_arith)
            requires
                q + m <= p,
        ;
        assert((q + m) * PAGE_SIZE == q * PAGE_SIZE + m * PAGE_SIZE) by (nonlinear_arith);
    }
}

/// A block that is out lies in the arena, behind the pages of the tree:
/// no byte of it belongs to a leaf beyond the pages of the arena.
pub proof fn law_in_arena(a: BuddyAllocator, g: Ledger, k: int)
    requires
        accounts(a, g),
        0 <= k < g.live.len(),
    ensures
        a.tree().root() + ZONE_PAGES * PAGE_SIZE <= g.live[k].addr,
        g.live[k].addr + g.live[k].size <= a.tree().root() + g.pages * PAGE_SIZE,
{
    let t = a.tree();
    let b = g.live[k];
    assert(holds(t, b) && inside(t, g.pages, b));
    lemma_block_range(t, b);
    let p = block_leaf(t, b) - t.leaf_first();
    let n = block_pages(t, b) as int;
    assert(ZONE_PAGES * PAGE_SIZE <= p * PAGE_SIZE) by (nonlinear_arith)
        requires
            ZONE_PAGES <= p,
    ;
    assert((p + n) * PAGE_SIZE <= g.pages * PAGE_SIZE) by (nonlinear_arith)
        requires
            p + n <= g.pages,
    ;
    assert((p + n) * PAGE_SIZE == p * PAGE_SIZE + n * PAGE_SIZE) by (nonlinear_arith);
}

/// The count of free pages is the pages that `init` left free less the
/// pages asked for of the blocks that are out.
pub proof fn law_conservation(a: BuddyAllocator, g: Ledger)
    requires
        accounts(a, g),
    ensures
        a.free() == g.pages - ZONE_PAGES - held_pages(g.live),
{
}

/// When every block has come back, the allocator is as `init` left it.
pub proof fn law_all_back(a: BuddyAllocator, g: Ledger)
    requires
        accounts(a, g),
        g.live.len() == 0,
    ensures
        a.set_up(a.tree().root(), g.pages as int),
{
    let t = a.tree();
    lemma_books(a, g);
    t.bitmap.lemma_len();
    let bits = Seq::new(
        MAX_NODES as nat,
        |i: int| i >= t.leaf_first() + g.pages || t.leaf_first() <= i < t.leaf_first() + ZONE_PAGES,
    );
    assert forall|x: int| 0 <= x < MAX_NODES implies t.bitmap@[x] == bits[x] by {
        if x < t.count() {
            if t.bitmap@[x] {
                assert(kept(t, g.pages, x) || owned(t, g.live, x));
            }
            if bits[x] {
                assert(kept(t, g.pages, x));
            }
        }
    }
    assert(t.bitmap@ =~= bits);
}

/// Blocks that fill their nodes take as many leaves as pages were asked for.
proof fn lemma_held_full(t: BinTree, live: Seq<Block>)
    requires
        forall|k: int|
            0 <= k < live.len() ==> (#[trigger] live[k]).size / PAGE_SIZE == block_pages(
                t,
                live[k],
            ),
    ensures
        held_pages(live) == held_leaves(t, live),
    decreases live.len(),
{
    if live.len() > 0 {
        let rest = live.drop_last();
        assert forall|k: int| 0 <= k < rest.len() implies (#[trigger] rest[k]).size / PAGE_SIZE
            == block_pages(t, rest[k]) by {
            assert(rest[k] == live[k]);
        }
        lemma_held_full(t, rest);
        assert(live.last() == live[live.len() - 1]);
    }
}

/// While every block that is out fills its node, as a block of a power of
/// two of pages does, the count of free pages is the number of free leaves.
pub proof fn law_free_leaves(a: BuddyAllocator, g: Ledger)
    requires
        accounts(a, g),
        forall|k: int|
            0 <= k < g.live.len() ==> (#[trigger] g.live[k]).size / PAGE_SIZE == block_pages(
                a.tree(),
                g.live[k],
            ),
    ensures
        a.free() == a.tree().free_leaves(),
{
    lemma_held_full(a.tree(), g.live);
}

/// The count of free pages is never below the number of free leaves, nor
/// above the pages that `init` left free.
pub proof fn law_count_bounds(a: BuddyAllocator, g: Ledger)
    requires
        accounts(a, g),
    ensures
        a.tree().free_leaves() <= a.free() <= g.pages - ZONE_PAGES,
{
    lemma_held_bound(a.tree(), g);
}

/// No block that is out has fewer leaves than pages were asked for.
proof fn lemma_held_bound(t: BinTree, g: Ledger)
    requires
        t.level <= MAX_LEVEL,
        all_out(t, g),
    ensures
        held_pages(g.live) <= held_leaves(t, g.live),
    decreases g.live.len(),
{
    if g.live.len() > 0 {
        let h = Ledger { pages: g.pages, live: g.live.drop_last() };
        assert forall|k: int| 0 <= k < h.live.len() implies holds(t, #[trigger] h.live[k])
            && inside(t, h.pages, h.live[k]) by {
            assert(h.live[k] == g.live[k]);
        }
        lemma_held_bound(t, h);
        let b = g.live.last();
        assert(b == g.live[g.live.len() - 1]);
        assert(holds(t, b));
        t.lemma_fits(b.size);
    }
}

/// The tree has a block for every request that the count of free pages
/// covers, so `allocate` refuses none with `WrongSize`.
pub proof fn law_covered(a: BuddyAllocator, g: Ledger, size: usize)
    requires
        accounts(a, g),
        0 < a.free(),
        pages_of(size) <= a.free(),
    ensures
        a.covers(size),
        a.refusal(size) == BuddyErr::NotFound,
{
    let t = a.tree();
    let pages = pages_of(size);
    lemma_books(a, g);
    t.lemma_count();
    lemma_multiple(size as int, PAGE_SIZE as int);
    vstd::arithmetic::div_mod::lemma_fundamental_div_mod(rounded(size), PAGE_SIZE as int);
    assert(pages * PAGE_SIZE <= MAX_PAGES * PAGE_SIZE) by (nonlinear_arith)
        requires
            pages <= MAX_PAGES,
    ;
    assert(PAGE_SIZE * pages == pages * PAGE_SIZE) by (nonlinear_arith);
}

/// Whether tree `u` has the addresses of tree `t`, and the same bits on the
/// nodes of level `l` up to node `s` and on the leaves up to the last one
/// under node `i`.
pub open spec fn same_before(t: BinTree, u: BinTree, s: int, i: int, l: int) -> bool {
    &&& u.level == t.level
    &&& u.nodes == t.nodes
    &&& forall|x: int| level_first(l) <= x <= s ==> #[trigger] u.bitmap@[x] == t.bitmap@[x]
    &&& forall|x: int|
        t.leaf_first() <= x < t.first_leaf(i, l) + t.block_leaves(l) ==> #[trigger] u.bitmap@[x]
            == t.bitmap@[x]
}

/// A request finds the node that it found before wherever nothing has
/// changed before it: not on its level up to the node where the tree's
/// search ended, and not among the leaves up to the last leaf of the block.
/// What is handed out or given back behind the block does not move the
/// answer.
pub proof fn law_first_fit(a: BuddyAllocator, b: BuddyAllocator, size: usize, alignment: usize)
    requires
        a.wf(),
        a.grants(size, alignment),
        same_before(
            a.tree(),
            b.tree(),
            a.tree().find_index(rounded(size) as usize, false),
            a.claim_index(size, alignment),
            a.tree().size_level(rounded(size) as usize),
        ),
        0 < b.free(),
        pages_of(size) <= b.free(),
    ensures
        b.grants(size, alignment),
        b.answer(size, alignment) == a.answer(size, alignment),
{
    let t = a.tree();
    let u = b.tree();
    let bytes = rounded(size) as usize;
    let l = t.size_level(bytes);
    let pages = (bytes / MIN_SIZE) as int;
    let i = a.claim_index(size, alignment);
    let start = t.find_index(bytes, false);
    let n = t.block_leaves(l) as int;
    t.lemma_fits(bytes);
    t.lemma_leaves_of(i, l);
    lemma_level_is_row(l);
    // Up to node `i` the two trees match the same nodes.
    assert forall|k: int| level_first(l) <= k <= start implies u.matches(k, l, pages, false)
        == t.matches(k, l, pages, false) by {
        t.lemma_leaves_of(k, l);
        let first = t.first_leaf(k, l);
        assert((k - level_first(l)) * n + n <= (i - level_first(l)) * n + n) by (nonlinear_arith)
            requires
                k <= i,
                n >= 0,
        ;
        assert forall|j: int| 0 <= j < pages implies #[trigger] u.bitmap@[first + j]
            == t.bitmap@[first + j] by {}
        if t.run(first, pages, false) {
            assert forall|j: int| 0 <= j < pages implies #[trigger] u.bitmap@[first + j]
                == false by {
                assert(t.bitmap@[first + j] == false);
            }
        }
        if u.run(first, pages, false) {
            assert forall|j: int| 0 <= j < pages implies #[trigger] t.bitmap@[first + j]
                == false by {
                assert(u.bitmap@[first + j] == false);
            }
        }
    }
    assert(u.found(bytes, false, start));
    u.lemma_found_unique(bytes, false, start, start);
    assert(b.aligned_at(size, alignment, i));
    b.lemma_claim_unique(size, alignment, i);
    assert forall|j: int| 0 <= j < n implies #[trigger] u.bitmap@[t.first_leaf(i, l) + j]
        == false by {
        assert(t.bitmap@[t.first_leaf(i, l) + j] == false);
    }
}

/// A block that came back at once goes out again for the same request, at
/// the same address.
pub proof fn law_reuse(
    pre: BuddyAllocator,
    size: usize,
    alignment: usize,
    mid: BuddyAllocator,
    post: BuddyAllocator,
)
    requires
        pre.wf(),
        alignment > 0,
        pre.grants(size, alignment),
        pre.after_allocate(size, alignment, mid),
        mid.after_deallocate(
            granted(pre, size, alignment).addr,
            granted(pre, size, alignment).size,
            post,
        ),
    ensures
        post.grants(size, alignment),
        post.answer(size, alignment) == pre.answer(size, alignment),
{
    let t = pre.tree();
    let u = mid.tree();
    let v = post.tree();
    let b = granted(pre, size, alignment);
    let i = pre.claim_index(size, alignment);
    let l = t.size_level(b.size);
    let start = t.find_index(b.size, false);
    law_round_trip(pre, size, alignment, mid, post);
    lemma_multiple(size as int, PAGE_SIZE as int);
    t.lemma_count();
    t.lemma_fits(b.size);
    t.lemma_leaves_of(i, l);
    lemma_block_node(u, i, b);
    assert(holds(u, b));
    lemma_owed(mid, b);
    lemma_level_is_row(l);
    lemma_pow2_pos((t.level - 1) as nat);
    assert forall|x: int| level_first(l) <= x <= start implies #[trigger] v.bitmap@[x]
        == t.bitmap@[x] by {
        if in_subtree(x, i) && x != i {
            let k = lemma_subtree_in_row(x, i);
            lemma_row_zero(i);
            lemma_row_step(i, 0);
            lemma_row_mono(i, 1, k);
            lemma_level_is_row(l + 1);
            lemma_pow2_step((l - 1) as nat);
        }
    }
    assert forall|x: int|
        t.leaf_first() <= x < t.first_leaf(i, l) + t.block_leaves(l) implies #[trigger] v.bitmap@[x]
        == t.bitmap@[x] by {
        t.lemma_subtree_leaves(i, l, x);
        if in_subtree(x, i) {
            assert(t.bitmap@[t.first_leaf(i, l) + (x - t.first_leaf(i, l))] == false);
        }
    }
    law_first_fit(pre, post, size, alignment);
}

/// A block that was taken back is not taken back again: the second call
/// is refused with `NotFound` and changes nothing.
pub proof fn law_no_second_return(
    pre: BuddyAllocator,
    addr: usize,
    size: usize,
    post: BuddyAllocator,
)
    requires
        pre.wf(),
        pre.releases(addr, size),
        pre.after_deallocate(addr, size, post),
    ensures
        !post.releases(addr, size),
        post.reply(addr, size) == Err::<usize, BuddyErr>(BuddyErr::NotFound),
{
    let t = pre.tree();
    let u = post.tree();
    let i = pre.match_index(addr, size);
    let l = t.size_level(size);
    t.lemma_fits(size);
    t.lemma_leaves_of(i, l);
    t.lemma_count();
    assert(in_subtree(i, i));
    assert(!u.bitmap@[i]);
    let j = post.match_index(addr, size);
    if u.matched(size, addr, true, j) {
        assert(u.wf());
        u.lemma_addr_unique(i, j, l);
    }
}

} // verus!
