//! Facts about the buddy tree that its callers build on.
use vstd::prelude::*;
use vstd::arithmetic::power2::{pow2, lemma_pow2_pos, lemma2_to64};
use super::def::{MAX_LEAVES, MAX_LEVEL, MAX_NODES, MIN_SIZE};
use super::shape::{
    in_row,
    in_subtree,
    level_first,
    lemma_level_is_row,
    lemma_order,
    lemma_order_mono,
    lemma_order_pow2,
    lemma_pow2_mono,
    lemma_pow2_step,
    lemma_row_in_level,
    lemma_row_in_subtree,
    lemma_row_mono,
    lemma_subtree_in_row,
    lemma_subtree_trans,
};
use super::tally::{count_free, lemma_count_bound, lemma_count_flip};
use super::tree::{block_bytes, BinTree};

verus! {

impl BinTree {
    /// A tree of at most `MAX_LEVEL` levels has at most `MAX_NODES` nodes.
    pub proof fn lemma_count(&self)
        requires
            self.level <= MAX_LEVEL,
        ensures
            self.count() <= MAX_NODES,
            self.leaves() <= MAX_LEAVES,
            self.level >= 1 ==> self.count() == 2 * self.leaves() - 1 && self.leaf_first()
                == self.leaves() - 1,
    {
        lemma2_to64();
        lemma_pow2_mono(self.level as nat, 11);
        if self.level >= 1 {
            lemma_pow2_mono((self.level - 1) as nat, 10);
            lemma_pow2_step((self.level - 1) as nat);
        }
    }

    /// A tree that has a block for `size` bytes has a level for it.
    pub proof fn lemma_fits(&self, size: usize)
        requires
            self.fits(size),
            self.level <= MAX_LEVEL,
        ensures
            1 <= self.size_level(size) <= self.level,
            size / MIN_SIZE <= self.block_leaves(self.size_level(size)),
    {
        let pages = (size / MIN_SIZE) as nat;
        lemma_order_mono(pages, self.leaves());
        lemma_order_pow2((self.level - 1) as nat);
        lemma_order(pages);
    }

    /// The leaves under a node of level `l` are nodes of the tree: the
    /// `j`-th node of the level has the leaves from `j * 2^(level - l)` on.
    pub proof fn lemma_leaves_of(&self, i: int, l: int)
        requires
            self.on_level(i, l),
        ensures
            self.first_leaf(i, l) == self.leaf_first() + (i - level_first(l)) * self.block_leaves(l),
            self.leaf_first() <= self.first_leaf(i, l),
            self.first_leaf(i, l) + self.block_leaves(l) <= self.count(),
            0 <= i < self.count(),
    {
        let j = i - level_first(l);
        let d = (self.level - l) as nat;
        lemma_level_is_row(l);
        lemma_level_is_row(self.level as int);
        lemma_row_in_level(l, j, d);
        lemma_row_mono(0, (l - 1) as nat, (self.level - 1) as nat);
        lemma_row_mono(0, l as nat, self.level as nat);
        lemma_level_is_row(l + 1);
        lemma_level_is_row(self.level as int + 1);
        assert(j * pow2(d) >= 0) by (nonlinear_arith)
            requires
                j >= 0,
                pow2(d) >= 0,
        ;
    }

    /// The leaves of the subtree of a node are the leaves under it.
    pub proof fn lemma_subtree_leaves(&self, i: int, l: int, x: int)
        requires
            self.on_level(i, l),
            self.leaf_first() <= x < self.count(),
        ensures
            in_subtree(x, i) <==> self.first_leaf(i, l) <= x < self.first_leaf(i, l)
                + self.block_leaves(l),
    {
        let d = (self.level - l) as nat;
        let j = i - level_first(l);
        lemma_level_is_row(l);
        lemma_level_is_row(self.level as int);
        if in_row(x, i, d) {
            lemma_row_in_subtree(x, i, d);
        }
        if in_subtree(x, i) {
            let k = lemma_subtree_in_row(x, i);
            lemma_row_in_level(l, j, k);
            if k < d {
                lemma_level_is_row(l + k + 1);
                lemma_row_mono(0, (l + k) as nat, (self.level - 1) as nat);
            }
            if k > d {
                lemma_level_is_row(l + k);
                lemma_row_mono(0, self.level as nat, (l + k - 1) as nat);
                assert(j * pow2(k) >= 0) by (nonlinear_arith)
                    requires
                        j >= 0,
                        pow2(k) >= 0,
                ;
            }
        }
    }

    /// Below every node of the tree in the subtree of node `i` lies a leaf,
    /// which is one of the leaves under `i`.
    pub proof fn lemma_leaf_below(&self, i: int, l: int, x: int) -> (y: int)
        requires
            self.on_level(i, l),
            in_subtree(x, i),
            x < self.count(),
        ensures
            in_subtree(y, x),
            self.first_leaf(i, l) <= y < self.first_leaf(i, l) + self.block_leaves(l),
            self.leaf_first() <= y < self.count(),
    {
        let j = i - level_first(l);
        let k = lemma_subtree_in_row(x, i);
        lemma_level_is_row(l);
        lemma_row_in_level(l, j, k);
        // `x` is a node of level `l + k`, which is a level of the tree.
        if l + k > self.level {
            lemma_level_is_row(l + k);
            lemma_level_is_row(self.level as int);
            lemma_row_mono(0, self.level as nat, (l + k - 1) as nat);
            assert(j * pow2(k) >= 0) by (nonlinear_arith)
                requires
                    j >= 0,
                    pow2(k) >= 0,
            ;
        }
        assert(self.on_level(x, l + k)) by {
            assert(j * pow2(k) >= 0) by (nonlinear_arith)
                requires
                    j >= 0,
                    pow2(k) >= 0,
            ;
        }
        let y = self.first_leaf(x, l + k);
        self.lemma_leaves_of(x, l + k);
        lemma_pow2_pos((self.level - l - k) as nat);
        lemma_row_in_subtree(y, x, (self.level - l - k) as nat);
        lemma_subtree_trans(y, x, i);
        self.lemma_subtree_leaves(i, l, y);
        y
    }

    /// The address of a node is the address of the first leaf under it, and
    /// the leaves lie one page after the other from the root's address on.
    pub proof fn lemma_block_addr(&self, i: int, l: int)
        requires
            self.wf(),
            self.on_level(i, l),
        ensures
            self.nodes@[i] == self.root() + (self.first_leaf(i, l) - self.leaf_first()) * MIN_SIZE,
            block_bytes(self.level as int, l) == self.block_leaves(l) * MIN_SIZE,
            0 <= self.first_leaf(i, l) - self.leaf_first(),
            0 <= i < MAX_NODES,
    {
        let j = i - level_first(l);
        let p = self.block_leaves(l) as int;
        self.lemma_leaves_of(i, l);
        self.lemma_count();
        lemma_level_is_row(l);
        assert(self.nodes@[level_first(l) + j] == self.root() + j * block_bytes(
            self.level as int,
            l,
        ));
        assert(j * (p * MIN_SIZE) == (j * p) * MIN_SIZE) by (nonlinear_arith);
    }

    /// The two children of a node are the two halves of its block: the
    /// left child begins where the block begins, and the right child begins
    /// where the left child ends and ends where the block ends.
    pub proof fn lemma_children(&self, i: int, l: int)
        requires
            self.wf(),
            self.on_level(i, l),
            l < self.level,
        ensures
            self.on_level(2 * i + 1, l + 1),
            self.on_level(2 * i + 2, l + 1),
            self.nodes@[2 * i + 1] == self.nodes@[i],
            self.nodes@[2 * i + 2] == self.nodes@[i] + block_bytes(self.level as int, l + 1),
            block_bytes(self.level as int, l) == 2 * block_bytes(self.level as int, l + 1),
    {
        let j = i - level_first(l);
        let half = block_bytes(self.level as int, l + 1);
        lemma_level_is_row(l);
        lemma_level_is_row(l + 1);
        lemma_pow2_step((l - 1) as nat);
        lemma_pow2_step((self.level - l - 1) as nat);
        assert(self.nodes@[level_first(l) + j] == self.root() + j * block_bytes(
            self.level as int,
            l,
        ));
        assert(self.nodes@[level_first(l + 1) + 2 * j] == self.root() + (2 * j) * half);
        assert(self.nodes@[level_first(l + 1) + (2 * j + 1)] == self.root() + (2 * j + 1) * half);
        assert(block_bytes(self.level as int, l) == 2 * half) by (nonlinear_arith)
            requires
                block_bytes(self.level as int, l) == (2 * pow2((self.level - l - 1) as nat))
                    * MIN_SIZE,
                half == pow2((self.level - l - 1) as nat) * MIN_SIZE,
        ;
        assert(j * (2 * half) == (2 * j) * half) by (nonlinear_arith);
        assert((2 * j + 1) * half == (2 * j) * half + half) by (nonlinear_arith);
    }

    /// The nodes of one level have different addresses.
    pub proof fn lemma_addr_unique(&self, i: int, k: int, l: int)
        requires
            self.wf(),
            self.on_level(i, l),
            self.on_level(k, l),
            self.nodes@[i] == self.nodes@[k],
        ensures
            i == k,
    {
        let p = self.block_leaves(l) as int;
        let a = i - level_first(l);
        let b = k - level_first(l);
        self.lemma_block_addr(i, l);
        self.lemma_block_addr(k, l);
        self.lemma_leaves_of(i, l);
        self.lemma_leaves_of(k, l);
        lemma_pow2_pos((self.level - l) as nat);
        assert(a * p == b * p) by (nonlinear_arith)
            requires
                (a * p) * MIN_SIZE == (b * p) * MIN_SIZE,
                MIN_SIZE == 4096,
        ;
        assert(a == b) by (nonlinear_arith)
            requires
                a * p == b * p,
                p > 0,
        ;
    }

    /// A search returns at most one node.
    pub proof fn lemma_found_unique(&self, size: usize, used: bool, i: int, j: int)
        requires
            self.found(size, used, i),
            self.found(size, used, j),
        ensures
            i == j,
            self.find_index(size, used) == i,
    {
        let k = self.find_index(size, used);
        assert(self.found(size, used, k));
    }

    /// Where a node matches a search, the search finds a node: the first
    /// that matches.
    pub proof fn lemma_find_exists(&self, size: usize, used: bool, i: int) -> (s: int)
        requires
            self.fits(size),
            self.on_level(i, self.size_level(size)),
            self.matches(i, self.size_level(size), (size / MIN_SIZE) as int, used),
        ensures
            self.found(size, used, s),
            s <= i,
            s == self.find_index(size, used),
        decreases i,
    {
        let l = self.size_level(size);
        let pages = (size / MIN_SIZE) as int;
        lemma_level_is_row(l);
        if exists|k: int| level_first(l) <= k < i && self.matches(k, l, pages, used) {
            let k = choose|k: int| level_first(l) <= k < i && self.matches(k, l, pages, used);
            self.lemma_find_exists(size, used, k)
        } else {
            assert(self.found(size, used, i));
            self.lemma_found_unique(size, used, i, i);
            i
        }
    }

    /// Marking the subtree of a node whose leaves are all free as used takes
    /// the leaves under the node from the free leaves; marking one whose
    /// leaves are all used as free adds them.
    pub proof fn lemma_marked_leaves(&self, i: int, l: int, used: bool)
        requires
            self.level <= MAX_LEVEL,
            self.on_level(i, l),
            self.run(self.first_leaf(i, l), self.block_leaves(l) as int, !used),
        ensures
            used ==> count_free(self.marked(i, used), self.leaf_first(), self.count())
                + self.block_leaves(l) == self.free_leaves(),
            !used ==> count_free(self.marked(i, used), self.leaf_first(), self.count())
                == self.free_leaves() + self.block_leaves(l),
            self.free_leaves() <= self.leaves(),
    {
        let left = self.first_leaf(i, l);
        let pages = self.block_leaves(l) as int;
        let after = self.marked(i, used);
        self.lemma_leaves_of(i, l);
        self.lemma_count();
        self.bitmap.lemma_len();
        assert forall|x: int| left <= x < left + pages implies #[trigger] self.bitmap@[x]
            == !used by {
            assert(self.bitmap@[left + (x - left)] == !used);
        }
        assert forall|x: int| left <= x < left + pages implies #[trigger] after[x] == used by {
            self.lemma_subtree_leaves(i, l, x);
        }
        assert forall|x: int|
            self.leaf_first() <= x < self.count() && !(left <= x < left + pages) implies #[trigger] after[x]
            == self.bitmap@[x] by {
            self.lemma_subtree_leaves(i, l, x);
        }
        lemma_count_flip(
            self.bitmap@,
            after,
            self.leaf_first(),
            self.count(),
            left,
            left + pages,
            used,
        );
        lemma_count_bound(self.bitmap@, self.leaf_first(), self.count());
        lemma_count_bound(after, self.leaf_first(), self.count());
    }
}

} // verus!
