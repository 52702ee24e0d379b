//! The buddy tree: a complete binary tree of blocks over one arena.
//!
//! Node 0 is the whole arena. The children of a node are the two halves of
//! its block, so the nodes of level `l` are blocks of `2^(levels - l)` leaves
//! each, in the order of their addresses. Each node has one bit in the
//! tree's [`TreeMap`]; a set bit marks the node as used.
//!
//! A search never trusts the bit of a node alone: a node is taken as free
//! only if the leaves under it are free, and as used only if they are used.
use vstd::prelude::*;
use vstd::arithmetic::power2::{pow2, lemma_pow2_adds, lemma_pow2_pos, lemma2_to64};
use vstd::bits::{lemma_usize_shl_is_mul, lemma_usize_pow2_no_overflow};
use crate::def::{align_down, lemma_multiple};
use super::def::{MAX_LEAVES, MAX_LEVEL, MAX_NODES, MAX_SIZE, MIN_SIZE};
use super::shape::{
    in_row,
    in_rows,
    in_subtree,
    level_first,
    node_count,
    order,
    parent,
    row_first,
    lemma_level_is_row,
    lemma_order,
    lemma_order_pow2,
    lemma_order_unique,
    lemma_pow2_mono,
    lemma_pow2_step,
    lemma_row_fits,
    lemma_row_mono,
    lemma_row_step,
    lemma_row_zero,
    lemma_rows,
};
use super::tally::count_free;
use super::treemap::TreeMap;

verus! {

/// Why a tree could not do what was asked.
#[derive(Debug, Clone, Copy, PartialEq, Eq, Structural)]
pub enum TreeErr {
    /// The size holds no block at all.
    NotEnough,
    /// No node is as the search asks.
    NotFound,
    /// The size is above the largest block.
    WrongSize,
}

/// A complete binary tree of blocks.
#[derive(Debug)]
pub struct BinTree {
    /// The number of levels; 0 before the tree is set up.
    pub level: usize,
    /// The address of the block of each node.
    pub nodes: [usize; MAX_NODES],
    /// One bit for each node; a set bit marks the node as used.
    pub bitmap: TreeMap,
}

/// The size in bytes of a block of level `l` in a tree of `levels` levels.
pub open spec fn block_bytes(levels: int, l: int) -> int {
    pow2((levels - l) as nat) * MIN_SIZE
}

/// Whether the addresses `nodes` of the first `upto` levels of a tree of
/// `levels` levels are those of blocks that lie side by side from `root` on.
pub open spec fn side_by_side(nodes: Seq<usize>, root: int, levels: int, upto: int) -> bool {
    forall|l: int, j: int|
        1 <= l <= upto && 0 <= j < pow2((l - 1) as nat) ==> #[trigger] nodes[level_first(l) + j]
            == root + j * block_bytes(levels, l)
}

impl BinTree {
    /// The address of the arena, which is that of the root.
    pub open spec fn root(&self) -> int {
        self.nodes@[0] as int
    }

    /// The tree has at most `MAX_LEVEL` levels, and the blocks of each level
    /// lie side by side from the root's address on.
    pub open spec fn wf(&self) -> bool {
        &&& self.level <= MAX_LEVEL
        &&& side_by_side(self.nodes@, self.root(), self.level as int, self.level as int)
    }

    /// The number of leaves: `2^(level - 1)`, and none before the tree is set up.
    pub open spec fn leaves(&self) -> nat {
        if self.level == 0 {
            0
        } else {
            pow2((self.level - 1) as nat)
        }
    }

    /// The index of the first leaf.
    pub open spec fn leaf_first(&self) -> int {
        level_first(self.level as int)
    }

    /// The number of nodes: `2^level - 1`.
    pub open spec fn count(&self) -> int {
        node_count(self.level as int)
    }

    /// The level of the smallest block that holds `size` bytes. It is below 1
    /// where the tree has no block that large.
    pub open spec fn size_level(&self, size: usize) -> int {
        self.level - order((size / MIN_SIZE) as nat)
    }

    /// Whether the tree has a block that holds `size` bytes.
    pub open spec fn fits(&self, size: usize) -> bool {
        size <= MAX_SIZE && size / MIN_SIZE <= self.leaves() && self.level >= 1
    }

    /// Whether node `i` is a node of level `l`.
    pub open spec fn on_level(&self, i: int, l: int) -> bool {
        1 <= l <= self.level && level_first(l) <= i < level_first(l + 1)
    }

    /// The first leaf under node `i` of level `l`.
    pub open spec fn first_leaf(&self, i: int, l: int) -> int {
        row_first(i, (self.level - l) as nat)
    }

    /// The number of leaves under a node of level `l`.
    pub open spec fn block_leaves(&self, l: int) -> nat {
        pow2((self.level - l) as nat)
    }

    /// Whether the `n` bits from `i` on are all `used`.
    pub open spec fn run(&self, i: int, n: int, used: bool) -> bool {
        forall|k: int| 0 <= k < n ==> #[trigger] self.bitmap@[i + k] == used
    }

    /// The number of free leaves.
    pub open spec fn free_leaves(&self) -> nat {
        if self.level == 0 {
            0
        } else {
            count_free(self.bitmap@, self.leaf_first(), self.count())
        }
    }

    /// Whether node `i` of level `l` is as a search for `pages` pages asks:
    /// its own bit is `used`, and so are the first `pages` leaves under it.
    pub open spec fn matches(&self, i: int, l: int, pages: int, used: bool) -> bool {
        self.bitmap@[i] == used && self.run(self.first_leaf(i, l), pages, used)
    }

    /// Whether node `i` is the first node that a search for `size` bytes
    /// accepts: the first on the level of `size` that `matches`.
    pub open spec fn found(&self, size: usize, used: bool, i: int) -> bool {
        let l = self.size_level(size);
        let pages = (size / MIN_SIZE) as int;
        &&& self.fits(size)
        &&& self.on_level(i, l)
        &&& self.matches(i, l, pages, used)
        &&& forall|k: int| level_first(l) <= k < i ==> !self.matches(k, l, pages, used)
    }

    /// Whether a search for `size` bytes accepts no node.
    pub open spec fn none_found(&self, size: usize, used: bool) -> bool {
        let l = self.size_level(size);
        let pages = (size / MIN_SIZE) as int;
        &&& self.fits(size)
        &&& forall|k: int| self.on_level(k, l) ==> !self.matches(k, l, pages, used)
    }

    /// The node that a search for `size` bytes returns, where it returns one.
    pub open spec fn find_index(&self, size: usize, used: bool) -> int {
        choose|i: int| self.found(size, used, i)
    }

    /// Whether node `i` is what a search for the block of `size` bytes at
    /// the address `value` returns: the first node from `find_index` on, on
    /// the same level, whose address is `value`.
    pub open spec fn matched(&self, size: usize, value: usize, used: bool, i: int) -> bool {
        let start = self.find_index(size, used);
        &&& self.found(size, used, start)
        &&& start <= i
        &&& self.on_level(i, self.size_level(size))
        &&& self.nodes@[i] == value
        &&& forall|k: int| start <= k < i ==> self.nodes@[k] != value
    }

    /// Whether a search for the block of `size` bytes at `value` returns no
    /// node: `find` has none, or no node from `find_index` on has the address.
    pub open spec fn none_matched(&self, size: usize, value: usize, used: bool) -> bool {
        let start = self.find_index(size, used);
        let l = self.size_level(size);
        ||| self.none_found(size, used)
        ||| (self.found(size, used, start) && forall|k: int|
            start <= k < level_first(l + 1) ==> self.nodes@[k] != value)
    }

    /// The bits after every node of the tree in the subtree of `idx` is
    /// marked as `used`.
    pub open spec fn marked(&self, idx: int, used: bool) -> Seq<bool> {
        Seq::new(
            MAX_NODES as nat,
            |i: int|
                if i < self.count() && in_subtree(i, idx) {
                    used
                } else {
                    self.bitmap@[i]
                },
        )
    }

    /// Whether `post` is this tree after every node of the tree in the
    /// subtree of `idx` was marked as `used`.
    pub open spec fn marks(&self, idx: int, used: bool, post: BinTree) -> bool {
        &&& post.bitmap@ == self.marked(idx, used)
        &&& post.level == self.level
        &&& post.nodes == self.nodes
    }

    /// Whether the tree is as `init` leaves it for an arena of `leaf_count`
    /// pages at `root`: it has the fewest levels that give that many leaves,
    /// its blocks lie from `root` on, and the free nodes are all the nodes
    /// before the leaf with the number `leaf_count`. The leaves from that one
    /// on stand for no memory of the arena.
    pub open spec fn set_up(&self, root: usize, leaf_count: nat) -> bool {
        &&& self.level == order(leaf_count) + 1
        &&& self.wf()
        &&& self.root() == root
        &&& self.bitmap@ == Seq::new(
            MAX_NODES as nat,
            |i: int| i >= self.leaf_first() + leaf_count,
        )
    }
}

impl BinTree {
    /// A tree that is not set up: no level, every address 0, every bit clear.
    pub fn new() -> (r: Self)
        ensures
            r.level == 0,
            r.wf(),
            forall|i: int| 0 <= i < MAX_NODES ==> r.nodes@[i] == 0 && !r.bitmap@[i],
    {
        BinTree { nodes: [0usize; MAX_NODES], bitmap: TreeMap::new(), level: 0 }
    }

    /// Sets the tree up for the `size / MIN_SIZE` whole pages of the arena at
    /// `root`, and returns their number. The number of leaves is the next
    /// power of two; the leaves beyond the arena are marked as used, and the
    /// addresses of all leaves, those too, must be addresses of the machine.
    /// A size below one page is refused, and the tree stays as it was.
    pub fn init(&mut self, root: usize, size: usize) -> (r: Result<usize, TreeErr>)
        requires
            size / MIN_SIZE <= MAX_LEAVES,
            size / MIN_SIZE > 0 ==> root + pow2(order((size / MIN_SIZE) as nat)) * MIN_SIZE
                <= usize::MAX,
        ensures
            size / MIN_SIZE == 0 ==> r == Err::<usize, TreeErr>(TreeErr::NotEnough) && *final(self)
                == *old(self),
            size / MIN_SIZE > 0 ==> r == Ok::<usize, TreeErr>(size / MIN_SIZE)
                && final(self).set_up(root, (size / MIN_SIZE) as nat),
    {
        let mem_size: usize = align_down(size, MIN_SIZE);
        let leaf_counts: usize = mem_size / MIN_SIZE;
        proof {
            lemma_multiple(size as int, MIN_SIZE as int);
            lemma2_to64();
        }
        if leaf_counts == 0 {
            return Err(TreeErr::NotEnough);
        }
        // The next power of two, and the number of levels that it takes.

        let mut tmp_leaf: usize = 1;
        let mut levels: usize = 1;
        while tmp_leaf < leaf_counts
            invariant
                1 <= levels <= MAX_LEVEL,
                tmp_leaf == pow2((levels - 1) as nat),
                levels > 1 ==> pow2((levels - 2) as nat) < leaf_counts,
                leaf_counts <= MAX_LEAVES,
            decreases MAX_LEVEL - levels,
        {
            proof {
                lemma2_to64();
                lemma_pow2_step((levels - 1) as nat);
                if levels >= MAX_LEVEL {
                    lemma_pow2_mono(10, (levels - 1) as nat);
                }
            }
            tmp_leaf = tmp_leaf * 2;
            levels = levels + 1;
        }
        proof {
            lemma_order_unique(leaf_counts as nat, (levels - 1) as nat);
            lemma_pow2_mono((levels - 1) as nat, 10);
            lemma_pow2_step((levels - 1) as nat);
        }
        let tmp_size: usize = tmp_leaf * MIN_SIZE;
        let node_counts: usize = tmp_leaf * 2 - 1;

        // Every node starts as used; a node that gets a block becomes free.
        self.bitmap.set_bit_all();
        self.level = 0;
        let mut cur_size: usize = tmp_size;
        let mut width: usize = 1;
        let mut counts: usize = 0;
        while counts < node_counts
            invariant
                1 <= levels <= MAX_LEVEL,
                self.level <= levels,
                tmp_leaf == pow2((levels - 1) as nat),
                tmp_size == tmp_leaf * MIN_SIZE,
                node_counts == node_count(levels as int),
                node_counts <= MAX_NODES,
                root + tmp_size <= usize::MAX,
                counts == node_count(self.level as int),
                width == pow2(self.level as nat),
                self.level < levels ==> cur_size == block_bytes(levels as int, self.level + 1),
                self.level >= 1 ==> self.nodes@[0] == root,
                side_by_side(self.nodes@, root as int, levels as int, self.level as int),
                self.bitmap@ == Seq::new(MAX_NODES as nat, |i: int| i >= counts),
            decreases levels - self.level,
        {
            let ghost l0 = self.level + 1;
            let ghost first = counts as int;
            let ghost before = self.nodes@;
            proof {
                if self.level >= levels {
                    lemma_pow2_mono(levels as nat, self.level as nat);
                }
                lemma_level_is_row(l0);
                lemma_pow2_step(self.level as nat);
                lemma_pow2_adds(
                    self.level as nat,
                    (levels - l0) as nat,
                );
                lemma_pow2_pos((levels - l0) as nat);
                assert(pow2(self.level as nat) * pow2((levels - l0) as nat) * MIN_SIZE == width
                    * cur_size) by (nonlinear_arith)
                    requires
                        width == pow2(self.level as nat),
                        cur_size == pow2((levels - l0) as nat) * MIN_SIZE,
                ;
                lemma_pow2_mono(l0 as nat, levels as nat);
            }
            let mut current: usize = root;
            let ghost mut j: int = 0;
            while current < root + tmp_size
                invariant
                    self.level + 1 == l0,
                    l0 <= levels <= MAX_LEVEL,
                    root + tmp_size <= usize::MAX,
                    tmp_size == width * cur_size,
                    cur_size > 0,
                    width == pow2((l0 - 1) as nat),
                    first == level_first(l0),
                    first + width == node_count(l0),
                    node_count(l0) <= node_counts <= MAX_NODES,
                    cur_size == block_bytes(levels as int, l0),
                    0 <= j <= width,
                    counts == first + j,
                    current == root + j * cur_size,
                    l0 > 1 ==> self.nodes@[0] == root,
                    j > 0 ==> self.nodes@[0] == root,
                    forall|k: int| 0 <= k < first ==> self.nodes@[k] == before[k],
                    forall|k: int|
                        0 <= k < j ==> #[trigger] self.nodes@[first + k] == root + k * cur_size,
                    self.bitmap@ == Seq::new(MAX_NODES as nat, |i: int| i >= counts),
                decreases width - j,
            {
                proof {
                    assert(j < width) by (nonlinear_arith)
                        requires
                            j * cur_size < width * cur_size,
                            cur_size > 0,
                    ;
                    assert((j + 1) * cur_size == j * cur_size + cur_size) by (nonlinear_arith);
                    assert((j + 1) * cur_size <= width * cur_size) by (nonlinear_arith)
                        requires
                            j + 1 <= width,
                            cur_size > 0,
                    ;
                    if l0 == 1 {
                        lemma2_to64();
                    }
                }
                self.nodes[counts] = current;
                self.bitmap.unset_bit(counts);
                proof {
                    assert(self.bitmap@ =~= Seq::new(MAX_NODES as nat, |i: int| i >= counts + 1));
                    j = j + 1;
                }
                current += cur_size;
                counts += 1;
            }
            proof {
                assert(j == width) by (nonlinear_arith)
                    requires
                        j * cur_size >= width * cur_size,
                        j <= width,
                        cur_size > 0,
                ;
                assert forall|l: int, k: int|
                    1 <= l <= l0 && 0 <= k < pow2((l - 1) as nat) implies #[trigger] self.nodes@[level_first(
                    l,
                ) + k] == root + k * block_bytes(levels as int, l) by {
                    if l < l0 {
                        lemma_level_is_row(l);
                        lemma_row_mono(0, l as nat, (l0 - 1) as nat);
                        assert(before[level_first(l) + k] == root + k * block_bytes(
                            levels as int,
                            l,
                        ));
                    }
                }
                assert(side_by_side(self.nodes@, root as int, levels as int, l0));
                if l0 < levels {
                    lemma_pow2_step((levels - l0 - 1) as nat);
                    assert(cur_size >> 1 == cur_size / 2) by (bit_vector);
                    assert((2 * pow2((levels - l0 - 1) as nat)) * MIN_SIZE == 2 * (pow2(
                        (levels - l0 - 1) as nat,
                    ) * MIN_SIZE)) by (nonlinear_arith);
                }
                lemma_pow2_step((l0 - 1) as nat);
                lemma_pow2_mono(l0 as nat, levels as nat);
            }
            cur_size >>= 1;
            self.level += 1;
            width = width * 2;
        }
        proof {
            if self.level < levels {
                lemma_pow2_mono((self.level + 1) as nat, levels as nat);
                lemma_pow2_step(self.level as nat);
            }
            lemma_level_is_row(levels as int);
        }

        // The leaves beyond the arena stand for no memory: they stay used.
        if tmp_leaf > leaf_counts {
            proof {
                lemma_order_pow2((levels - 1) as nat);
                lemma_order(1);
            }
            let level: usize = self.get_level(MIN_SIZE);
            let idx: usize = self.get_index(level);
            let mut i: usize = idx + leaf_counts;
            while i < idx + tmp_leaf
                invariant
                    idx + leaf_counts <= i <= idx + tmp_leaf,
                    idx + tmp_leaf == node_counts,
                    node_counts <= MAX_NODES,
                    self.level == levels,
                    self.nodes@[0] == root,
                    side_by_side(self.nodes@, root as int, levels as int, levels as int),
                    self.bitmap@ == Seq::new(
                        MAX_NODES as nat,
                        |x: int| x >= node_counts || idx + leaf_counts <= x < i,
                    ),
                decreases idx + tmp_leaf - i,
            {
                self.bitmap.set_bit(i);
                proof {
                    assert(self.bitmap@ =~= Seq::new(
                        MAX_NODES as nat,
                        |x: int| x >= node_counts || idx + leaf_counts <= x < i + 1,
                    ));
                }
                i += 1;
            }
        }
        proof {
            assert(self.bitmap@ =~= Seq::new(
                MAX_NODES as nat,
                |i: int| i >= self.leaf_first() + leaf_counts,
            ));
        }
        Ok(leaf_counts)
    }

    /// The level of the smallest block that holds `size` bytes: the lowest
    /// level for one page or less, and one level up for each doubling.
    pub fn get_level(&self, size: usize) -> (r: usize)
        requires
            self.level <= MAX_LEVEL,
            order((size / MIN_SIZE) as nat) <= self.level,
        ensures
            r == self.size_level(size),
            size / MIN_SIZE <= pow2((self.level - r) as nat),
            r < self.level ==> pow2((self.level - r - 1) as nat) < size / MIN_SIZE,
    {
        let mut index_size: usize = align_down(size, MIN_SIZE);
        let mut level: usize = self.level;
        let ghost pages = (size / MIN_SIZE) as nat;
        let ghost mut k: nat = 0;
        proof {
            lemma2_to64();
            lemma_multiple(size as int, MIN_SIZE as int);
            lemma_order(pages);
        }
        while index_size > MIN_SIZE
            invariant
                self.level <= MAX_LEVEL,
                order(pages) <= self.level,
                k <= order(pages),
                level == self.level - k,
                index_size == pages * pow2((12 - k) as nat),
                k > 0 ==> pow2((k - 1) as nat) < pages,
            decreases index_size,
        {
            proof {
                let rest = pow2((12 - k) as nat) as int;
                lemma2_to64();
                lemma_pow2_adds(k, (12 - k) as nat);
                lemma_order(pages);
                if pages <= pow2(k) {
                    assert(pages * rest <= pow2(k) * rest) by (nonlinear_arith)
                        requires
                            pages <= pow2(k),
                            rest >= 0,
                    ;
                }
                if order(pages) <= k {
                    lemma_pow2_mono(order(pages), k);
                }
                lemma_pow2_step((11 - k) as nat);
                assert(pages * (2 * pow2((11 - k) as nat)) == 2 * (pages * pow2((11 - k) as nat)))
                    by (nonlinear_arith);
                assert(index_size >> 1 == index_size / 2) by (bit_vector);
                k = k + 1;
            }
            index_size >>= 1;
            level -= 1;
        }
        proof {
            let rest = pow2((12 - k) as nat) as int;
            lemma2_to64();
            lemma_pow2_adds(k, (12 - k) as nat);
            lemma_pow2_pos((12 - k) as nat);
            assert(pages <= pow2(k)) by (nonlinear_arith)
                requires
                    pages * rest <= pow2(k) * rest,
                    rest > 0,
            ;
            lemma_order_unique(pages, k);
        }
        level
    }

    /// The index of the first node of `level`.
    pub fn get_index(&self, level: usize) -> (r: usize)
        requires
            1 <= level <= usize::BITS,
        ensures
            r == level_first(level as int),
    {
        let shift: usize = level - 1;
        proof {
            lemma_usize_pow2_no_overflow(shift as nat);
            lemma_usize_shl_is_mul(1usize, shift);
        }
        (1usize << shift) - 1
    }

    /// The address of the block of node `idx`.
    pub fn get_value(&self, idx: usize) -> (r: usize)
        requires
            idx < MAX_NODES,
        ensures
            r == self.nodes@[idx as int],
    {
        self.nodes[idx]
    }

    /// The first leaf under node `idx` of `level`.
    pub fn left_leaf(&self, idx: usize, level: usize) -> (r: usize)
        requires
            self.level <= MAX_LEVEL,
            self.on_level(idx as int, level as int),
        ensures
            r == self.first_leaf(idx as int, level as int),
            r + self.block_leaves(level as int) <= self.count(),
    {
        let shift: usize = self.level - level;
        proof {
            self.lemma_leaves_of(idx as int, level as int);
            self.lemma_count();
            lemma_pow2_pos(shift as nat);
            lemma_usize_shl_is_mul((idx + 1) as usize, shift);
        }
        ((idx + 1) << shift) - 1
    }

    /// The first node on the level of `size` whose bit is `is_used` and under
    /// which the first `size / MIN_SIZE` leaves are all `is_used`.
    pub fn find(&self, size: usize, is_used: bool) -> (r: Result<usize, TreeErr>)
        requires
            self.level <= MAX_LEVEL,
        ensures
            match r {
                Ok(i) => self.found(size, is_used, i as int),
                Err(TreeErr::NotFound) => self.none_found(size, is_used),
                Err(TreeErr::WrongSize) => !self.fits(size),
                Err(TreeErr::NotEnough) => false,
            },
    {
        if size > MAX_SIZE || self.level == 0 {
            return Err(TreeErr::WrongSize);
        }
        proof {
            self.lemma_count();
        }
        let pages: usize = size / MIN_SIZE;
        let leaves: usize = self.get_index(self.level) + 1;
        if pages > leaves {
            return Err(TreeErr::WrongSize);
        }
        proof {
            self.lemma_fits(size);
            self.lemma_count();
        }
        let level: usize = self.get_level(size);
        let end: usize = self.get_index(level + 1);
        let mut idx: usize = self.get_index(level);
        proof {
            lemma_level_is_row(level as int);
        }
        while idx < end
            invariant
                self.level <= MAX_LEVEL,
                self.fits(size),
                level == self.size_level(size),
                1 <= level <= self.level,
                pages == size / MIN_SIZE,
                pages <= self.block_leaves(level as int),
                end == level_first(level + 1),
                level_first(level as int) <= idx <= end,
                forall|k: int|
                    level_first(level as int) <= k < idx ==> !self.matches(
                        k,
                        level as int,
                        pages as int,
                        is_used,
                    ),
            decreases end - idx,
        {
            proof {
                self.lemma_leaves_of(idx as int, level as int);
                self.lemma_count();
            }
            if self.bitmap.is_empty(idx) != is_used {
                let left: usize = self.left_leaf(idx, level);
                if is_used && self.can_free(left, pages) || !is_used && self.can_use(left, pages) {
                    return Ok(idx);
                }
            }
            idx += 1;
        }
        Err(TreeErr::NotFound)
    }

    /// The node that holds the block of `size` bytes at the address `value`:
    /// the first node with that address from the one that `find` returns on.
    pub fn find_match(&self, size: usize, value: usize, is_used: bool) -> (r: Result<
        usize,
        TreeErr,
    >)
        requires
            self.level <= MAX_LEVEL,
        ensures
            match r {
                Ok(i) => self.matched(size, value, is_used, i as int),
                Err(TreeErr::NotFound) => self.none_matched(size, value, is_used),
                Err(TreeErr::WrongSize) => !self.fits(size),
                Err(TreeErr::NotEnough) => false,
            },
    {
        let start: usize = match self.find(size, is_used) {
            Ok(i) => i,
            Err(e) => {
                return Err(e);
            },
        };
        proof {
            self.lemma_found_unique(size, is_used, start as int, start as int);
            self.lemma_fits(size);
            self.lemma_count();
        }
        let level: usize = self.get_level(size);
        let max_idx: usize = self.get_index(level + 1);
        let mut idx: usize = start;
        proof {
            self.lemma_leaves_of(start as int, level as int);
            lemma_level_is_row(level as int + 1);
            lemma_level_is_row(self.level as int + 1);
            lemma_row_mono(0, level as nat, self.level as nat);
        }
        while idx < max_idx
            invariant
                self.level <= MAX_LEVEL,
                level == self.size_level(size),
                1 <= level <= self.level,
                max_idx == level_first(level + 1),
                max_idx <= self.count() <= MAX_NODES,
                start <= idx <= max_idx,
                level_first(level as int) <= start,
                self.found(size, is_used, start as int),
                self.find_index(size, is_used) == start,
                forall|k: int| start <= k < idx ==> self.nodes@[k] != value,
            decreases max_idx - idx,
        {
            if self.get_value(idx) == value {
                return Ok(idx);
            }
            idx += 1;
        }
        Err(TreeErr::NotFound)
    }

    /// The highest index of a node of the tree.
    pub fn max_node(&self) -> (r: usize)
        requires
            1 <= self.level < usize::BITS,
        ensures
            r == self.count() - 1,
    {
        proof {
            lemma_level_is_row(self.level as int);
            lemma_pow2_pos((self.level - 1) as nat);
        }
        self.get_index(self.level + 1) - 1
    }

    /// Marks node `idx` and every node below it as `used`.
    fn mark(&mut self, idx: usize, used: bool)
        requires
            old(self).level <= MAX_LEVEL,
        ensures
            old(self).marks(idx as int, used, *final(self)),
    {
        proof {
            self.lemma_count();
            self.bitmap.lemma_len();
            lemma_row_zero(idx as int);
        }
        let count: usize = if self.level == 0 {
            0
        } else {
            self.max_node() + 1
        };
        let mut left: usize = idx;
        let mut width: usize = 1;
        let ghost mut d: nat = 0;
        while left < count
            invariant
                self.level == old(self).level,
                self.nodes == old(self).nodes,
                self.level <= MAX_LEVEL,
                count == self.count(),
                count <= MAX_NODES,
                left == row_first(idx as int, d),
                width == pow2(d),
                self.bitmap@.len() == MAX_NODES,
                forall|i: int| in_rows(i, idx as int, d) ==> i < count,
                forall|i: int|
                    0 <= i < MAX_NODES ==> #[trigger] self.bitmap@[i] == if in_rows(
                        i,
                        idx as int,
                        d,
                    ) {
                        used
                    } else {
                        old(self).bitmap@[i]
                    },
            decreases self.level - d,
        {
            proof {
                lemma_row_fits(idx as int, d, self.level as nat);
                lemma_row_step(idx as int, d);
                lemma_pow2_step(d);
            }
            let mut i: usize = 0;
            while i < width
                invariant
                    self.level == old(self).level,
                    self.nodes == old(self).nodes,
                    i <= width,
                    left + width <= count <= MAX_NODES,
                    left == row_first(idx as int, d),
                    width == pow2(d),
                    self.bitmap@.len() == MAX_NODES,
                    forall|x: int|
                        0 <= x < MAX_NODES ==> #[trigger] self.bitmap@[x] == if in_rows(
                            x,
                            idx as int,
                            d,
                        ) || (left <= x < left + i) {
                            used
                        } else {
                            old(self).bitmap@[x]
                        },
                decreases width - i,
            {
                if used {
                    self.bitmap.set_bit(left + i);
                } else {
                    self.bitmap.unset_bit(left + i);
                }
                i += 1;
            }
            proof {
                let next = d + 1;
                assert((next - 1) as nat == d);
                assert forall|x: int| 0 <= x < MAX_NODES implies #[trigger] self.bitmap@[x]
                    == if in_rows(x, idx as int, next) {
                    used
                } else {
                    old(self).bitmap@[x]
                } by {
                    assert(in_rows(x, idx as int, next) == (in_row(x, idx as int, d) || in_rows(
                        x,
                        idx as int,
                        d,
                    )));
                }
                assert forall|x: int| in_rows(x, idx as int, next) implies x < count by {
                    assert(in_row(x, idx as int, d) || in_rows(x, idx as int, d));
                }
                d = next;
            }
            left = self.find_left_child(left);
            width = width * 2;
        }
        proof {
            assert forall|i: int| 0 <= i < MAX_NODES implies self.bitmap@[i] == old(self).marked(
                idx as int,
                used,
            )[i] by {
                lemma_rows(i, idx as int, d);
            }
            assert(self.bitmap@ =~= old(self).marked(idx as int, used));
        }
    }

    /// Marks node `idx` and every node below it as used.
    pub fn use_mem(&mut self, idx: usize)
        requires
            old(self).level <= MAX_LEVEL,
        ensures
            old(self).marks(idx as int, true, *final(self)),
    {
        self.mark(idx, true);
    }

    /// Marks node `idx` and every node below it as free.
    pub fn unuse_mem(&mut self, idx: usize)
        requires
            old(self).level <= MAX_LEVEL,
        ensures
            old(self).marks(idx as int, false, *final(self)),
    {
        self.mark(idx, false);
    }

    /// Marks node `idx` alone as used.
    pub fn use_page(&mut self, idx: usize)
        requires
            idx < MAX_NODES,
        ensures
            final(self).bitmap@ == old(self).bitmap@.update(idx as int, true),
            final(self).level == old(self).level,
            final(self).nodes@ == old(self).nodes@,
    {
        self.bitmap.set_bit(idx);
    }

    /// Marks node `idx` alone as free.
    pub fn unuse_page(&mut self, idx: usize)
        requires
            idx < MAX_NODES,
        ensures
            final(self).bitmap@ == old(self).bitmap@.update(idx as int, false),
            final(self).level == old(self).level,
            final(self).nodes@ == old(self).nodes@,
    {
        self.bitmap.unset_bit(idx);
    }

    /// The left child of node `idx`.
    pub fn find_left_child(&self, idx: usize) -> (r: usize)
        requires
            idx * 2 + 1 <= usize::MAX,
        ensures
            r == idx * 2 + 1,
    {
        idx * 2 + 1
    }

    /// The right child of node `idx`.
    pub fn find_right_child(&self, idx: usize) -> (r: usize)
        requires
            idx * 2 + 2 <= usize::MAX,
        ensures
            r == idx * 2 + 2,
    {
        idx * 2 + 2
    }

    /// The parent of node `idx`, which is not the root.
    pub fn find_parent(&self, idx: usize) -> (r: usize)
        requires
            1 <= idx < usize::MAX,
        ensures
            r == parent(idx as int),
            r == (idx - 1) / 2,
    {
        (idx + 1) / 2 - 1
    }

    /// Whether the `counts` nodes from `index` on are all free.
    pub fn can_use(&self, index: usize, counts: usize) -> (r: bool)
        requires
            index + counts <= MAX_NODES,
        ensures
            r == self.run(index as int, counts as int, false),
    {
        let mut i: usize = 0;
        while i < counts
            invariant
                i <= counts,
                index + counts <= MAX_NODES,
                self.run(index as int, i as int, false),
            decreases counts - i,
        {
            if !self.bitmap.is_empty(index + i) {
                return false;
            }
            i += 1;
        }
        true
    }

    /// Whether the `counts` nodes from `index` on are all used.
    pub fn can_free(&self, index: usize, counts: usize) -> (r: bool)
        requires
            index + counts <= MAX_NODES,
        ensures
            r == self.run(index as int, counts as int, true),
    {
        let mut i: usize = 0;
        while i < counts
            invariant
                i <= counts,
                index + counts <= MAX_NODES,
                self.run(index as int, i as int, true),
            decreases counts - i,
        {
            if self.bitmap.is_empty(index + i) {
                return false;
            }
            i += 1;
        }
        true
    }
}

} // verus!
