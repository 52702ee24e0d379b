//! The page allocator: one buddy tree over an arena, and a count of the
//! free pages.
//!
//! A request is served by one whole block of the tree: the smallest block
//! that holds the size asked for. The block is free if every leaf under it
//! is free, whatever the bits of the nodes above the leaves say. The count
//! of free pages moves by the pages asked for: the size in whole pages.
//! Where that is no power of two the block is larger than the request, and
//! the count is then above the number of free leaves until the block comes
//! back. An allocator that was not set up has no free page and refuses
//! every request.
//!
//! The first `ZONE_PAGES` pages of the arena are kept for the tree itself:
//! whoever embeds the allocator stores it there.
use vstd::prelude::*;
use vstd::arithmetic::power2::{pow2, lemma_pow2_pos, lemma2_to64};
use vstd::bits::lemma_usize_shl_is_mul;
use crate::bintree::def::{MAX_LEVEL, MAX_NODES};
use crate::bintree::shape::{order, lemma_level_is_row, lemma_order, lemma_pow2_mono, lemma_row_mono};
use crate::bintree::tally::{lemma_count_all, lemma_count_split};
use crate::bintree::tree::{BinTree, TreeErr};
use crate::def::{align_down, align_up, is_align, lemma_multiple, spec_align_down, spec_align_up};
use super::def::{MemPtr, MAX_PAGES, PAGE_SIZE, ZONE_PAGES};

verus! {

/// Why a request was refused.
#[derive(Debug, Clone, Copy, PartialEq, Eq, Structural)]
pub enum BuddyErr {
    /// No page is free.
    NoPages,
    /// Fewer pages are free than were asked for.
    NotEnough,
    /// No block is as the request asks.
    NotFound,
    /// The size is above the largest block, or not a multiple of the page size.
    WrongSize,
    /// The address is not a multiple of the page size.
    WrongAddr,
}

impl From<TreeErr> for BuddyErr {
    fn from(value: TreeErr) -> (r: Self) {
        match value {
            TreeErr::WrongSize => BuddyErr::WrongSize,
            TreeErr::NotFound => BuddyErr::NotFound,
            TreeErr::NotEnough => BuddyErr::NotEnough,
        }
    }
}

impl vstd::std_specs::convert::FromSpecImpl<TreeErr> for BuddyErr {
    open spec fn obeys_from_spec() -> bool {
        true
    }

    open spec fn from_spec(value: TreeErr) -> Self {
        match value {
            TreeErr::WrongSize => BuddyErr::WrongSize,
            TreeErr::NotFound => BuddyErr::NotFound,
            TreeErr::NotEnough => BuddyErr::NotEnough,
        }
    }
}

/// The number of pages that hold `size` bytes.
pub open spec fn pages_of(size: usize) -> int {
    spec_align_up(size as int, PAGE_SIZE as int) / (PAGE_SIZE as int)
}

/// The number of bytes of the pages that hold `size` bytes.
pub open spec fn rounded(size: usize) -> int {
    spec_align_up(size as int, PAGE_SIZE as int)
}

/// The pages that hold `size` bytes are its whole pages, and one more
/// where bytes are left over.
pub proof fn lemma_pages(size: usize)
    ensures
        pages_of(size) == size / PAGE_SIZE + if size % PAGE_SIZE == 0 {
            0int
        } else {
            1int
        },
        rounded(size) == pages_of(size) * PAGE_SIZE,
{
    let whole = size as int / PAGE_SIZE as int;
    lemma_multiple(size as int, PAGE_SIZE as int);
    vstd::arithmetic::div_mod::lemma_fundamental_div_mod(size as int, PAGE_SIZE as int);
    vstd::arithmetic::div_mod::lemma_div_multiples_vanish(whole, PAGE_SIZE as int);
    vstd::arithmetic::div_mod::lemma_div_multiples_vanish(whole + 1, PAGE_SIZE as int);
    assert((whole + 1) * PAGE_SIZE == whole * PAGE_SIZE + PAGE_SIZE) by (nonlinear_arith);
    assert(PAGE_SIZE * whole == whole * PAGE_SIZE) by (nonlinear_arith);
}

/// The number of pages that hold `size` bytes.
fn page_count(size: usize) -> (r: usize)
    ensures
        r == pages_of(size),
{
    proof {
        lemma_pages(size);
    }
    if size % PAGE_SIZE == 0 {
        size / PAGE_SIZE
    } else {
        size / PAGE_SIZE + 1
    }
}

/// The number of whole pages between `bottom` and `top`.
pub open spec fn arena_pages(bottom: usize, top: usize) -> int {
    (spec_align_down(top as int, PAGE_SIZE as int) - spec_align_up(bottom as int, PAGE_SIZE as int))
        / (PAGE_SIZE as int)
}

/// An allocator of pages over one arena.
#[derive(Debug)]
pub struct BuddyAllocator {
    zone: BinTree,
    page_counts: usize,
}

impl BuddyAllocator {
    /// The tree of blocks.
    pub closed spec fn tree(&self) -> BinTree {
        self.zone
    }

    /// The count of free pages.
    pub closed spec fn free(&self) -> nat {
        self.page_counts as nat
    }

    /// The tree is well formed, and the arena begins at a multiple of the
    /// page size.
    pub open spec fn wf(&self) -> bool {
        &&& self.tree().wf()
        &&& self.tree().root() % PAGE_SIZE as int == 0
    }

    /// Whether the allocator is as `init` leaves it for an arena of `pages`
    /// pages at `start`: the tree is set up for them, the first `ZONE_PAGES`
    /// pages are used, and the others are free.
    pub open spec fn set_up(&self, start: int, pages: int) -> bool {
        let t = self.tree();
        &&& self.wf()
        &&& t.level == order(pages as nat) + 1
        &&& t.root() == start
        &&& t.bitmap@ == Seq::new(
            MAX_NODES as nat,
            |i: int| i >= t.leaf_first() + pages || t.leaf_first() <= i < t.leaf_first() + ZONE_PAGES,
        )
        &&& self.free() == pages - ZONE_PAGES
        &&& self.free() == t.free_leaves()
    }

    /// Whether node `i` is where the search of `allocate` ends: the first
    /// node whose address is a multiple of `alignment`, from the node that
    /// the tree finds free for the size on, on the same level.
    pub open spec fn aligned_at(&self, size: usize, alignment: usize, i: int) -> bool {
        let t = self.tree();
        let bytes = rounded(size) as usize;
        let start = t.find_index(bytes, false);
        &&& t.found(bytes, false, start)
        &&& start <= i
        &&& t.on_level(i, t.size_level(bytes))
        &&& t.nodes@[i] as int % alignment as int == 0
        &&& forall|k: int| start <= k < i ==> t.nodes@[k] as int % alignment as int != 0
    }

    /// The node where the search of `allocate` ends, where it ends at one.
    pub open spec fn claim_index(&self, size: usize, alignment: usize) -> int {
        choose|i: int| self.aligned_at(size, alignment, i)
    }

    /// Whether every leaf under node `i` of level `l` is `used`.
    pub open spec fn block_is(&self, i: int, l: int, used: bool) -> bool {
        let t = self.tree();
        t.run(t.first_leaf(i, l), t.block_leaves(l) as int, used)
    }

    /// Whether the tree has a block for `size` bytes in whole pages.
    pub open spec fn covers(&self, size: usize) -> bool {
        pages_of(size) <= MAX_PAGES && self.tree().fits(rounded(size) as usize)
    }

    /// Whether the search of `allocate` ends at a node: pages are free, no
    /// fewer than asked for, the tree has a block of the size, and a node
    /// from the first free one on lies at a multiple of `alignment`.
    pub open spec fn seeks(&self, size: usize, alignment: usize) -> bool {
        &&& 0 < self.free()
        &&& pages_of(size) <= self.free()
        &&& self.covers(size)
        &&& self.aligned_at(size, alignment, self.claim_index(size, alignment))
    }

    /// Whether `allocate` serves the request: its search ends at a node,
    /// and every leaf under that node is free.
    pub open spec fn grants(&self, size: usize, alignment: usize) -> bool {
        let t = self.tree();
        let i = self.claim_index(size, alignment);
        &&& self.seeks(size, alignment)
        &&& self.block_is(i, t.size_level(rounded(size) as usize), false)
    }

    /// The error of `allocate` for a request that it does not serve.
    pub open spec fn refusal(&self, size: usize) -> BuddyErr {
        if self.free() == 0 {
            BuddyErr::NoPages
        } else if pages_of(size) > self.free() {
            BuddyErr::NotEnough
        } else if !self.covers(size) {
            BuddyErr::WrongSize
        } else {
            BuddyErr::NotFound
        }
    }

    /// What `allocate` returns: the address of the node where its search
    /// ends, for a request that it serves.
    pub open spec fn answer(&self, size: usize, alignment: usize) -> Result<MemPtr, BuddyErr> {
        if self.grants(size, alignment) {
            Ok(self.tree().nodes@[self.claim_index(size, alignment)])
        } else {
            Err(self.refusal(size))
        }
    }

    /// Whether `post` is the allocator after `allocate`: for a request that
    /// is served, the node where the search ends and every node below it
    /// are used, and the count of free pages is down by the pages asked
    /// for; for one that is refused, nothing has changed.
    pub open spec fn after_allocate(&self, size: usize, alignment: usize, post: Self) -> bool {
        if self.grants(size, alignment) {
            let t = self.tree();
            let i = self.claim_index(size, alignment);
            &&& t.marks(i, true, post.tree())
            &&& post.free() == self.free() - pages_of(size)
        } else {
            post == *self
        }
    }

    /// The node that holds the block of `size` bytes at `addr`, where
    /// the tree has one from the first used node of the level on.
    pub open spec fn match_index(&self, addr: usize, size: usize) -> int {
        choose|i: int| self.tree().matched(size, addr, true, i)
    }

    /// Whether `deallocate` takes the block back: address and size are
    /// multiples of the page size, the tree has the node of the block, that
    /// node is marked as used, and so is every leaf under it.
    pub open spec fn releases(&self, addr: usize, size: usize) -> bool {
        let t = self.tree();
        let i = self.match_index(addr, size);
        &&& addr as int % PAGE_SIZE as int == 0
        &&& size as int % PAGE_SIZE as int == 0
        &&& t.fits(size)
        &&& t.matched(size, addr, true, i)
        &&& t.bitmap@[i]
        &&& self.block_is(i, t.size_level(size), true)
    }

    /// The error of `deallocate` for a block that it does not take back.
    pub open spec fn rejection(&self, addr: usize, size: usize) -> BuddyErr {
        if addr as int % PAGE_SIZE as int != 0 {
            BuddyErr::WrongAddr
        } else if size as int % PAGE_SIZE as int != 0 || !self.tree().fits(size) {
            BuddyErr::WrongSize
        } else {
            BuddyErr::NotFound
        }
    }

    /// What `deallocate` returns: the count of free pages after it, for
    /// a block that it takes back.
    pub open spec fn reply(&self, addr: usize, size: usize) -> Result<usize, BuddyErr> {
        if self.releases(addr, size) {
            Ok((self.free() + size / PAGE_SIZE) as usize)
        } else {
            Err(self.rejection(addr, size))
        }
    }

    /// Whether `post` is the allocator after `deallocate`: for a block that
    /// is taken back, its node and every node below it are free, and the
    /// count of free pages is up by `size / PAGE_SIZE`; for one that is
    /// refused, nothing has changed.
    pub open spec fn after_deallocate(&self, addr: usize, size: usize, post: Self) -> bool {
        if self.releases(addr, size) {
            let t = self.tree();
            let i = self.match_index(addr, size);
            &&& t.marks(i, false, post.tree())
            &&& post.free() == self.free() + size / PAGE_SIZE
        } else {
            post == *self
        }
    }
}

impl BuddyAllocator {
    /// An allocator that is not set up: it has no page.
    pub fn new() -> (r: Self)
        ensures
            r.wf(),
            r.tree().level == 0,
            r.free() == 0,
            forall|i: int| 0 <= i < MAX_NODES ==> r.tree().nodes@[i] == 0 && !r.tree().bitmap@[i],
    {
        BuddyAllocator { zone: BinTree::new(), page_counts: 0 }
    }

    /// Sets the allocator up for the whole pages between `bottom` and `top`.
    ///
    /// The arena must hold the pages that are kept for the tree, and no more
    /// pages than a tree has leaves. The tree rounds the number of pages up
    /// to a power of two, and the addresses of all its leaves, those beyond
    /// `top` too, must be addresses of the machine.
    pub fn init(&mut self, bottom: MemPtr, top: MemPtr)
        requires
            spec_align_up(bottom as int, PAGE_SIZE as int) <= spec_align_down(
                top as int,
                PAGE_SIZE as int,
            ),
            ZONE_PAGES <= arena_pages(bottom, top) <= MAX_PAGES,
            spec_align_up(bottom as int, PAGE_SIZE as int) + pow2(
                order(arena_pages(bottom, top) as nat),
            ) * PAGE_SIZE <= usize::MAX,
        ensures
            final(self).set_up(
                spec_align_up(bottom as int, PAGE_SIZE as int),
                arena_pages(bottom, top),
            ),
    {
        let end: usize = align_down(top, PAGE_SIZE);
        let start: usize = align_up(bottom, PAGE_SIZE);
        let page_counts: usize = (end - start) / PAGE_SIZE;
        proof {
            lemma_multiple(top as int, PAGE_SIZE as int);
            lemma_multiple(bottom as int, PAGE_SIZE as int);
            vstd::arithmetic::div_mod::lemma_div_multiples_vanish(
                page_counts as int,
                PAGE_SIZE as int,
            );
            assert(page_counts * PAGE_SIZE <= end - start) by {
                vstd::arithmetic::div_mod::lemma_fundamental_div_mod(
                    end - start,
                    PAGE_SIZE as int,
                );
            }
        }
        let counts: usize = match self.zone.init(start, PAGE_SIZE * page_counts) {
            Ok(counts) => counts,
            Err(_) => {
                // The tree refuses no arena that holds the pages of the tree.
                assert(false);
                return ;
            },
        };
        proof {
            self.zone.lemma_count();
            lemma_level_is_row(self.zone.level as int);
            lemma_order(page_counts as nat);
        }
        // The arena begins with the pages of the tree itself.
        let index: usize = self.zone.get_index(self.zone.level);
        let ghost set = self.zone;
        let mut i: usize = 0;
        while i < ZONE_PAGES
            invariant
                i <= ZONE_PAGES <= page_counts,
                index == self.zone.leaf_first(),
                index + page_counts <= self.zone.count() <= MAX_NODES,
                self.zone.level == set.level,
                self.zone.nodes == set.nodes,
                self.zone.bitmap@ == Seq::new(
                    MAX_NODES as nat,
                    |x: int| x >= index + page_counts || index <= x < index + i,
                ),
            decreases ZONE_PAGES - i,
        {
            self.zone.use_page(index + i);
            proof {
                assert(self.zone.bitmap@ =~= Seq::new(
                    MAX_NODES as nat,
                    |x: int| x >= index + page_counts || index <= x < index + i + 1,
                ));
            }
            i += 1;
        }
        self.page_counts = counts - ZONE_PAGES;
        proof {
            let bits = self.zone.bitmap@;
            let lo = index as int;
            lemma_count_split(bits, lo, lo + ZONE_PAGES, self.zone.count());
            lemma_count_split(bits, lo + ZONE_PAGES, lo + page_counts, self.zone.count());
            lemma_count_all(bits, lo, lo + ZONE_PAGES, true);
            lemma_count_all(bits, lo + ZONE_PAGES, lo + page_counts, false);
            lemma_count_all(bits, lo + page_counts, self.zone.count(), true);
        }
    }

    /// The node where the search of `allocate` for `size` bytes at a
    /// multiple of `alignment` ends, whether or not the block is free.
    ///
    /// The search starts at the first node on the level of the size that
    /// the tree finds free, and ends at the first node from there on whose
    /// address is a multiple of `alignment`. It ends at no node, with the
    /// error of `allocate`, where no page is free, fewer pages are free
    /// than `size` takes, the tree has no block that large, the tree finds
    /// no free node, or no node from there on is at such an address.
    pub fn search(&self, size: usize, alignment: usize) -> (r: Result<usize, BuddyErr>)
        requires
            self.wf(),
            alignment > 0,
        ensures
            r is Ok <==> self.seeks(size, alignment),
            match r {
                Ok(i) => i == self.claim_index(size, alignment) && self.tree().on_level(
                    i as int,
                    self.tree().size_level(rounded(size) as usize),
                ),
                Err(e) => e == self.refusal(size),
            },
    {
        let counts: usize = page_count(size);
        proof {
            lemma_pages(size);
            self.zone.lemma_count();
        }
        if self.page_counts == 0 {
            return Err(BuddyErr::NoPages);
        }
        if counts > self.page_counts {
            return Err(BuddyErr::NotEnough);
        }
        if counts > MAX_PAGES {
            // More than the largest block: no size to look for.
            return Err(BuddyErr::WrongSize);
        }
        let mem_size: usize = counts * PAGE_SIZE;
        let start: usize = match self.zone.find(mem_size, false) {
            Ok(i) => i,
            Err(e) => {
                proof {
                    if e == TreeErr::NotFound {
                        if self.aligned_at(size, alignment, self.claim_index(size, alignment)) {
                            let s = self.zone.find_index(mem_size, false);
                            assert(self.zone.on_level(s, self.zone.size_level(mem_size)));
                        }
                    }
                }
                return Err(BuddyErr::from(e));
            },
        };
        proof {
            self.zone.lemma_found_unique(mem_size, false, start as int, start as int);
            self.zone.lemma_fits(mem_size);
        }
        let level: usize = self.zone.get_level(mem_size);
        let max_idx: usize = self.zone.get_index(level + 1);
        proof {
            self.zone.lemma_leaves_of(start as int, level as int);
            lemma_level_is_row(level as int + 1);
            lemma_level_is_row(self.zone.level as int + 1);
            lemma_row_mono(0, level as nat, self.zone.level as nat);
        }
        let idx: usize = self.first_aligned(start, max_idx, alignment);
        if idx == max_idx {
            proof {
                let c = self.claim_index(size, alignment);
                if self.aligned_at(size, alignment, c) {
                    assert(self.zone.nodes@[c] as int % alignment as int != 0);
                }
            }
            return Err(BuddyErr::NotFound);
        }
        proof {
            assert(self.aligned_at(size, alignment, idx as int));
            self.lemma_claim_unique(size, alignment, idx as int);
        }
        Ok(idx)
    }

    /// Hands out a block of at least `size` bytes at an address that is a
    /// multiple of `alignment`, and returns the address.
    ///
    /// The block is one node of the tree, on the level of the smallest
    /// blocks that hold `size` bytes: the node where `search` ends. It is
    /// taken if every leaf under it is free. The node and all nodes below
    /// it become used, and the count of free pages goes down by the pages
    /// asked for, `size` in whole pages.
    /// A request that is refused changes nothing. It is refused with
    /// `NoPages` where no page is free, else with `NotEnough` where fewer
    /// pages are free than `size` takes, else with `WrongSize` where the
    /// tree has no block that large, else with `NotFound` where the tree
    /// finds no free node, no node from there on lies at a multiple of
    /// `alignment`, or a leaf under the first that does is used.
    pub fn allocate(&mut self, size: usize, alignment: usize) -> (r: Result<MemPtr, BuddyErr>)
        requires
            old(self).wf(),
            alignment > 0,
        ensures
            r == old(self).answer(size, alignment),
            old(self).after_allocate(size, alignment, *final(self)),
            final(self).wf(),
            r matches Ok(addr) ==> addr as int % alignment as int == 0,
    {
        let idx: usize = match self.search(size, alignment) {
            Ok(i) => i,
            Err(e) => {
                return Err(e);
            },
        };
        proof {
            lemma_pages(size);
            self.zone.lemma_count();
            self.zone.lemma_fits(rounded(size) as usize);
            self.zone.lemma_leaves_of(
                idx as int,
                self.zone.size_level(rounded(size) as usize),
            );
        }
        let counts: usize = page_count(size);
        let level: usize = self.zone.get_level(counts * PAGE_SIZE);
        let addr: usize = self.zone.get_value(idx);
        let left: usize = self.zone.left_leaf(idx, level);
        let pages: usize = self.block_pages(level);
        if !self.zone.can_use(left, pages) {
            return Err(BuddyErr::NotFound);
        }
        self.zone.use_mem(idx);
        self.page_counts = self.page_counts - counts;
        Ok(addr)
    }

    /// Takes back the block of `size` bytes at `addr`, and returns the count
    /// of free pages after it.
    ///
    /// The block is one node of the tree, on the level of the smallest
    /// blocks that hold `size` bytes: the node with the address `addr`, looked
    /// for from the first used node of that level on. It is taken back if
    /// it is marked as used and every leaf under it is used: pages that went
    /// out as smaller blocks are not taken back as one. The node and all
    /// nodes below it become
    /// free, and the count of free pages goes up by `size / PAGE_SIZE`,
    /// which must not take it beyond the numbers of the machine.
    /// A block that is refused changes nothing. It is refused with
    /// `WrongAddr` where `addr` is no multiple of the page size, else with
    /// `WrongSize` where `size` is none or the tree has no block that large,
    /// else with `NotFound` where no node of the level is used, none from the
    /// first used one on has the address, or that node or a leaf under it
    /// is free.
    pub fn deallocate(&mut self, addr: MemPtr, size: usize) -> (r: Result<usize, BuddyErr>)
        requires
            old(self).wf(),
            old(self).free() + size / PAGE_SIZE <= usize::MAX,
        ensures
            r == old(self).reply(addr, size),
            old(self).after_deallocate(addr, size, *final(self)),
            final(self).wf(),
    {
        if !is_align(addr, PAGE_SIZE) {
            return Err(BuddyErr::WrongAddr);
        }
        if !is_align(size, PAGE_SIZE) {
            return Err(BuddyErr::WrongSize);
        }
        let index: usize = match self.zone.find_match(size, addr, true) {
            Ok(i) => i,
            Err(e) => {
                proof {
                    if e == TreeErr::NotFound {
                        let m = self.match_index(addr, size);
                        if self.zone.matched(size, addr, true, m) {
                            let s = self.zone.find_index(size, true);
                            assert(self.zone.on_level(s, self.zone.size_level(size)));
                        }
                    }
                }
                return Err(BuddyErr::from(e));
            },
        };
        proof {
            self.lemma_match_unique(addr, size, index as int);
            self.zone.lemma_fits(size);
            self.zone.lemma_count();
        }
        let level: usize = self.zone.get_level(size);
        proof {
            self.zone.lemma_leaves_of(index as int, level as int);
        }
        if self.zone.bitmap.is_empty(index) {
            return Err(BuddyErr::NotFound);
        }
        let left: usize = self.zone.left_leaf(index, level);
        let pages: usize = self.block_pages(level);
        if !self.zone.can_free(left, pages) {
            return Err(BuddyErr::NotFound);
        }
        self.zone.unuse_mem(index);
        self.page_counts = self.page_counts + size / PAGE_SIZE;
        Ok(self.page_counts)
    }

    /// The tree of blocks.
    pub fn zone(&self) -> (r: &BinTree)
        ensures
            *r == self.tree(),
    {
        &self.zone
    }

    /// The count of free pages.
    pub fn free_page_count(&self) -> (r: usize)
        ensures
            r == self.free(),
    {
        self.page_counts
    }

    /// The first node from `from` on, before `end`, whose address is a
    /// multiple of `alignment`; `end` where there is none.
    fn first_aligned(&self, from: usize, end: usize, alignment: usize) -> (r: usize)
        requires
            from <= end <= MAX_NODES,
            alignment > 0,
        ensures
            from <= r <= end,
            r < end ==> self.zone.nodes@[r as int] as int % alignment as int == 0,
            forall|k: int| from <= k < r ==> self.zone.nodes@[k] as int % alignment as int != 0,
    {
        let mut idx: usize = from;
        while idx < end
            invariant
                from <= idx <= end <= MAX_NODES,
                alignment > 0,
                forall|k: int|
                    from <= k < idx ==> self.zone.nodes@[k] as int % alignment as int != 0,
            decreases end - idx,
        {
            let addr: usize = self.zone.get_value(idx);
            if is_align(addr, alignment) {
                return idx;
            }
            idx += 1;
        }
        end
    }

    /// The number of leaves under a node of `level`.
    fn block_pages(&self, level: usize) -> (r: usize)
        requires
            1 <= level <= self.zone.level <= MAX_LEVEL,
        ensures
            r == self.zone.block_leaves(level as int),
            1 <= r <= self.zone.leaves(),
    {
        let shift: usize = self.zone.level - level;
        proof {
            lemma2_to64();
            lemma_pow2_mono(shift as nat, (self.zone.level - 1) as nat);
            lemma_pow2_mono((self.zone.level - 1) as nat, 10);
            lemma_pow2_pos(shift as nat);
            lemma_usize_shl_is_mul(1usize, shift);
        }
        1usize << shift
    }

    /// The count of free pages is a number of the machine.
    pub proof fn lemma_free_bound(&self)
        ensures
            self.free() <= usize::MAX,
    {
    }

    /// The search of `allocate` ends at no more than one node.
    pub proof fn lemma_claim_unique(&self, size: usize, alignment: usize, i: int)
        requires
            self.aligned_at(size, alignment, i),
        ensures
            self.claim_index(size, alignment) == i,
    {
        let j = self.claim_index(size, alignment);
        assert(self.aligned_at(size, alignment, j));
    }

    /// The tree has no more than one node for a block.
    pub proof fn lemma_match_unique(&self, addr: usize, size: usize, i: int)
        requires
            self.tree().matched(size, addr, true, i),
        ensures
            self.match_index(addr, size) == i,
    {
        let j = self.match_index(addr, size);
        assert(self.tree().matched(size, addr, true, j));
    }
}

} // verus!
