//! Sequences of calls to one allocator.
//!
//! A caller is orderly if every block that `deallocate` takes back from it
//! is one that it was handed and has not given back before, with the size
//! it asked for in whole pages. A call that is refused changes nothing and
//! is no breach. Through every sequence of calls of an orderly caller the
//! books of [`super::ledger`] are those of the allocator. So at every point
//! the blocks that are out lie apart and inside the arena, and the count
//! of free pages is the pages that `init` left free less the pages asked
//! for of those blocks.
use vstd::prelude::*;
use super::buddy_allocator::BuddyAllocator;
use super::def::{MAX_PAGES, ZONE_PAGES};
use super::ledger::{
    accounts,
    disjoint,
    granted,
    held_pages,
    law_allocate,
    law_conservation,
    law_deallocate,
    law_init,
    law_non_overlap,
    Block,
    Ledger,
};

verus! {

/// A call to an allocator.
pub enum Call {
    /// `allocate(size, alignment)`
    Allocate { size: usize, alignment: usize },
    /// `deallocate(addr, size)`
    Deallocate { addr: usize, size: usize },
}

/// Whether `post` is the allocator `pre` after `call`.
pub open spec fn follows(pre: BuddyAllocator, call: Call, post: BuddyAllocator) -> bool {
    match call {
        Call::Allocate { size, alignment } => alignment > 0 && pre.after_allocate(
            size,
            alignment,
            post,
        ),
        Call::Deallocate { addr, size } => pre.after_deallocate(addr, size, post),
    }
}

/// Whether `states` are the states of one allocator before, between and
/// after `calls`.
pub open spec fn history(states: Seq<BuddyAllocator>, calls: Seq<Call>) -> bool {
    &&& states.len() == calls.len() + 1
    &&& forall|k: int|
        0 <= k < calls.len() ==> follows(states[k], #[trigger] calls[k], states[k + 1])
}

/// The books of the caller after the first `n` calls: a block enters when
/// `allocate` hands it out, and leaves when `deallocate` takes it back.
/// A call that is refused leaves the books as they are.
pub open spec fn books(
    states: Seq<BuddyAllocator>,
    calls: Seq<Call>,
    pages: nat,
    n: nat,
) -> Ledger
    decreases n,
{
    if n == 0 {
        Ledger::opened(pages)
    } else {
        let g = books(states, calls, pages, (n - 1) as nat);
        let pre = states[n - 1];
        match calls[n - 1] {
            Call::Allocate { size, alignment } => if pre.grants(size, alignment) {
                g.with(granted(pre, size, alignment))
            } else {
                g
            },
            Call::Deallocate { addr, size } => if pre.releases(addr, size) {
                g.without(g.live.index_of(Block { addr, size }))
            } else {
                g
            },
        }
    }
}

/// Whether the caller is orderly: what `deallocate` takes back from it is
/// a block of its books.
pub open spec fn orderly(states: Seq<BuddyAllocator>, calls: Seq<Call>, pages: nat) -> bool {
    forall|n: int|
        0 <= n < calls.len() ==> match #[trigger] calls[n] {
            Call::Allocate { size, alignment } => true,
            Call::Deallocate { addr, size } => states[n].releases(addr, size) ==> books(
                states,
                calls,
                pages,
                n as nat,
            ).live.contains(Block { addr, size }),
        }
}

/// Through the calls of an orderly caller, from `init` on, the books are
/// those of the allocator.
pub proof fn law_history(
    states: Seq<BuddyAllocator>,
    calls: Seq<Call>,
    start: int,
    pages: int,
    n: nat,
)
    requires
        ZONE_PAGES <= pages <= MAX_PAGES,
        states[0].set_up(start, pages),
        history(states, calls),
        orderly(states, calls, pages as nat),
        n <= calls.len(),
    ensures
        accounts(states[n as int], books(states, calls, pages as nat, n)),
        books(states, calls, pages as nat, n).pages == pages,
    decreases n,
{
    if n == 0 {
        law_init(states[0], start, pages);
    } else {
        let m = (n - 1) as nat;
        let pre = states[m as int];
        let post = states[n as int];
        let g = books(states, calls, pages as nat, m);
        law_history(states, calls, start, pages, m);
        assert(follows(pre, calls[m as int], states[m as int + 1]));
        match calls[m as int] {
            Call::Allocate { size, alignment } => {
                if pre.grants(size, alignment) {
                    law_allocate(pre, g, size, alignment, post);
                }
            },
            Call::Deallocate { addr, size } => {
                if pre.releases(addr, size) {
                    let b = Block { addr, size };
                    assert(g.live.contains(b));
                    let k = g.live.index_of(b);
                    law_deallocate(pre, g, k, post);
                }
            },
        }
    }
}

/// After the calls of an orderly caller, the blocks that are out share no
/// byte, and the count of free pages is the pages that `init` left free
/// less the pages asked for of those blocks.
pub proof fn law_orderly(
    states: Seq<BuddyAllocator>,
    calls: Seq<Call>,
    start: int,
    pages: int,
)
    requires
        ZONE_PAGES <= pages <= MAX_PAGES,
        states[0].set_up(start, pages),
        history(states, calls),
        orderly(states, calls, pages as nat),
    ensures
        ({
            let a = states.last();
            let live = books(states, calls, pages as nat, calls.len()).live;
            &&& a.free() == pages - ZONE_PAGES - held_pages(live)
            &&& forall|j: int, k: int|
                0 <= j < live.len() && 0 <= k < live.len() && j != k ==> disjoint(
                    #[trigger] live[j],
                    #[trigger] live[k],
                )
        }),
{
    let a = states.last();
    let g = books(states, calls, pages as nat, calls.len());
    law_history(states, calls, start, pages, calls.len());
    law_conservation(a, g);
    assert forall|j: int, k: int|
        0 <= j < g.live.len() && 0 <= k < g.live.len() && j != k implies disjoint(
        #[trigger] g.live[j],
        #[trigger] g.live[k],
    ) by {
        law_non_overlap(a, g, j, k);
    }
}

} // verus!
