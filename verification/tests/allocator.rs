use buddy_allocator::bintree::def::MAX_SIZE;
use buddy_allocator::bintree::tree::{BinTree, TreeErr};
use buddy_allocator::buddy::buddy_allocator::{BuddyAllocator, BuddyErr};
use buddy_allocator::buddy::def::{MAX_PAGES, PAGE_SIZE, ZONE_PAGES, ZONE_SIZE};

const BASE: usize = 0x10_0000;

fn arena(pages: usize) -> BuddyAllocator {
    let mut buddy = BuddyAllocator::new();
    buddy.init(BASE, BASE + pages * PAGE_SIZE);
    buddy
}

fn page(n: usize) -> usize {
    BASE + n * PAGE_SIZE
}

#[test]
fn the_zone_is_the_tree() {
    assert_eq!(std::mem::size_of::<BinTree>(), ZONE_SIZE);
    assert_eq!((ZONE_SIZE + PAGE_SIZE - 1) / PAGE_SIZE, ZONE_PAGES);
}

#[test]
fn new_allocator_has_no_page() {
    let mut buddy = BuddyAllocator::new();
    assert_eq!(buddy.free_page_count(), 0);
    assert_eq!(buddy.zone().level, 0);
    assert_eq!(buddy.allocate(PAGE_SIZE, PAGE_SIZE), Err(BuddyErr::NoPages));
    assert_eq!(buddy.allocate(0, 1), Err(BuddyErr::NoPages));
    assert_eq!(buddy.deallocate(0, PAGE_SIZE), Err(BuddyErr::WrongSize));
    assert_eq!(buddy.free_page_count(), 0);
}

#[test]
fn init_keeps_the_pages_of_the_tree() {
    let buddy = arena(16);
    assert_eq!(buddy.free_page_count(), 16 - ZONE_PAGES);
    assert_eq!(buddy.zone().level, 5);
    assert_eq!(buddy.zone().get_value(0), BASE);
    for i in 0..16 {
        assert_eq!(buddy.zone().bitmap.get_bit(15 + i), i < ZONE_PAGES);
        assert_eq!(buddy.zone().get_value(15 + i), page(i));
    }
    for i in 0..15 {
        assert!(buddy.zone().bitmap.is_empty(i));
    }
}

#[test]
fn init_rounds_the_range_to_whole_pages() {
    let mut buddy = BuddyAllocator::new();
    buddy.init(BASE + 8, BASE + 251 * PAGE_SIZE);
    assert_eq!(buddy.zone().get_value(0), BASE + PAGE_SIZE);
    assert_eq!(buddy.free_page_count(), 250 - ZONE_PAGES);
    assert_eq!(buddy.zone().level, 9);

    buddy.init(BASE, BASE + 7 * PAGE_SIZE - 1);
    assert_eq!(buddy.zone().get_value(0), BASE);
    assert_eq!(buddy.free_page_count(), 6 - ZONE_PAGES);
    assert_eq!(buddy.zone().level, 4);

    buddy.init(BASE, BASE + ZONE_PAGES * PAGE_SIZE);
    assert_eq!(buddy.free_page_count(), 0);
    assert_eq!(buddy.allocate(1, 1), Err(BuddyErr::NoPages));

    buddy.init(BASE, BASE + MAX_PAGES * PAGE_SIZE);
    assert_eq!(buddy.free_page_count(), MAX_PAGES - ZONE_PAGES);
    assert_eq!(buddy.zone().level, 11);
}

#[test]
fn sixteen_pages_out_and_back() {
    let mut buddy = arena(16);
    let free = buddy.free_page_count();
    assert_eq!(free, 11);

    let addr1 = buddy.allocate(PAGE_SIZE, PAGE_SIZE).unwrap();
    let addr2 = buddy.allocate(PAGE_SIZE << 1, PAGE_SIZE).unwrap();
    let addr3 = buddy.allocate(PAGE_SIZE, PAGE_SIZE).unwrap();
    assert_eq!(addr1, page(5));
    assert_eq!(addr2, page(6));
    assert_eq!(addr3, page(8));
    assert!(addr1 + PAGE_SIZE <= addr2);
    assert!(addr2 + (PAGE_SIZE << 1) <= addr3);
    assert_eq!(buddy.free_page_count(), free - 4);

    assert_eq!(buddy.deallocate(addr1, PAGE_SIZE), Ok(free - 3));
    assert_eq!(buddy.free_page_count(), free - 3);
    assert_eq!(buddy.deallocate(addr2, PAGE_SIZE << 1), Ok(free - 1));
    assert_eq!(buddy.free_page_count(), free - 1);

    assert_eq!(buddy.allocate(PAGE_SIZE, PAGE_SIZE), Ok(addr1));
    assert_eq!(buddy.allocate(PAGE_SIZE << 1, PAGE_SIZE), Ok(addr2));
    assert_eq!(buddy.free_page_count(), free - 4);
}

#[test]
fn arena_of_250_pages() {
    let mut buddy = BuddyAllocator::new();
    let bottom = BASE + 8;
    let top = bottom + PAGE_SIZE * 251 - 8;
    buddy.init(bottom, top);
    let start = BASE + PAGE_SIZE;
    assert_eq!(buddy.zone().get_value(0), start);
    assert_eq!(buddy.free_page_count(), 245);

    let addr1 = buddy.allocate(PAGE_SIZE, PAGE_SIZE << 1).unwrap();
    assert_eq!(addr1, start + 5 * PAGE_SIZE);
    let addr2 = buddy.allocate(PAGE_SIZE << 1, PAGE_SIZE).unwrap();
    assert_eq!(addr2, start + 6 * PAGE_SIZE);
    let addr3 = buddy.allocate(PAGE_SIZE, PAGE_SIZE).unwrap();
    assert_eq!(addr3, start + 8 * PAGE_SIZE);

    assert_eq!(buddy.deallocate(addr1, PAGE_SIZE), Ok(242));
    assert_eq!(buddy.deallocate(addr2, PAGE_SIZE << 1), Ok(244));

    assert_eq!(buddy.allocate(PAGE_SIZE, PAGE_SIZE), Ok(start + 5 * PAGE_SIZE));
    assert_eq!(buddy.allocate(PAGE_SIZE << 1, PAGE_SIZE), Ok(start + 6 * PAGE_SIZE));
}

#[test]
fn round_trip_restores_the_count() {
    let mut buddy = arena(64);
    let sizes = [1usize, PAGE_SIZE, PAGE_SIZE + 1, 3 * PAGE_SIZE, 8 * PAGE_SIZE, 0, 32 * PAGE_SIZE];
    let _ = buddy.allocate(PAGE_SIZE, PAGE_SIZE).unwrap();
    for &size in sizes.iter() {
        let before = buddy.free_page_count();
        let addr = buddy.allocate(size, PAGE_SIZE).unwrap();
        assert_eq!(addr % PAGE_SIZE, 0);
        let whole = (size + PAGE_SIZE - 1) / PAGE_SIZE * PAGE_SIZE;
        assert_eq!(buddy.free_page_count(), before - whole / PAGE_SIZE);
        assert_eq!(buddy.deallocate(addr, whole), Ok(before));
        assert_eq!(buddy.free_page_count(), before);
    }
}

#[test]
fn blocks_that_are_out_lie_apart() {
    let mut buddy = arena(250);
    let sizes = [1usize, 2, 1, 4, 8, 1, 16, 2, 32, 1, 64, 4, 1, 2, 1];
    let mut out: Vec<(usize, usize)> = Vec::new();
    let mut free = buddy.free_page_count();
    for &n in sizes.iter() {
        let addr = buddy.allocate(n * PAGE_SIZE, PAGE_SIZE).unwrap();
        free -= n;
        assert_eq!(buddy.free_page_count(), free);
        out.push((addr, n * PAGE_SIZE));
    }
    // Give every other block back, and take new ones.
    let mut kept: Vec<(usize, usize)> = Vec::new();
    for (k, &(addr, size)) in out.iter().enumerate() {
        if k % 2 == 0 {
            free += size / PAGE_SIZE;
            assert_eq!(buddy.deallocate(addr, size), Ok(free));
        } else {
            kept.push((addr, size));
        }
    }
    for &n in [2usize, 1, 1, 8, 4, 1].iter() {
        let addr = buddy.allocate(n * PAGE_SIZE, PAGE_SIZE).unwrap();
        free -= n;
        assert_eq!(buddy.free_page_count(), free);
        kept.push((addr, n * PAGE_SIZE));
    }
    for (j, &(a, s)) in kept.iter().enumerate() {
        assert!(page(ZONE_PAGES) <= a);
        assert!(a + s <= page(250));
        for &(b, t) in kept.iter().skip(j + 1) {
            assert!(a + s <= b || b + t <= a);
        }
    }
    let held: usize = kept.iter().map(|&(_, s)| s / PAGE_SIZE).sum();
    assert_eq!(buddy.free_page_count(), 250 - ZONE_PAGES - held);
}

#[test]
fn addresses_are_multiples_of_the_alignment() {
    let mut buddy = arena(250);
    let asked = [(1usize, 2usize), (1, 4), (2, 8), (1, 1), (4, 32), (1, 64), (1, 5)];
    let given = [6usize, 8, 16, 5, 32, 64, 9];
    for (&(pages, align), &at) in asked.iter().zip(given.iter()) {
        let addr = buddy.allocate(pages * PAGE_SIZE, align * PAGE_SIZE).unwrap();
        assert_eq!(addr % (align * PAGE_SIZE), 0);
        assert_eq!(addr, page(at));
    }
    let addr = buddy.allocate(PAGE_SIZE, 56).unwrap();
    assert_eq!(addr % 56, 0);
    assert_eq!(addr, page(10));
}

#[test]
fn alignment_search_goes_forward_from_the_first_free_block() {
    let mut buddy = arena(16);
    // The first free page is page 5; the next at a multiple of four pages is 8.
    assert_eq!(buddy.allocate(PAGE_SIZE, 4 * PAGE_SIZE), Ok(page(8)));
    assert_eq!(buddy.allocate(PAGE_SIZE, PAGE_SIZE), Ok(page(5)));
    // From page 6 on the next such page is 8 again, which is used.
    assert_eq!(buddy.allocate(PAGE_SIZE, 4 * PAGE_SIZE), Err(BuddyErr::NotFound));
    assert_eq!(buddy.allocate(PAGE_SIZE, 2 * PAGE_SIZE), Ok(page(6)));
    // No page from 7 on lies at a multiple of sixteen pages.
    assert_eq!(buddy.allocate(PAGE_SIZE, 16 * PAGE_SIZE), Err(BuddyErr::NotFound));
    assert_eq!(buddy.free_page_count(), 8);
}

#[test]
fn a_size_takes_the_smallest_block_that_holds_it() {
    let mut buddy = arena(64);
    let free = buddy.free_page_count();
    // Three pages take a block of four, at a multiple of four pages, and
    // three pages of the count.
    assert_eq!(buddy.allocate(3 * PAGE_SIZE - 5, PAGE_SIZE), Ok(page(8)));
    assert_eq!(buddy.free_page_count(), free - 3);
    assert!(buddy.zone().can_free(63 + 8, 4));
    assert_eq!(buddy.allocate(PAGE_SIZE + 1, PAGE_SIZE), Ok(page(6)));
    assert_eq!(buddy.free_page_count(), free - 5);
    assert_eq!(buddy.allocate(1, PAGE_SIZE), Ok(page(5)));
    assert_eq!(buddy.free_page_count(), free - 6);
    // No byte takes a page of the tree, and none of the count.
    assert_eq!(buddy.allocate(0, PAGE_SIZE), Ok(page(12)));
    assert_eq!(buddy.free_page_count(), free - 6);
    assert_eq!(buddy.deallocate(page(8), 3 * PAGE_SIZE), Ok(free - 3));
    assert!(buddy.zone().can_use(63 + 8, 4));
    assert_eq!(buddy.deallocate(page(12), 0), Ok(free - 3));
    assert_eq!(buddy.deallocate(page(6), 2 * PAGE_SIZE), Ok(free - 1));
    assert_eq!(buddy.deallocate(page(5), PAGE_SIZE), Ok(free));
}

#[test]
fn three_pages_of_sixteen() {
    let mut buddy = arena(16);
    assert_eq!(buddy.free_page_count(), 11);
    assert_eq!(buddy.allocate(3 * PAGE_SIZE, PAGE_SIZE), Ok(page(8)));
    assert_eq!(buddy.free_page_count(), 8);
    // The fourth page of the block went with it: seven leaves are free.
    assert_eq!(buddy.allocate(8 * PAGE_SIZE, PAGE_SIZE), Err(BuddyErr::NotFound));
    assert!(buddy.zone().bitmap.get_bit(15 + 11));
    assert_eq!(buddy.allocate(PAGE_SIZE, PAGE_SIZE), Ok(page(5)));
    assert_eq!(buddy.deallocate(page(8), 3 * PAGE_SIZE), Ok(10));
    assert!(buddy.zone().bitmap.is_empty(15 + 11));
    assert_eq!(buddy.deallocate(page(5), PAGE_SIZE), Ok(11));
}

#[test]
fn search_ends_at_a_node_that_may_be_used() {
    let mut buddy = arena(16);
    // The node of pages 8 to 15 is node 2; the leaf of page 8 is node 23.
    assert_eq!(buddy.search(8 * PAGE_SIZE, PAGE_SIZE), Ok(2));
    assert_eq!(buddy.search(PAGE_SIZE, 4 * PAGE_SIZE), Ok(23));
    assert_eq!(buddy.search(PAGE_SIZE, PAGE_SIZE), Ok(20));
    assert_eq!(buddy.allocate(PAGE_SIZE, 4 * PAGE_SIZE), Ok(page(8)));
    assert_eq!(buddy.allocate(PAGE_SIZE, PAGE_SIZE), Ok(page(5)));
    // The search from page 6 on ends at page 8, which is used.
    assert_eq!(buddy.search(PAGE_SIZE, 4 * PAGE_SIZE), Ok(23));
    assert_eq!(buddy.allocate(PAGE_SIZE, 4 * PAGE_SIZE), Err(BuddyErr::NotFound));
    assert_eq!(buddy.search(PAGE_SIZE, 16 * PAGE_SIZE), Err(BuddyErr::NotFound));
    assert_eq!(buddy.search(10 * PAGE_SIZE, PAGE_SIZE), Err(BuddyErr::NotEnough));
    assert_eq!(buddy.search(8 * PAGE_SIZE, PAGE_SIZE), Err(BuddyErr::NotFound));
    assert_eq!(BuddyAllocator::new().search(1, 1), Err(BuddyErr::NoPages));
}

#[test]
fn a_count_above_the_tree_meets_the_wrong_size() {
    let mut buddy = arena(16);
    // A block for no byte takes nothing of the count; given back as a page
    // it adds one. Six times over, the count is above the sixteen leaves.
    for n in 0..6 {
        assert_eq!(buddy.allocate(0, PAGE_SIZE), Ok(page(5)));
        assert_eq!(buddy.deallocate(page(5), PAGE_SIZE), Ok(12 + n));
    }
    assert_eq!(buddy.free_page_count(), 17);
    assert_eq!(buddy.allocate(17 * PAGE_SIZE, PAGE_SIZE), Err(BuddyErr::WrongSize));
    assert_eq!(buddy.allocate(18 * PAGE_SIZE, PAGE_SIZE), Err(BuddyErr::NotEnough));
    assert_eq!(buddy.allocate(16 * PAGE_SIZE, PAGE_SIZE), Err(BuddyErr::NotFound));
    assert_eq!(buddy.free_page_count(), 17);
}

#[test]
fn a_block_that_came_back_goes_out_again() {
    let mut buddy = arena(250);
    let _ = buddy.allocate(4 * PAGE_SIZE, PAGE_SIZE).unwrap();
    for &(pages, align) in [(1usize, 1usize), (2, 1), (3, 2), (16, 32), (1, 8), (0, 1)].iter() {
        let first = buddy.allocate(pages * PAGE_SIZE, align * PAGE_SIZE).unwrap();
        // What goes out behind the block does not move the answer.
        let behind = buddy.allocate(64 * PAGE_SIZE, PAGE_SIZE).unwrap();
        assert!(first < behind);
        assert!(buddy.deallocate(first, pages * PAGE_SIZE).is_ok());
        assert_eq!(buddy.allocate(pages * PAGE_SIZE, align * PAGE_SIZE), Ok(first));
        assert!(buddy.deallocate(behind, 64 * PAGE_SIZE).is_ok());
    }
}

#[test]
fn rounding_keeps_the_leaves_beyond_the_arena() {
    let mut buddy = arena(250);
    let mut seen = vec![false; 250];
    let mut n = 0;
    loop {
        match buddy.allocate(PAGE_SIZE, PAGE_SIZE) {
            Ok(addr) => {
                assert_eq!((addr - BASE) % PAGE_SIZE, 0);
                let k = (addr - BASE) / PAGE_SIZE;
                assert!(ZONE_PAGES <= k && k < 250);
                assert!(!seen[k]);
                seen[k] = true;
                n += 1;
            }
            Err(e) => {
                assert_eq!(e, BuddyErr::NoPages);
                break;
            }
        }
    }
    assert_eq!(n, 250 - ZONE_PAGES);
    assert_eq!(buddy.free_page_count(), 0);
    // Pages 248 and 249 are the last block of two that lies in the arena.
    assert_eq!(buddy.deallocate(page(248), PAGE_SIZE), Ok(1));
    assert_eq!(buddy.deallocate(page(249), PAGE_SIZE), Ok(2));
    assert_eq!(buddy.allocate(2 * PAGE_SIZE, PAGE_SIZE), Ok(page(248)));
    assert_eq!(buddy.allocate(PAGE_SIZE, PAGE_SIZE), Err(BuddyErr::NoPages));
}

#[test]
fn allocate_says_why_it_refuses() {
    let mut buddy = arena(16);
    assert_eq!(buddy.allocate(12 * PAGE_SIZE, PAGE_SIZE), Err(BuddyErr::NotEnough));
    assert_eq!(buddy.allocate(11 * PAGE_SIZE + 1, PAGE_SIZE), Err(BuddyErr::NotEnough));
    assert_eq!(buddy.allocate(MAX_SIZE + 1, PAGE_SIZE), Err(BuddyErr::NotEnough));
    assert_eq!(buddy.allocate(usize::MAX, PAGE_SIZE), Err(BuddyErr::NotEnough));
    // Eleven pages are free, but no block of sixteen.
    assert_eq!(buddy.allocate(11 * PAGE_SIZE, PAGE_SIZE), Err(BuddyErr::NotFound));
    assert_eq!(buddy.allocate(8 * PAGE_SIZE, PAGE_SIZE), Ok(page(8)));
    assert_eq!(buddy.allocate(4 * PAGE_SIZE, PAGE_SIZE), Err(BuddyErr::NotEnough));
    assert_eq!(buddy.allocate(2 * PAGE_SIZE, PAGE_SIZE), Ok(page(6)));
    assert_eq!(buddy.allocate(PAGE_SIZE, PAGE_SIZE), Ok(page(5)));
    assert_eq!(buddy.allocate(PAGE_SIZE, PAGE_SIZE), Err(BuddyErr::NoPages));
    assert_eq!(buddy.allocate(0, PAGE_SIZE), Err(BuddyErr::NoPages));
    assert_eq!(buddy.free_page_count(), 0);
}

#[test]
fn deallocate_says_why_it_refuses() {
    let mut buddy = arena(16);
    let free = buddy.free_page_count();
    let addr = buddy.allocate(2 * PAGE_SIZE, PAGE_SIZE).unwrap();
    assert_eq!(addr, page(6));
    assert_eq!(buddy.deallocate(addr + 8, 2 * PAGE_SIZE), Err(BuddyErr::WrongAddr));
    assert_eq!(buddy.deallocate(addr + 8, PAGE_SIZE + 1), Err(BuddyErr::WrongAddr));
    assert_eq!(buddy.deallocate(addr, 2 * PAGE_SIZE - 1), Err(BuddyErr::WrongSize));
    assert_eq!(buddy.deallocate(addr, 32 * PAGE_SIZE), Err(BuddyErr::WrongSize));
    assert_eq!(buddy.deallocate(addr, MAX_SIZE + PAGE_SIZE), Err(BuddyErr::WrongSize));
    // No block of two pages lies at page 5; the one at page 8 is free.
    assert_eq!(buddy.deallocate(page(5), 2 * PAGE_SIZE), Err(BuddyErr::NotFound));
    assert_eq!(buddy.deallocate(page(8), 2 * PAGE_SIZE), Err(BuddyErr::NotFound));
    assert_eq!(buddy.deallocate(page(16), 2 * PAGE_SIZE), Err(BuddyErr::NotFound));
    assert_eq!(buddy.deallocate(BASE - PAGE_SIZE, 2 * PAGE_SIZE), Err(BuddyErr::NotFound));
    assert_eq!(buddy.deallocate(page(9), PAGE_SIZE), Err(BuddyErr::NotFound));
    // No block of four pages is marked as used.
    assert_eq!(buddy.deallocate(page(4), 4 * PAGE_SIZE), Err(BuddyErr::NotFound));
    assert_eq!(buddy.free_page_count(), free - 2);
    assert_eq!(buddy.deallocate(addr, 2 * PAGE_SIZE), Ok(free));
    assert_eq!(buddy.deallocate(addr, 2 * PAGE_SIZE), Err(BuddyErr::NotFound));
    assert_eq!(buddy.free_page_count(), free);
}

#[test]
fn pages_that_went_out_singly_do_not_come_back_as_one() {
    let mut buddy = arena(16);
    assert_eq!(buddy.allocate(2 * PAGE_SIZE, PAGE_SIZE), Ok(page(6)));
    assert_eq!(buddy.allocate(PAGE_SIZE, PAGE_SIZE), Ok(page(5)));
    assert_eq!(buddy.allocate(PAGE_SIZE, PAGE_SIZE), Ok(page(8)));
    assert_eq!(buddy.allocate(PAGE_SIZE, PAGE_SIZE), Ok(page(9)));
    assert_eq!(buddy.free_page_count(), 6);
    // Pages 8 and 9 are both used, but the node of the two is not: no block
    // of two pages went out there.
    assert!(buddy.zone().bitmap.is_empty(7 + 4));
    assert!(buddy.zone().can_free(15 + 8, 2));
    assert_eq!(buddy.deallocate(page(8), 2 * PAGE_SIZE), Err(BuddyErr::NotFound));
    assert_eq!(buddy.free_page_count(), 6);
    assert!(buddy.zone().can_free(15 + 8, 2));
    // Nor do four pages of the tree, nor the whole arena.
    assert_eq!(buddy.deallocate(page(0), 4 * PAGE_SIZE), Err(BuddyErr::NotFound));
    assert_eq!(buddy.deallocate(page(0), 16 * PAGE_SIZE), Err(BuddyErr::NotFound));
    assert_eq!(buddy.deallocate(page(6), 2 * PAGE_SIZE), Ok(8));
    assert_eq!(buddy.deallocate(page(8), PAGE_SIZE), Ok(9));
    assert_eq!(buddy.deallocate(page(9), PAGE_SIZE), Ok(10));
}

#[test]
fn a_block_comes_back_once() {
    let mut buddy = arena(64);
    let mut out: Vec<(usize, usize)> = Vec::new();
    for &n in [1usize, 2, 4, 3, 8, 1].iter() {
        out.push((buddy.allocate(n * PAGE_SIZE, PAGE_SIZE).unwrap(), n * PAGE_SIZE));
    }
    for &(addr, size) in out.iter() {
        let before = buddy.free_page_count();
        assert_eq!(buddy.deallocate(addr, size), Ok(before + size / PAGE_SIZE));
        assert_eq!(buddy.deallocate(addr, size), Err(BuddyErr::NotFound));
        assert_eq!(buddy.free_page_count(), before + size / PAGE_SIZE);
    }
    assert_eq!(buddy.free_page_count(), 64 - ZONE_PAGES);
}

#[test]
fn a_refused_request_changes_nothing() {
    let mut buddy = arena(16);
    let _ = buddy.allocate(PAGE_SIZE, PAGE_SIZE).unwrap();
    let bits: Vec<bool> = (0..31).map(|i| buddy.zone().bitmap.get_bit(i)).collect();
    let free = buddy.free_page_count();
    assert!(buddy.allocate(16 * PAGE_SIZE, PAGE_SIZE).is_err());
    assert!(buddy.allocate(PAGE_SIZE, 64 * PAGE_SIZE).is_err());
    assert!(buddy.deallocate(page(7), PAGE_SIZE).is_err());
    assert!(buddy.deallocate(page(5) + 1, PAGE_SIZE).is_err());
    assert!(buddy.deallocate(page(5), PAGE_SIZE + 1).is_err());
    let after: Vec<bool> = (0..31).map(|i| buddy.zone().bitmap.get_bit(i)).collect();
    assert_eq!(bits, after);
    assert_eq!(buddy.free_page_count(), free);
}

#[test]
fn when_all_is_back_the_allocator_is_as_new() {
    let fresh = arena(100);
    let mut buddy = arena(100);
    let mut out: Vec<(usize, usize)> = Vec::new();
    for &n in [1usize, 4, 2, 16, 1, 8, 3, 32, 1, 2].iter() {
        let addr = buddy.allocate(n * PAGE_SIZE, PAGE_SIZE).unwrap();
        out.push((addr, n * PAGE_SIZE));
    }
    for &(addr, size) in out.iter().rev() {
        assert!(buddy.deallocate(addr, size).is_ok());
    }
    assert_eq!(buddy.free_page_count(), fresh.free_page_count());
    assert_eq!(buddy.zone().level, fresh.zone().level);
    for i in 0..buddy.zone().max_node() + 1 {
        assert_eq!(buddy.zone().bitmap.get_bit(i), fresh.zone().bitmap.get_bit(i));
        assert_eq!(buddy.zone().get_value(i), fresh.zone().get_value(i));
    }
}

#[test]
fn tree_errors_map_one_to_one() {
    assert_eq!(BuddyErr::from(TreeErr::NotEnough), BuddyErr::NotEnough);
    assert_eq!(BuddyErr::from(TreeErr::NotFound), BuddyErr::NotFound);
    assert_eq!(BuddyErr::from(TreeErr::WrongSize), BuddyErr::WrongSize);
}
