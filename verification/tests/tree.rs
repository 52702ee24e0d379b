use buddy_allocator::bintree::def::{MAX_LEVEL, MAX_NODES, MAX_SIZE, MIN_SIZE};
use buddy_allocator::bintree::tree::{BinTree, TreeErr};
use buddy_allocator::def::PGSZ;

#[test]
fn get_level_test() {
    let mut tree1 = BinTree::new();
    let mut tree2 = BinTree::new();
    let mut tree3 = BinTree::new();
    let _ = tree1.init(0x10000, PGSZ);
    let _ = tree2.init(0x10000, PGSZ * 2);
    let _ = tree3.init(0x10000, PGSZ * 3);

    for i in 0..tree1.level {
        assert_eq!(i + 1, tree1.get_level(PGSZ * (1 >> i)));
    }

    for i in 0..tree2.level {
        assert_eq!(i + 1, tree2.get_level(PGSZ * (2 >> i)));
    }

    // Three pages take a tree of four leaves, whose root holds four pages.
    for i in 0..tree3.level {
        assert_eq!(i + 1, tree3.get_level(PGSZ * (4 >> i)));
    }
}

#[test]
fn get_index_test() {
    let mut tree1 = BinTree::new();
    let mut tree2 = BinTree::new();
    let mut tree3 = BinTree::new();
    let _ = tree1.init(0x10000, PGSZ);
    let _ = tree2.init(0x10000, PGSZ * 2);
    let _ = tree3.init(0x10000, PGSZ * 3);

    for i in 0..tree1.level {
        assert_eq!((2usize.pow(i as u32)) - 1, tree1.get_index(i + 1));
    }

    for i in 0..tree2.level {
        assert_eq!((2usize.pow(i as u32)) - 1, tree2.get_index(i + 1));
    }

    for i in 0..tree3.level {
        assert_eq!((2usize.pow(i as u32)) - 1, tree3.get_index(i + 1));
    }
}

#[test]
fn find_test() {
    let mut tree = BinTree::new();
    let _ = tree.init(0x10000, PGSZ << 1);

    assert!(tree.find(PGSZ << 1, false).is_ok());
    assert_eq!(0, tree.find(PGSZ << 1, false).unwrap());
    assert!(tree.find(PGSZ, false).is_ok());
    assert_eq!(1, tree.find(PGSZ, false).unwrap());
    tree.bitmap.set_bit(1);
    assert!(tree.find(PGSZ, false).is_ok());
    assert_eq!(2, tree.find(PGSZ, false).unwrap());
    assert!(tree.find(PGSZ, true).is_ok());
    assert_eq!(1, tree.find(PGSZ, true).unwrap());
}

#[test]
fn init_test() {
    let mut tree = BinTree::new();
    let mut bad_tree = BinTree::new();

    let gen_success = tree.init(0x10000, PGSZ * 10);
    let gen_error = bad_tree.init(0x10000, PGSZ / 2);

    assert!(gen_success.is_ok());
    assert!(gen_error.is_err());

    println!("{:x?}", tree);
}

#[test]
fn new_tree_is_not_set_up() {
    let tree = BinTree::new();
    assert_eq!(tree.level, 0);
    for i in 0..MAX_NODES {
        assert_eq!(tree.get_value(i), 0);
        assert!(tree.bitmap.is_empty(i));
    }
    assert_eq!(tree.find(PGSZ, false), Err(TreeErr::WrongSize));
    assert_eq!(tree.find(0, true), Err(TreeErr::WrongSize));
}

#[test]
fn init_reports_the_pages_and_the_levels() {
    let mut tree = BinTree::new();
    assert_eq!(tree.init(0x10000, PGSZ), Ok(1));
    assert_eq!(tree.level, 1);
    assert_eq!(tree.init(0x10000, PGSZ * 2), Ok(2));
    assert_eq!(tree.level, 2);
    assert_eq!(tree.init(0x10000, PGSZ * 3 + 17), Ok(3));
    assert_eq!(tree.level, 3);
    assert_eq!(tree.init(0x10000, PGSZ * 10), Ok(10));
    assert_eq!(tree.level, 5);
    assert_eq!(tree.init(0x10000, MAX_SIZE), Ok(1024));
    assert_eq!(tree.level, MAX_LEVEL);
    assert_eq!(tree.max_node(), MAX_NODES - 1);
}

#[test]
fn init_below_one_page_is_refused() {
    let mut tree = BinTree::new();
    assert_eq!(tree.init(0x10000, MIN_SIZE - 1), Err(TreeErr::NotEnough));
    assert_eq!(tree.init(0x10000, 0), Err(TreeErr::NotEnough));
    assert_eq!(tree.level, 0);

    // No address is worked out for a size below one page.
    assert_eq!(tree.init(usize::MAX - 7, MIN_SIZE - 1), Err(TreeErr::NotEnough));
    assert_eq!(tree.level, 0);
    assert_eq!(tree.get_value(0), 0);

    assert_eq!(tree.init(0x10000, PGSZ * 4), Ok(4));
    assert_eq!(tree.init(0x20000, PGSZ / 2), Err(TreeErr::NotEnough));
    assert_eq!(tree.init(usize::MAX, 0), Err(TreeErr::NotEnough));
    assert_eq!(tree.level, 3);
    assert_eq!(tree.get_value(0), 0x10000);
    assert_eq!(tree.find(PGSZ * 4, false), Ok(0));
}

#[test]
fn init_lays_the_blocks_side_by_side() {
    let mut tree = BinTree::new();
    assert_eq!(tree.init(0x10000, PGSZ * 3), Ok(3));
    assert_eq!(tree.get_value(0), 0x10000);
    assert_eq!(tree.get_value(1), 0x10000);
    assert_eq!(tree.get_value(2), 0x10000 + 2 * PGSZ);
    assert_eq!(tree.get_value(3), 0x10000);
    assert_eq!(tree.get_value(4), 0x10000 + PGSZ);
    assert_eq!(tree.get_value(5), 0x10000 + 2 * PGSZ);
    assert_eq!(tree.get_value(6), 0x10000 + 3 * PGSZ);
    for i in 0..6 {
        assert!(tree.bitmap.is_empty(i));
    }
    for i in 6..MAX_NODES {
        assert!(tree.bitmap.get_bit(i));
    }
}

#[test]
fn leaf_beyond_the_arena_is_never_found() {
    let mut tree = BinTree::new();
    assert_eq!(tree.init(0x10000, PGSZ * 3), Ok(3));
    assert_eq!(tree.find(PGSZ, false), Ok(3));
    tree.use_page(3);
    assert_eq!(tree.find(PGSZ, false), Ok(4));
    tree.use_page(4);
    assert_eq!(tree.find(PGSZ, false), Ok(5));
    tree.use_page(5);
    assert_eq!(tree.find(PGSZ, false), Err(TreeErr::NotFound));
    // The second half holds the leaf beyond the arena: it is no free block.
    assert_eq!(tree.find(PGSZ * 2, false), Err(TreeErr::NotFound));
}

#[test]
fn tree_of_two_pages() {
    let mut tree = BinTree::new();
    assert_eq!(tree.init(0x40000, 2 * PGSZ), Ok(2));
    assert_eq!(tree.find(2 * PGSZ, false), Ok(0));
    assert_eq!(tree.find(PGSZ, false), Ok(1));
    tree.use_page(1);
    assert_eq!(tree.find(PGSZ, false), Ok(2));
    assert_eq!(tree.find(PGSZ, true), Ok(1));
    // The root's own bit is free, but not every leaf under it.
    assert_eq!(tree.find(2 * PGSZ, false), Err(TreeErr::NotFound));
    assert_eq!(tree.find(2 * PGSZ, true), Err(TreeErr::NotFound));
}

#[test]
fn find_checks_the_last_node_of_a_level() {
    let mut tree = BinTree::new();
    assert_eq!(tree.init(0, PGSZ * 4), Ok(4));
    tree.use_page(3);
    tree.use_page(4);
    tree.use_page(5);
    assert_eq!(tree.find(PGSZ, false), Ok(6));
    tree.use_page(6);
    assert_eq!(tree.find(PGSZ, false), Err(TreeErr::NotFound));
    assert_eq!(tree.find(PGSZ, true), Ok(3));
    tree.use_page(0);
    assert_eq!(tree.find(PGSZ * 4, true), Ok(0));
    tree.unuse_page(6);
    assert_eq!(tree.find(PGSZ * 4, true), Err(TreeErr::NotFound));
}

#[test]
fn find_refuses_a_size_above_the_tree() {
    let mut tree = BinTree::new();
    assert_eq!(tree.init(0, PGSZ * 4), Ok(4));
    assert_eq!(tree.find(PGSZ * 4, false), Ok(0));
    assert_eq!(tree.find(PGSZ * 5, false), Err(TreeErr::WrongSize));
    assert_eq!(tree.find(MAX_SIZE, false), Err(TreeErr::WrongSize));
    assert_eq!(tree.find(MAX_SIZE + 1, false), Err(TreeErr::WrongSize));
    assert_eq!(tree.find(usize::MAX, true), Err(TreeErr::WrongSize));

    assert_eq!(tree.init(0, MAX_SIZE), Ok(1024));
    assert_eq!(tree.find(MAX_SIZE, false), Ok(0));
    assert_eq!(tree.find(MAX_SIZE + 1, false), Err(TreeErr::WrongSize));
}

#[test]
fn find_rounds_a_size_up_to_a_block() {
    let mut tree = BinTree::new();
    assert_eq!(tree.init(0, PGSZ * 8), Ok(8));
    // Three pages take a block of four: level 2, nodes 1 and 2.
    assert_eq!(tree.find(PGSZ * 3, false), Ok(1));
    tree.use_page(7);
    assert_eq!(tree.find(PGSZ * 3, false), Ok(2));
    // Only the first three leaves under the node are looked at.
    tree.unuse_page(7);
    tree.use_page(10);
    assert_eq!(tree.find(PGSZ * 3, false), Ok(1));
    assert_eq!(tree.find(PGSZ * 4, false), Ok(2));
    // Less than a page, and nothing, are looked for among the leaves.
    assert_eq!(tree.find(1, false), Ok(7));
    assert_eq!(tree.find(0, false), Ok(7));
    assert_eq!(tree.find(0, true), Ok(10));
}

#[test]
fn get_level_counts_the_halvings() {
    let mut tree = BinTree::new();
    assert_eq!(tree.init(0, MAX_SIZE), Ok(1024));
    assert_eq!(tree.get_level(0), 11);
    assert_eq!(tree.get_level(1), 11);
    assert_eq!(tree.get_level(PGSZ), 11);
    assert_eq!(tree.get_level(PGSZ + 1), 11);
    assert_eq!(tree.get_level(2 * PGSZ - 1), 11);
    assert_eq!(tree.get_level(2 * PGSZ), 10);
    assert_eq!(tree.get_level(3 * PGSZ), 9);
    assert_eq!(tree.get_level(4 * PGSZ), 9);
    assert_eq!(tree.get_level(5 * PGSZ), 8);
    assert_eq!(tree.get_level(512 * PGSZ), 2);
    assert_eq!(tree.get_level(513 * PGSZ), 1);
    assert_eq!(tree.get_level(MAX_SIZE), 1);
}

#[test]
fn index_arithmetic() {
    let mut tree = BinTree::new();
    assert_eq!(tree.init(0, PGSZ * 16), Ok(16));
    assert_eq!(tree.level, 5);
    assert_eq!(tree.get_index(1), 0);
    assert_eq!(tree.get_index(2), 1);
    assert_eq!(tree.get_index(5), 15);
    assert_eq!(tree.get_index(6), 31);
    assert_eq!(tree.max_node(), 30);
    assert_eq!(tree.find_left_child(0), 1);
    assert_eq!(tree.find_right_child(0), 2);
    assert_eq!(tree.find_left_child(6), 13);
    assert_eq!(tree.find_right_child(6), 14);
    assert_eq!(tree.find_parent(13), 6);
    assert_eq!(tree.find_parent(14), 6);
    assert_eq!(tree.find_parent(1), 0);
    assert_eq!(tree.find_parent(2), 0);
    assert_eq!(tree.left_leaf(0, 1), 15);
    assert_eq!(tree.left_leaf(2, 2), 23);
    assert_eq!(tree.left_leaf(6, 3), 27);
    assert_eq!(tree.left_leaf(30, 5), 30);
}

#[test]
fn use_mem_marks_the_whole_subtree() {
    let mut tree = BinTree::new();
    assert_eq!(tree.init(0, PGSZ * 8), Ok(8));
    tree.use_mem(2);
    let below = [2usize, 5, 6, 11, 12, 13, 14];
    for i in 0..15 {
        assert_eq!(tree.bitmap.get_bit(i), below.contains(&i));
    }
    assert!(tree.can_free(11, 4));
    assert!(!tree.can_free(10, 2));
    assert!(tree.can_use(7, 4));
    assert!(!tree.can_use(7, 5));
    assert!(tree.can_use(9, 0));
    assert!(tree.can_free(9, 0));

    tree.unuse_mem(5);
    let left = [2usize, 6, 13, 14];
    for i in 0..15 {
        assert_eq!(tree.bitmap.get_bit(i), left.contains(&i));
    }
    // A node beyond the tree has no node of the tree below it.
    tree.use_mem(15);
    tree.unuse_mem(40);
    for i in 0..15 {
        assert_eq!(tree.bitmap.get_bit(i), left.contains(&i));
    }
    for i in 15..MAX_NODES {
        assert!(tree.bitmap.get_bit(i));
    }
    tree.unuse_mem(0);
    for i in 0..15 {
        assert!(tree.bitmap.is_empty(i));
    }
}

#[test]
fn find_match_goes_by_the_address() {
    let mut tree = BinTree::new();
    assert_eq!(tree.init(0x8000, PGSZ * 8), Ok(8));
    // No used node on the level: nothing to start from.
    assert_eq!(tree.find_match(PGSZ, 0x8000 + 2 * PGSZ, true), Err(TreeErr::NotFound));
    tree.use_mem(8);
    assert_eq!(tree.find_match(PGSZ, 0x8000 + PGSZ, true), Ok(8));
    // The search starts at the first used leaf and goes by the address alone.
    assert_eq!(tree.find_match(PGSZ, 0x8000 + 5 * PGSZ, true), Ok(12));
    assert_eq!(tree.find_match(PGSZ, 0x8000, true), Err(TreeErr::NotFound));
    assert_eq!(tree.find_match(PGSZ, 0x8000 + 8 * PGSZ, true), Err(TreeErr::NotFound));
    assert_eq!(tree.find_match(PGSZ, 0x8000 + PGSZ + 8, true), Err(TreeErr::NotFound));
    assert_eq!(tree.find_match(PGSZ, 0x8000 + 3 * PGSZ, false), Ok(10));
    assert_eq!(tree.find_match(2 * PGSZ, 0x8000 + 2 * PGSZ, false), Ok(4));
    assert_eq!(tree.find_match(2 * PGSZ, 0x8000, false), Err(TreeErr::NotFound));
    assert_eq!(tree.find_match(16 * PGSZ, 0x8000, false), Err(TreeErr::WrongSize));
    assert_eq!(tree.find_match(MAX_SIZE + PGSZ, 0x8000, true), Err(TreeErr::WrongSize));
}
