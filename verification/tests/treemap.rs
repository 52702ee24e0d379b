use buddy_allocator::bintree::def::{MAP_WORDS, MAX_NODES};
use buddy_allocator::bintree::treemap::TreeMap;

#[test]
fn new_map_is_clear() {
    let map = TreeMap::new();
    for i in 0..MAX_NODES {
        assert!(!map.get_bit(i));
        assert!(map.is_empty(i));
    }
}

#[test]
fn set_and_unset_touch_one_bit() {
    let mut map = TreeMap::new();
    let picked = [0usize, 1, 63, 64, 65, 127, 128, 1000, MAX_NODES - 1];
    for &i in picked.iter() {
        map.set_bit(i);
    }
    for i in 0..MAX_NODES {
        assert_eq!(map.get_bit(i), picked.contains(&i));
        assert_eq!(map.is_empty(i), !picked.contains(&i));
    }
    map.set_bit(64);
    assert!(map.get_bit(64));
    map.unset_bit(64);
    map.unset_bit(0);
    map.unset_bit(2);
    for i in 0..MAX_NODES {
        assert_eq!(map.get_bit(i), picked.contains(&i) && i != 64 && i != 0);
    }
}

#[test]
fn set_bit_all_sets_every_bit() {
    let mut map = TreeMap::new();
    map.set_bit(5);
    map.set_bit_all();
    for i in 0..MAX_NODES {
        assert!(map.get_bit(i));
    }
    map.unset_bit(MAX_NODES - 1);
    assert!(map.is_empty(MAX_NODES - 1));
    assert!(map.get_bit(MAX_NODES - 2));
}

#[test]
fn the_words_hold_a_bit_for_each_node() {
    assert!(MAP_WORDS * 64 >= MAX_NODES);
    assert!((MAP_WORDS - 1) * 64 < MAX_NODES);
}
