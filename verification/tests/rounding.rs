use buddy_allocator::def::{align_down, align_up, is_align, PGSZ};

#[test]
fn align_down_goes_to_the_multiple_below() {
    assert_eq!(align_down(0, PGSZ), 0);
    assert_eq!(align_down(1, PGSZ), 0);
    assert_eq!(align_down(PGSZ - 1, PGSZ), 0);
    assert_eq!(align_down(PGSZ, PGSZ), PGSZ);
    assert_eq!(align_down(3 * PGSZ + 17, PGSZ), 3 * PGSZ);
    assert_eq!(align_down(usize::MAX, PGSZ), usize::MAX - (PGSZ - 1));
    assert_eq!(align_down(17, 5), 15);
}

#[test]
fn align_up_goes_to_the_multiple_above() {
    assert_eq!(align_up(0, PGSZ), 0);
    assert_eq!(align_up(1, PGSZ), PGSZ);
    assert_eq!(align_up(PGSZ - 1, PGSZ), PGSZ);
    assert_eq!(align_up(PGSZ, PGSZ), PGSZ);
    assert_eq!(align_up(3 * PGSZ + 17, PGSZ), 4 * PGSZ);
    assert_eq!(align_up(17, 5), 20);
}

#[test]
fn is_align_tests_for_a_multiple() {
    assert!(is_align(0, PGSZ));
    assert!(is_align(PGSZ, PGSZ));
    assert!(is_align(8 * PGSZ, 4 * PGSZ));
    assert!(!is_align(PGSZ + 1, PGSZ));
    assert!(!is_align(6 * PGSZ, 4 * PGSZ));
    assert!(is_align(21, 7));
}
