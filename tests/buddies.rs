use buddies::RawBuddies;

/// Four levels: level 0 holds eight size-0 blocks.
const LEVELS: usize = 4;

fn tree() -> RawBuddies<u32> {
    RawBuddies::new(LEVELS, vec![None; 1 << LEVELS])
}

fn level_len(n: usize) -> usize {
    1 << (LEVELS - n - 1)
}

/// Every block's bit, level by level.
fn snapshot(t: &RawBuddies<u32>) -> Vec<bool> {
    let mut out = Vec::new();
    for n in 0..LEVELS {
        for i in 0..level_len(n) {
            out.push(t.bit(n, i));
        }
    }
    out
}

fn all_clear(t: &RawBuddies<u32>) -> bool {
    snapshot(t).iter().all(|b| !*b)
}

#[test]
fn single_smallest_allocate_and_free() {
    let mut t = tree();
    assert_eq!(t.allocate(0), Some((0, 0)));
    assert!(t.bit(0, 0));
    assert!(t.bit(1, 0));
    assert!(t.bit(2, 0));
    assert!(t.bit(3, 0));
    assert!(!t.bit(0, 1));
    assert!(!t.bit(1, 1));
    assert!(!t.bit(2, 1));
    t.free(0, 0);
    assert!(all_clear(&t));
}

#[test]
fn fill_smallest_then_exhaust() {
    let mut t = tree();
    for k in 0..8 {
        assert_eq!(t.allocate(0), Some((k, k)));
    }
    assert_eq!(t.allocate(0), None);
    for n in 0..LEVELS {
        assert!(!t.can_allocate(n));
    }
}

#[test]
fn mixed_sizes_and_coalescing() {
    let mut t = tree();
    assert_eq!(t.allocate(1), Some((0, 0)));
    assert_eq!(t.allocate(1), Some((2, 1)));
    t.free(1, 0);
    assert!(!t.bit(1, 0));
    assert!(t.bit(2, 0));
    t.free(1, 1);
    assert!(!t.bit(1, 1));
    assert!(!t.bit(2, 0));
    assert!(all_clear(&t));
    assert!(t.can_allocate(2));
    assert_eq!(t.allocate(2), Some((0, 0)));
}

#[test]
fn ancestor_blocks_descendants() {
    let mut t = tree();
    assert_eq!(t.allocate(2), Some((0, 0)));
    assert_eq!(t.allocate(0), Some((4, 4)));
}

#[test]
fn freed_block_is_clear_again() {
    let mut t = tree();
    assert_eq!(t.allocate(1), Some((0, 0)));
    assert!(t.bit(1, 0));
    t.free(1, 0);
    // a second free of (1, 0) is refused: its bit is clear
    assert!(!t.bit(1, 0));
    assert!(all_clear(&t));
}

#[test]
fn no_fit_when_free_elements_are_split() {
    let mut t = tree();
    assert_eq!(t.allocate(1), Some((0, 0)));
    assert_eq!(t.allocate(1), Some((2, 1)));
    assert_eq!(t.allocate(1), Some((4, 2)));
    t.free(1, 1);
    assert!(!t.can_allocate(2));
    assert_eq!(t.allocate(2), None);
    assert_eq!(t.allocate(1), Some((2, 1)));
}

#[test]
fn live_ranges_are_disjoint() {
    let mut t = tree();
    let mut ranges = Vec::new();
    for n in [0usize, 1, 0, 2, 0, 0] {
        if let Some((h, pos)) = t.allocate(n) {
            assert_eq!(h, pos << n);
            ranges.push((h, h + (1 << n)));
        }
    }
    assert_eq!(ranges, vec![(0, 1), (2, 4), (1, 2), (4, 8)]);
    for (a, x) in ranges.iter().enumerate() {
        for (b, y) in ranges.iter().enumerate() {
            if a != b {
                assert!(x.1 <= y.0 || y.1 <= x.0);
            }
        }
    }
}

#[test]
fn allocate_then_free_restores_bitmap() {
    let mut t = tree();
    t.allocate(0);
    t.allocate(1);
    let before = snapshot(&t);
    let (_, pos) = t.allocate(0).unwrap();
    assert_ne!(snapshot(&t), before);
    t.free(0, pos);
    assert_eq!(snapshot(&t), before);
}

#[test]
fn freeing_everything_clears_every_bit() {
    let mut t = tree();
    let a = t.allocate(0).unwrap().1;
    let b = t.allocate(2).unwrap().1;
    let c = t.allocate(1).unwrap().1;
    let d = t.allocate(0).unwrap().1;
    t.free(1, c);
    t.free(0, a);
    t.free(2, b);
    t.free(0, d);
    assert!(all_clear(&t));
}

#[test]
fn capacity_of_each_size() {
    for n in 0..LEVELS {
        let mut t = tree();
        let mut count = 0;
        while t.allocate(n).is_some() {
            count += 1;
        }
        assert_eq!(count, level_len(n));
    }
}

#[test]
fn can_allocate_agrees_with_allocate() {
    let mut t = tree();
    for n in [2usize, 1, 1, 2, 0, 0, 3] {
        let can = t.can_allocate(n);
        assert_eq!(can, t.allocate(n).is_some());
    }
}

#[test]
fn repeated_allocation_goes_lowest_first() {
    let mut t = tree();
    for k in 0..4 {
        assert_eq!(t.allocate(1), Some((2 * k, k)));
    }
    assert_eq!(t.allocate(1), None);
}

#[test]
fn allocation_never_clears_a_bit() {
    let mut t = tree();
    for n in [0usize, 1, 0, 0, 2, 0] {
        let before = snapshot(&t);
        t.allocate(n);
        let after = snapshot(&t);
        for (x, y) in before.iter().zip(after.iter()) {
            assert!(!*x || *y);
        }
    }
}

#[test]
fn busy_sibling_locks_the_levels_above() {
    let mut t = tree();
    assert_eq!(t.allocate(0), Some((0, 0)));
    assert_eq!(t.allocate(0), Some((1, 1)));
    let before = snapshot(&t);
    t.free(0, 0);
    let after = snapshot(&t);
    // level 0 occupies the first eight bits
    assert_eq!(before[8..], after[8..]);
    assert!(!t.bit(0, 0));
    assert!(t.bit(0, 1));
}

#[test]
fn top_level_block_covers_half_the_region() {
    let mut t = tree();
    assert_eq!(t.allocate(3), Some((0, 0)));
    assert!(!t.can_allocate(3));
    for n in 0..3 {
        assert!(!t.can_allocate(n));
    }
    t.free(3, 0);
    assert!(all_clear(&t));
}

#[test]
fn free_drops_only_the_head_element() {
    let mut t = tree();
    let (h, pos) = t.allocate(1).unwrap();
    t.put(h, 7);
    t.put(h + 1, 8);
    assert_eq!(t.slot(h), &Some(7));
    t.free(1, pos);
    assert_eq!(t.slot(h), &None);
    assert_eq!(t.slot(h + 1), &Some(8));
}

#[test]
fn smallest_tree_has_one_block() {
    let mut t: RawBuddies<u8> = RawBuddies::new(1, vec![None; 2]);
    assert!(t.can_allocate(0));
    assert_eq!(t.allocate(0), Some((0, 0)));
    assert!(!t.can_allocate(0));
    assert_eq!(t.allocate(0), None);
    t.free(0, 0);
    assert!(t.can_allocate(0));
}
