use buddy_allocator::{Buddies, GrowPlacement};

#[test]
fn allocations_follow_first_fit() {
    let mut buddies = Buddies::new(5, 1, None);
    assert_eq!(buddies.allocate(1, 1), Some(0));
    assert_eq!(buddies.allocate(2, 1), Some(2));
    assert_eq!(buddies.allocate(2, 1), Some(4));
    assert_eq!(buddies.allocate(2, 4), Some(8));
}

#[test]
fn real_sizes_with_unit_granules() {
    let buddies = Buddies::new(3, 1, None);
    assert_eq!(buddies.capacity(), 4);
    assert_eq!(buddies.real_size_for_allocation(0), 1);
    assert_eq!(buddies.real_size_for_allocation(1), 1);
    assert_eq!(buddies.real_size_for_allocation(2), 2);
    assert_eq!(buddies.real_size_for_allocation(3), 4);
    assert_eq!(buddies.real_size_for_allocation(4), 4);
}

#[test]
fn real_sizes_with_four_byte_granules() {
    let buddies = Buddies::new(3, 4, None);
    assert_eq!(buddies.capacity(), 16);
    assert_eq!(buddies.real_size_for_allocation(0), 4);
    assert_eq!(buddies.real_size_for_allocation(4), 4);
    assert_eq!(buddies.real_size_for_allocation(8), 8);
    assert_eq!(buddies.real_size_for_allocation(12), 16);
    assert_eq!(buddies.real_size_for_allocation(16), 16);
}

#[test]
fn real_size_never_below_request() {
    let buddies = Buddies::new(5, 4, None);
    for i in 0..=buddies.capacity() {
        let real = buddies.real_size_for_allocation(i);
        assert!(i <= real, "{} -> {}", i, real);
        assert!(real.is_power_of_two());
        assert!(real < 4 || real / 2 < i || real == 4);
    }
}

#[test]
fn grow_chain_succeeds() {
    let mut buddies = Buddies::new(3, 1, None);
    let o = buddies.allocate(0, 1).unwrap();
    let o = buddies.grow(o, 0, 1, GrowPlacement::InPlace).unwrap();
    let o = buddies.grow(o, 1, 2, GrowPlacement::MayMove).unwrap();
    let o = buddies.grow(o, 2, 3, GrowPlacement::InPlace).unwrap();
    assert_eq!(o, 0);
    assert_eq!(buddies.allocate(1, 1), None);
}

#[test]
fn shrink_chain_keeps_block_live() {
    let mut buddies = Buddies::new(3, 1, None);
    let i = buddies.allocate(3, 1).unwrap();
    assert_eq!(i, 0);
    buddies.shrink(i, 3, 2);
    buddies.shrink(i, 2, 1);
    buddies.shrink(i, 1, 0);
    assert_eq!(buddies.allocate(3, 1), None);
    buddies.deallocate(i, 0);
    assert_eq!(buddies.allocate(3, 1), Some(0));
}

#[test]
fn shrink_frees_upper_halves() {
    let mut buddies = Buddies::new(3, 1, None);
    let i = buddies.allocate(4, 1).unwrap();
    buddies.shrink(i, 4, 1);
    assert_eq!(buddies.allocate(2, 1), Some(2));
    assert_eq!(buddies.allocate(1, 1), Some(1));
    assert_eq!(buddies.allocate(1, 1), None);
}

#[test]
fn truncated_capacity_bounds_allocations() {
    let mut buddies = Buddies::new(3, 4, Some(12));
    assert_eq!(buddies.capacity(), 12);
    assert_eq!(buddies.allocate(4, 4), Some(8));
    assert_eq!(buddies.allocate(4, 4), Some(0));
    assert_eq!(buddies.allocate(4, 4), Some(4));
    assert_eq!(buddies.allocate(4, 4), None);
    assert_eq!(buddies.allocate(1, 1), None);
}

#[test]
fn truncated_capacity_refuses_a_larger_block() {
    let mut buddies = Buddies::new(3, 4, Some(12));
    assert_eq!(buddies.allocate(8, 4), Some(0));
    assert_eq!(buddies.allocate(8, 4), None);
    assert_eq!(buddies.allocate(4, 4), Some(8));
    assert_eq!(buddies.allocate(4, 4), None);
}

#[test]
fn truncated_capacity_never_joins_past_the_end() {
    let mut buddies = Buddies::new(3, 4, Some(12));
    let a = buddies.allocate(4, 4).unwrap();
    assert_eq!(a, 8);
    buddies.deallocate(a, 4);
    assert_eq!(buddies.allocate(12, 4), None);
    assert_eq!(buddies.allocate(8, 4), Some(0));
    assert_eq!(buddies.allocate(4, 4), Some(8));
}

#[test]
fn with_capacity_keeps_the_capacity() {
    let mut buddies = Buddies::with_capacity(500, 1);
    assert_eq!(buddies.capacity(), 500);
    assert_eq!(buddies.real_size_for_allocation(500), 512);
    assert!(buddies.allocate(2, 2).is_some());
}

#[test]
fn with_capacity_of_one_granule() {
    let mut buddies = Buddies::with_capacity(16, 16);
    assert_eq!(buddies.capacity(), 16);
    assert_eq!(buddies.allocate(16, 16), Some(0));
    assert_eq!(buddies.allocate(1, 1), None);
}

#[test]
fn capacity_of_each_constructor() {
    assert_eq!(Buddies::new(3, 1, None).capacity(), 4);
    assert_eq!(Buddies::new(3, 4, None).capacity(), 16);
    assert_eq!(Buddies::new(3, 4, Some(12)).capacity(), 12);
}

#[test]
fn is_unused_seals() {
    let mut buddies = Buddies::new(3, 1, None);
    let idx = buddies.allocate(1, 1).unwrap();
    assert!(!buddies.is_unused());
    buddies.deallocate(idx, 1);
    assert!(buddies.is_unused());
    assert_eq!(buddies.allocate(1, 1), None);
    assert_eq!(buddies.allocate(0, 1), None);
    assert!(!buddies.is_unused());
}

#[test]
fn deallocation_in_any_order_restores_everything() {
    let mut buddies = Buddies::new(5, 1, None);
    let idx1 = buddies.allocate(1, 1).unwrap();
    let idx2 = buddies.allocate(2, 1).unwrap();
    let idx3 = buddies.allocate(2, 1).unwrap();
    let idx4 = buddies.allocate(2, 4).unwrap();
    buddies.deallocate(idx1, 1);
    buddies.deallocate(idx4, 2);
    buddies.deallocate(idx2, 2);
    buddies.deallocate(idx3, 2);
    assert_eq!(buddies.allocate(16, 1), Some(0));
}

#[test]
fn allocate_then_deallocate_leaves_no_trace() {
    let mut buddies = Buddies::new(4, 2, None);
    let a = buddies.allocate(4, 2).unwrap();
    let b = buddies.allocate(2, 2).unwrap();
    let c = buddies.allocate(3, 4).unwrap();
    buddies.deallocate(c, 3);
    let c2 = buddies.allocate(3, 4).unwrap();
    assert_eq!(c, c2);
    buddies.deallocate(c2, 3);
    buddies.deallocate(b, 2);
    buddies.deallocate(a, 4);
    assert_eq!(buddies.allocate(16, 16), Some(0));
}

#[test]
fn alignment_and_containment_hold() {
    let mut buddies = Buddies::new(6, 2, None);
    let cap = buddies.capacity();
    let mut live = Vec::new();
    let requests = [(3usize, 1usize), (1, 8), (6, 2), (2, 16), (9, 4), (1, 1), (4, 32)];
    for &(size, align) in requests.iter() {
        if let Some(o) = buddies.allocate(size, align) {
            let real = buddies.real_size_for_allocation(size);
            assert_eq!(o % align, 0);
            assert_eq!(o % 2, 0);
            assert!(o + real <= cap);
            for &(p, q) in live.iter() {
                assert!(o + real <= p || p + q <= o);
            }
            live.push((o, real));
        }
    }
    assert!(live.len() >= 5);
}

#[test]
fn failing_grow_changes_nothing() {
    let mut buddies = Buddies::new(4, 1, None);
    let a = buddies.allocate(2, 1).unwrap();
    let b = buddies.allocate(2, 1).unwrap();
    assert_eq!((a, b), (0, 2));
    assert_eq!(buddies.grow(a, 2, 8, GrowPlacement::MayMove), None);
    assert_eq!(buddies.allocate(4, 1), Some(4));
    assert_eq!(buddies.allocate(2, 1), None);
}

#[test]
fn grow_in_place_refuses_a_moving_block() {
    let mut buddies = Buddies::new(3, 1, None);
    let a = buddies.allocate(1, 1).unwrap();
    let b = buddies.allocate(1, 1).unwrap();
    assert_eq!((a, b), (0, 1));
    buddies.deallocate(a, 1);
    assert_eq!(buddies.grow(b, 1, 2, GrowPlacement::InPlace), None);
    assert_eq!(buddies.grow(b, 1, 2, GrowPlacement::MayMove), Some(0));
}

#[test]
fn grow_to_the_same_size_returns_the_offset() {
    let mut buddies = Buddies::new(4, 1, None);
    let a = buddies.allocate(2, 1).unwrap();
    let b = buddies.allocate(2, 1).unwrap();
    assert_eq!(buddies.grow(b, 2, 2, GrowPlacement::InPlace), Some(b));
    assert_eq!(buddies.grow(a, 2, 2, GrowPlacement::MayMove), Some(a));
    assert_eq!(buddies.allocate(2, 1), Some(4));
}

#[test]
fn allocate_at_splits_the_free_block_above() {
    let mut buddies = Buddies::new(3, 1, None);
    assert!(buddies.allocate_at(1, 2));
    assert_eq!(buddies.allocate(2, 1), Some(0));
    assert_eq!(buddies.allocate(1, 1), Some(3));
    assert!(!buddies.allocate_at(1, 0));
    assert!(!buddies.allocate_at(1, 2));
}

#[test]
fn allocate_at_stays_within_the_capacity() {
    let mut buddies = Buddies::new(3, 4, Some(12));
    assert!(!buddies.allocate_at(4, 12));
    assert!(buddies.allocate_at(4, 8));
    assert!(!buddies.allocate_at(4, 8));
    assert!(buddies.allocate_at(8, 0));
    assert_eq!(buddies.allocate(1, 1), None);
}

#[test]
fn allocate_at_fails_once_sealed() {
    let mut buddies = Buddies::new(3, 1, None);
    assert!(buddies.is_unused());
    assert!(!buddies.allocate_at(1, 0));
}

#[test]
fn max_size_covers_the_whole_tree() {
    assert_eq!(Buddies::new(3, 4, Some(12)).max_size(), 16);
    assert_eq!(Buddies::with_capacity(48, 16).max_size(), 64);
    assert_eq!(Buddies::with_capacity(48, 16).capacity(), 48);
}

#[test]
fn aligned_block_at_a_truncated_end_is_found() {
    let mut buddies = Buddies::new(3, 4, Some(12));
    assert_eq!(buddies.allocate(8, 1), Some(0));
    assert_eq!(buddies.allocate(4, 8), Some(8));
    assert_eq!(buddies.allocate(4, 4), None);
}

#[test]
fn over_large_requests_are_refused() {
    let mut buddies = Buddies::new(3, 4, Some(12));
    assert_eq!(buddies.allocate(13, 1), None);
    assert_eq!(buddies.allocate(4, 16), None);
    let a = buddies.allocate(4, 4).unwrap();
    assert_eq!(buddies.grow(a, 4, 17, GrowPlacement::MayMove), None);
    assert_eq!(buddies.allocate(8, 4), Some(0));
}
