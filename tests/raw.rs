use buddy_allocator::allocator::{exposed_ranges, BuddyAllocator};
use buddy_allocator::raw::{calculate_block_size, calculate_order_for_size};
use buddy_allocator::{Buddies, GrowPlacement, RawBuddies};

#[test]
fn order_for_size_picks_the_smallest_block() {
    assert_eq!(calculate_order_for_size(5, 0, 0), 4);
    assert_eq!(calculate_order_for_size(5, 0, 1), 4);
    assert_eq!(calculate_order_for_size(5, 0, 3), 2);
    assert_eq!(calculate_order_for_size(5, 0, 16), 0);
    assert_eq!(calculate_order_for_size(5, 2, 4), 4);
    assert_eq!(calculate_order_for_size(5, 2, 5), 3);
    assert_eq!(calculate_order_for_size(5, 2, 64), 0);
}

#[test]
fn block_size_halves_per_level() {
    assert_eq!(calculate_block_size(5, 0), 16);
    assert_eq!(calculate_block_size(5, 2), 4);
    assert_eq!(calculate_block_size(5, 4), 1);
}

#[test]
fn raw_allocator_counts_and_seals() {
    let mut raw = RawBuddies::new_in(4, 2, None);
    assert_eq!(raw.capacity(), 16);
    assert_eq!(raw.max_size(), 16);
    let a = raw.allocate_with_size(3, 2).unwrap();
    assert_eq!(a, 0);
    assert_eq!(raw.real_size_for_allocation(3), 4);
    assert!(!raw.is_unused());
    let b = raw.grow_with_size(a, 3, 8, GrowPlacement::InPlace).unwrap();
    assert_eq!(b, 0);
    raw.shrink_with_size(b, 8, 2);
    raw.deallocate_with_size(b, 2);
    assert!(raw.is_unused());
    assert_eq!(raw.allocate_with_size(1, 1), None);
}

#[test]
fn raw_allocator_with_capacity() {
    let mut raw = RawBuddies::with_capacity(48, 16);
    assert_eq!(raw.capacity(), 48);
    assert_eq!(raw.allocate_with_size(32, 16), Some(0));
    assert_eq!(raw.allocate_with_size(16, 16), Some(32));
    assert_eq!(raw.allocate_with_size(16, 16), None);
}

#[test]
fn byte_allocator_offsets_from_the_base() {
    let mut bytes = BuddyAllocator::from_parts(Buddies::new(4, 2, None), 1000);
    assert_eq!(bytes.base_ptr(), 1000);
    assert_eq!(bytes.capacitiy(), 16);
    let a = bytes.allocate(3, 2).unwrap();
    assert_eq!((a.ptr, a.size), (1000, 4));
    let b = bytes.allocate(1, 8).unwrap();
    assert_eq!((b.ptr, b.size), (1008, 2));
    let g = bytes.grow(b.ptr, 1, 4, GrowPlacement::MayMove).unwrap();
    assert_eq!((g.ptr, g.size), (1008, 4));
    let s = bytes.shrink(g.ptr, 4, 1);
    assert_eq!((s.ptr, s.size), (1008, 2));
    bytes.dealloc(s.ptr, 1);
    bytes.dealloc(a.ptr, 3);
    let whole = bytes.allocate(16, 16).unwrap();
    assert_eq!((whole.ptr, whole.size), (1000, 16));
}

#[test]
fn byte_allocator_allocate_at() {
    let mut bytes = BuddyAllocator::from_parts(Buddies::new(4, 2, None), 1000);
    let a = bytes.allocate_at(1004, 3).unwrap();
    assert_eq!((a.ptr, a.size), (1004, 4));
    assert!(bytes.allocate_at(1004, 4).is_none());
    assert_eq!(bytes.real_size_for_allocation(3), 4);
    assert_eq!(bytes.max_size(), 16);
    assert_eq!(bytes.allocate(4, 2).unwrap().ptr, 1000);
}

#[test]
fn exposed_ranges_on_both_sides() {
    assert_eq!(exposed_ranges(8, 2, 0, 16), ((0, 8), (10, 6)));
    assert_eq!(exposed_ranges(0, 4, 0, 8), ((0, 0), (4, 4)));
    assert_eq!(exposed_ranges(4, 4, 0, 8), ((0, 4), (8, 0)));
}
