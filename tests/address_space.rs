use buddy_allocator::address_space::{AddressSpace, AddressSpaceAllocator};
use buddy_allocator::GrowPlacement;

const BASE: usize = 0x1234;

#[test]
fn reports_base_and_capacity() {
    let allocator: AddressSpaceAllocator<16, 5> = AddressSpaceAllocator::new(BASE);
    assert_eq!(allocator.base_address(), BASE);
    assert_eq!(allocator.capacitiy(), 256);
}

#[test]
fn hands_out_blocks_of_whole_granules() {
    let mut allocator: AddressSpaceAllocator<16, 5> = AddressSpaceAllocator::new(BASE);
    let a = allocator.allocate(1, 1).ok().unwrap();
    assert_eq!((a.ptr(), a.size(), a.align()), (BASE, 16, 1));
    let b = allocator.allocate(17, 1).ok().unwrap();
    assert_eq!((b.ptr(), b.size()), (BASE + 32, 32));
    let c = allocator.allocate(1, 64).ok().unwrap();
    assert_eq!(c.layout(), (64, 64));
    assert_eq!(c.ptr(), BASE + 64);
    let d = allocator.allocate(0, 1).ok().unwrap();
    assert_eq!((d.ptr(), d.size()), (BASE + 16, 16));
}

#[test]
fn too_large_requests_fail() {
    let mut allocator: AddressSpaceAllocator<16, 5> = AddressSpaceAllocator::new(BASE);
    assert!(allocator.allocate(257, 1).is_err());
    assert!(allocator.allocate(1, 512).is_err());
    let whole = allocator.allocate(256, 1).ok().unwrap();
    assert_eq!((whole.ptr(), whole.size()), (BASE, 256));
    assert!(allocator.allocate(1, 1).is_err());
}

#[test]
fn is_unused_takes_the_whole_range() {
    let mut allocator: AddressSpaceAllocator<16, 5> = AddressSpaceAllocator::new(BASE);
    assert!(allocator.is_unused());
    assert!(allocator.allocate(1, 1).is_err());
    let mut other: AddressSpaceAllocator<16, 5> = AddressSpaceAllocator::new(BASE);
    let a = other.allocate(1, 1).ok().unwrap();
    assert!(!other.is_unused());
    other.dealloc(a);
    assert!(other.is_unused());
    let mut shrunk: AddressSpaceAllocator<16, 5> = AddressSpaceAllocator::new(BASE);
    let mut b = shrunk.allocate(256, 1).ok().unwrap();
    assert!(shrunk.shrink(&mut b, 16, GrowPlacement::InPlace).is_ok());
    assert!(!shrunk.is_unused());
    shrunk.dealloc(b);
    assert!(shrunk.is_unused());
}

#[test]
fn grow_moves_or_stays() {
    let mut allocator: AddressSpaceAllocator<16, 5> = AddressSpaceAllocator::new(BASE);
    let mut a = allocator.allocate(16, 1).ok().unwrap();
    assert!(allocator.grow(&mut a, 64, GrowPlacement::InPlace).is_ok());
    assert_eq!((a.ptr(), a.size(), a.align()), (BASE, 64, 64));
    assert!(allocator.grow(&mut a, 32, GrowPlacement::InPlace).is_ok());
    assert_eq!((a.ptr(), a.size()), (BASE, 64));
    let mut b = allocator.allocate(64, 1).ok().unwrap();
    assert_eq!(b.ptr(), BASE + 64);
    assert!(allocator.grow(&mut b, 128, GrowPlacement::MayMove).is_err());
    allocator.dealloc(a);
    assert!(allocator.grow(&mut b, 128, GrowPlacement::InPlace).is_err());
    assert!(allocator.grow(&mut b, 128, GrowPlacement::MayMove).is_ok());
    assert_eq!((b.ptr(), b.size()), (BASE, 128));
}

#[test]
fn shrink_keeps_the_start() {
    let mut allocator: AddressSpaceAllocator<16, 5> = AddressSpaceAllocator::new(BASE);
    let mut a = allocator.allocate(256, 16).ok().unwrap();
    assert!(allocator.shrink(&mut a, 20, GrowPlacement::InPlace).is_ok());
    assert_eq!((a.ptr(), a.size(), a.align()), (BASE, 32, 16));
    assert!(allocator.shrink(&mut a, 64, GrowPlacement::InPlace).is_err());
    let b = allocator.allocate(128, 1).ok().unwrap();
    assert_eq!(b.ptr(), BASE + 128);
    let c = allocator.allocate(32, 1).ok().unwrap();
    assert_eq!(c.ptr(), BASE + 32);
}

#[test]
fn address_space_keeps_its_fields() {
    let space = AddressSpace::new(BASE, 48, 8);
    assert_eq!(space.ptr(), BASE);
    assert_eq!(space.layout(), (48, 8));
    assert_eq!(space.size(), 48);
    assert_eq!(space.align(), 8);
}
