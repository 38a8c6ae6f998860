use buddy_allocator::buddys::blocks;
use buddy_allocator::{Buddys, GrowPlacement};

#[test]
fn flag_count_per_order() {
    assert_eq!(blocks(0), 1);
    assert_eq!(blocks(1), 3);
    assert_eq!(blocks(10), 2047);
}

#[test]
fn whole_range_is_handed_out_once() {
    let mut buddys: Buddys<10> = Buddys::new();
    assert_eq!(buddys.allocate(0), Some(0));
    assert_eq!(buddys.allocate(0), None);
    assert_eq!(buddys.allocate(9), None);
}

#[test]
fn smallest_blocks_split_from_the_root() {
    let mut buddys: Buddys<4> = Buddys::new();
    assert_eq!(buddys.allocate(3), Some(0));
    assert_eq!(buddys.allocate(3), Some(1));
    assert_eq!(buddys.allocate(2), Some(2));
    assert_eq!(buddys.allocate(1), Some(4));
    assert_eq!(buddys.allocate(3), None);
}

#[test]
fn buddies_join_when_both_are_back() {
    let mut buddys: Buddys<4> = Buddys::new();
    let a = buddys.allocate(3).unwrap();
    let b = buddys.allocate(3).unwrap();
    let c = buddys.allocate(2).unwrap();
    buddys.deallocate(a, 3);
    assert_eq!(buddys.allocate(2), Some(4));
    buddys.deallocate(b, 3);
    assert_eq!(buddys.allocate(2), Some(0));
    buddys.deallocate(c, 2);
    assert_eq!(buddys.allocate(2), Some(2));
}

#[test]
fn everything_back_makes_the_root_free() {
    let mut buddys: Buddys<5> = Buddys::new();
    let a = buddys.allocate(4).unwrap();
    let b = buddys.allocate(2).unwrap();
    let c = buddys.allocate(3).unwrap();
    buddys.deallocate(b, 2);
    buddys.deallocate(a, 4);
    buddys.deallocate(c, 3);
    assert_eq!(buddys.allocate(0), Some(0));
}

#[test]
fn grow_takes_the_free_buddies() {
    let mut buddys: Buddys<3> = Buddys::new();
    let a = buddys.allocate(2).unwrap();
    assert_eq!(a, 0);
    assert_eq!(buddys.grow(a, 2, 0, GrowPlacement::InPlace), Some(0));
    assert_eq!(buddys.allocate(2), None);
}

#[test]
fn grow_in_place_needs_an_aligned_block() {
    let mut buddys: Buddys<3> = Buddys::new();
    let a = buddys.allocate(2).unwrap();
    let b = buddys.allocate(2).unwrap();
    assert_eq!((a, b), (0, 1));
    buddys.deallocate(a, 2);
    assert_eq!(buddys.grow(b, 2, 1, GrowPlacement::InPlace), None);
    assert_eq!(buddys.grow(b, 2, 1, GrowPlacement::MayMove), Some(0));
    assert_eq!(buddys.allocate(1), Some(2));
}

#[test]
fn grow_in_place_asks_twice_the_alignment() {
    let mut buddys: Buddys<3> = Buddys::new();
    assert_eq!(buddys.allocate(2), Some(0));
    assert_eq!(buddys.allocate(2), Some(1));
    assert_eq!(buddys.allocate(2), Some(2));
    assert_eq!(buddys.grow(2, 2, 1, GrowPlacement::InPlace), None);
    assert_eq!(buddys.grow(2, 2, 1, GrowPlacement::MayMove), Some(2));
}

#[test]
fn failed_grow_gives_back_what_it_took() {
    let mut buddys: Buddys<4> = Buddys::new();
    let a = buddys.allocate(3).unwrap();
    let b = buddys.allocate(2).unwrap();
    assert_eq!((a, b), (0, 2));
    assert_eq!(buddys.grow(a, 3, 1, GrowPlacement::MayMove), None);
    assert_eq!(buddys.allocate(3), Some(1));
    assert_eq!(buddys.allocate(1), Some(4));
}

#[test]
fn grow_to_the_same_level_changes_nothing() {
    let mut buddys: Buddys<4> = Buddys::new();
    let a = buddys.allocate(2).unwrap();
    let b = buddys.allocate(3).unwrap();
    assert_eq!(buddys.grow(a, 2, 2, GrowPlacement::InPlace), Some(a));
    assert_eq!(buddys.grow(b, 3, 3, GrowPlacement::InPlace), Some(b));
    assert_eq!(buddys.allocate(3), Some(3));
}

#[test]
fn shrink_frees_the_upper_halves() {
    let mut buddys: Buddys<3> = Buddys::new();
    let a = buddys.allocate(0).unwrap();
    buddys.shrink(a, 0, 2);
    assert_eq!(buddys.allocate(1), Some(2));
    assert_eq!(buddys.allocate(2), Some(1));
    assert_eq!(buddys.allocate(2), None);
}
