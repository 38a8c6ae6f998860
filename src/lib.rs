//! A buddy allocator over an index space: power-of-two blocks carved out of
//! a fixed linear range.
pub mod address_space;
pub mod allocator;
pub mod block;
pub mod buddys;
pub mod lemmas;
pub mod raw;
pub mod tree;

pub use buddys::{Buddys, GrowPlacement};
pub use raw::RawBuddies;

use crate::block::{order_fits, span};
use crate::raw::{granules, is_power_of_two, RawView};
use crate::tree::TreeView;
use vstd::arithmetic::power2::pow2;
use vstd::prelude::*;

verus! {

/// A buddy allocator over byte offsets: requests of a size and an alignment
/// get an offset, a block of a power-of-two number of granules.
pub struct Buddies {
    raw: RawBuddies,
}

impl View for Buddies {
    type V = RawView;

    closed spec fn view(&self) -> RawView {
        self.raw@
    }
}

impl Buddies {
    /// The allocator inside is well formed.
    pub closed spec fn wf(&self) -> bool {
        self.raw.wf()
    }

    /// The view of a well-formed allocator is well formed.
    pub proof fn lemma_wf(&self)
        requires
            self.wf(),
        ensures
            self@.wf(),
            self@.capacity <= self@.max_size(),
    {
        self.raw.lemma_wf();
    }

    /// An allocator of `max_order` levels with granules of `multiplier`
    /// bytes; it manages `max_idx` bytes, or the whole tree for `None`.
    pub fn new(max_order: usize, multiplier: usize, max_idx: Option<usize>) -> (r: Self)
        requires
            order_fits(max_order as nat),
            is_power_of_two(multiplier as int),
            span(max_order as nat, 0) * multiplier <= usize::MAX,
            max_idx matches Some(m) ==> m % multiplier == 0 && m <= span(max_order as nat, 0)
                * multiplier && m > span(max_order as nat, 0) * multiplier / 2,
        ensures
            r.wf(),
            r@.capacity == match max_idx {
                Some(m) => m as int,
                None => span(max_order as nat, 0) * multiplier,
            },
            r@.unit() == multiplier,
            r@.tree.order == max_order,
            r@.tree.limit == r@.capacity / multiplier as nat,
            r@.tree.free == TreeView::seeded(max_order as nat, r@.capacity / multiplier as nat),
            r@.tree.live == Set::<(int, int)>::empty(),
            r@.allocations == 0,
    {
        Buddies { raw: RawBuddies::new_in(max_order, multiplier, max_idx) }
    }

    /// An allocator managing exactly `capacity` bytes, with the fewest
    /// levels that hold it.
    pub fn with_capacity(capacity: usize, multiplier: usize) -> (r: Self)
        requires
            0 < capacity <= pow2((usize::BITS - 4) as nat),
            is_power_of_two(multiplier as int),
            capacity % multiplier == 0,
        ensures
            r.wf(),
            r@.capacity == capacity,
            r@.unit() == multiplier,
            r@.max_size() >= capacity,
            r@.tree.order == 1 || r@.max_size() < 2 * capacity,
            r@.tree.free == TreeView::seeded(r@.tree.order, capacity as nat / multiplier as nat),
            r@.tree.live == Set::<(int, int)>::empty(),
            r@.allocations == 0,
    {
        Buddies { raw: RawBuddies::with_capacity(capacity, multiplier) }
    }

    /// Managed bytes.
    pub fn capacity(&self) -> (r: usize)
        ensures
            r == self@.capacity,
    {
        self.raw.capacity()
    }

    /// Seals the allocator if it has no live allocation, and says whether
    /// it did: once sealed, every allocation fails.
    pub fn is_unused(&mut self) -> (r: bool)
        requires
            old(self).wf(),
        ensures
            final(self).wf(),
            r == (!old(self)@.sealed() && old(self)@.tree.live.len() == 0),
            r ==> final(self)@ == old(self)@.with(old(self)@.tree, isize::MIN as int),
            !r ==> final(self)@ == old(self)@,
    {
        self.raw.is_unused()
    }

    /// Bytes the whole tree would cover: the largest request it can serve.
    pub fn max_size(&self) -> (r: usize)
        requires
            self.wf(),
        ensures
            r == self@.max_size(),
    {
        self.raw.max_size()
    }

    /// Bytes set aside for a request of `size` bytes.
    pub fn real_size_for_allocation(&self, size: usize) -> (r: usize)
        requires
            self.wf(),
            size <= self@.max_size(),
        ensures
            r == self@.real_size(size as int),
            size <= r,
    {
        self.raw.real_size_for_allocation(size)
    }

    /// Hands out `size` bytes aligned to `align` and returns their offset.
    pub fn allocate(&mut self, size: usize, align: usize) -> (r: Option<usize>)
        requires
            old(self).wf(),
            is_power_of_two(align as int),
        ensures
            final(self).wf(),
            final(self)@.base_shift == old(self)@.base_shift,
            final(self)@.capacity == old(self)@.capacity,
            old(self)@.sealed() || old(self)@.allocations == isize::MAX || size > old(self)@.capacity
                || align > old(self)@.capacity ==> r is None && final(self)@ == old(self)@,
            !(old(self)@.sealed() || old(self)@.allocations == isize::MAX || size > old(self)@.capacity
                || align > old(self)@.capacity) ==> {
                &&& old(self)@.tree.allocates(
                    old(self)@.level_for(size as int),
                    old(self)@.align_exp(align as int),
                    granules(r, old(self)@.unit()),
                    final(self)@.tree,
                )
                &&& final(self)@.allocations == old(self)@.allocations + if r is Some {
                    1int
                } else {
                    0int
                }
            },
            r matches Some(o) ==> {
                &&& o as int % old(self)@.unit() as int == 0
                &&& o as int % align as int == 0
                &&& o as int % old(self)@.real_size(size as int) == 0
                &&& o + old(self)@.real_size(size as int) <= old(self)@.capacity
            },
    {
        self.raw.allocate_with_size(size, align)
    }

    /// Hands out the block for `size` bytes that starts at `idx`, if it or
    /// a block that holds it is free, and says whether it did.
    pub fn allocate_at(&mut self, size: usize, idx: usize) -> (r: bool)
        requires
            old(self).wf(),
            size <= old(self)@.max_size(),
            idx as int % old(self)@.real_size(size as int) == 0,
        ensures
            final(self).wf(),
            final(self)@.base_shift == old(self)@.base_shift,
            final(self)@.capacity == old(self)@.capacity,
            old(self)@.sealed() || old(self)@.allocations == isize::MAX || idx + old(self)@.real_size(
                size as int,
            ) > old(self)@.capacity ==> !r && final(self)@ == old(self)@,
            !(old(self)@.sealed() || old(self)@.allocations == isize::MAX || idx + old(self)@.real_size(
                size as int,
            ) > old(self)@.capacity) ==> {
                &&& old(self)@.tree.claims(old(self)@.block_of(idx as int, size as int), r, final(self)@.tree)
                &&& final(self)@.allocations == old(self)@.allocations + if r {
                    1int
                } else {
                    0int
                }
            },
    {
        self.raw.allocate_at(size, idx)
    }

    /// Gives back the `size` bytes handed out at `idx`.
    pub fn deallocate(&mut self, idx: usize, size: usize)
        requires
            old(self).wf(),
            size <= old(self)@.max_size(),
            idx as int % old(self)@.unit() as int == 0,
            old(self)@.tree.live.contains(old(self)@.block_of(idx as int, size as int)),
        ensures
            final(self).wf(),
            final(self)@ == old(self)@.with(final(self)@.tree, old(self)@.allocations - 1),
            old(self)@.tree.releases(old(self)@.block_of(idx as int, size as int), final(self)@.tree),
    {
        self.raw.deallocate_with_size(idx, size)
    }

    /// Shrinks the `old_size` bytes handed out at `idx` to `new_size`, in
    /// place.
    pub fn shrink(&mut self, idx: usize, old_size: usize, new_size: usize)
        requires
            old(self).wf(),
            old_size <= old(self)@.max_size(),
            new_size <= old(self)@.max_size(),
            old(self)@.level_for(old_size as int) <= old(self)@.level_for(new_size as int),
            idx as int % old(self)@.unit() as int == 0,
            old(self)@.tree.live.contains(old(self)@.block_of(idx as int, old_size as int)),
        ensures
            final(self).wf(),
            final(self)@ == old(self)@.with(final(self)@.tree, old(self)@.allocations),
            old(self)@.tree.shrinks(
                old(self)@.block_of(idx as int, old_size as int),
                old(self)@.level_for(new_size as int),
                final(self)@.tree,
            ),
    {
        self.raw.shrink_with_size(idx, old_size, new_size)
    }

    /// Grows the `old_size` bytes handed out at `idx` to `new_size` and
    /// returns where they now start.
    pub fn grow(&mut self, idx: usize, old_size: usize, new_size: usize, placement: GrowPlacement) -> (r:
        Option<usize>)
        requires
            old(self).wf(),
            old_size <= old(self)@.max_size(),
            new_size <= old(self)@.max_size() ==> old(self)@.level_for(new_size as int) <= old(self)@.level_for(old_size as int),
            idx as int % old(self)@.unit() as int == 0,
            old(self)@.tree.live.contains(old(self)@.block_of(idx as int, old_size as int)),
        ensures
            final(self).wf(),
            final(self)@ == old(self)@.with(final(self)@.tree, old(self)@.allocations),
            new_size > old(self)@.max_size() ==> r is None && final(self)@ == old(self)@,
            new_size <= old(self)@.max_size() ==> old(self)@.tree.grows(
                old(self)@.block_of(idx as int, old_size as int),
                old(self)@.level_for(new_size as int),
                placement is InPlace,
                granules(r, old(self)@.unit()),
                final(self)@.tree,
            ),
            r matches Some(o) ==> o as int % old(self)@.unit() as int == 0 && o + old(self)@.real_size(
                new_size as int,
            ) <= old(self)@.capacity,
    {
        self.raw.grow_with_size(idx, old_size, new_size, placement)
    }
}

} // verus!
