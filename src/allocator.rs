//! A byte allocator over one region of memory: the region starts at a base
//! address, and a buddy allocator decides which bytes of it each request
//! gets.
use crate::raw::{granules, is_power_of_two, RawView};
use crate::{Buddies, GrowPlacement};
use vstd::prelude::*;

verus! {

/// Bytes handed out: where they start and how many there are.
pub struct MemoryBlock {
    pub ptr: usize,
    pub size: usize,
}

/// Offsets from `base` of the blocks in `r`.
pub open spec fn offsets(r: Option<MemoryBlock>, base: int) -> Option<usize> {
    match r {
        Some(m) => Some((m.ptr - base) as usize),
        None => None,
    }
}

/// Hands out bytes of the region `[base, base + capacity)`.
pub struct BuddyAllocator {
    buddies: Buddies,
    base: usize,
}

impl BuddyAllocator {
    /// The allocator inside is well formed and the region fits below
    /// `usize::MAX`.
    pub closed spec fn wf(&self) -> bool {
        &&& self.buddies.wf()
        &&& self.base + self.buddies@.capacity <= usize::MAX
    }

    /// The allocator that decides which bytes go where.
    pub closed spec fn buddies(&self) -> RawView {
        self.buddies@
    }

    /// First address of the region.
    pub closed spec fn base(&self) -> int {
        self.base as int
    }

    /// A byte allocator over the region that starts at `base` and holds the
    /// capacity of `buddies`.
    pub fn from_parts(buddies: Buddies, base: usize) -> (r: Self)
        requires
            buddies.wf(),
            base + buddies@.capacity <= usize::MAX,
        ensures
            r.wf(),
            r.buddies() == buddies@,
            r.base() == base,
    {
        BuddyAllocator { buddies, base }
    }

    /// First address of the region.
    pub fn base_ptr(&self) -> (r: usize)
        ensures
            r == self.base(),
    {
        self.base
    }

    /// Bytes in the region.
    pub fn capacitiy(&self) -> (r: usize)
        ensures
            r == self.buddies().capacity,
    {
        self.buddies.capacity()
    }

    /// The largest request the allocator can serve.
    pub fn max_size(&self) -> (r: usize)
        requires
            self.wf(),
        ensures
            r == self.buddies().max_size(),
    {
        self.buddies.max_size()
    }

    /// Bytes set aside for a request of `size` bytes.
    pub fn real_size_for_allocation(&self, size: usize) -> (r: usize)
        requires
            self.wf(),
            size <= self.buddies().max_size(),
        ensures
            r == self.buddies().real_size(size as int),
            size <= r,
    {
        self.buddies.real_size_for_allocation(size)
    }

    /// Hands out at least `size` bytes aligned to `align`: the block starts
    /// at the base plus the offset the buddy allocator gives, and holds the
    /// real size of the request.
    pub fn allocate(&mut self, size: usize, align: usize) -> (r: Option<MemoryBlock>)
        requires
            old(self).wf(),
            is_power_of_two(align as int),
        ensures
            final(self).wf(),
            final(self).base() == old(self).base(),
            final(self).buddies().base_shift == old(self).buddies().base_shift,
            final(self).buddies().capacity == old(self).buddies().capacity,
            old(self).buddies().sealed() || old(self).buddies().allocations == isize::MAX || size > old(self).buddies().capacity || align > old(self).buddies().capacity ==> r is None && final(self).buddies() == old(self).buddies(),
            !(old(self).buddies().sealed() || old(self).buddies().allocations == isize::MAX || size > old(self).buddies().capacity || align > old(self).buddies().capacity) ==> {
                &&& old(self).buddies().tree.allocates(
                    old(self).buddies().level_for(size as int),
                    old(self).buddies().align_exp(align as int),
                    granules(offsets(r, old(self).base()), old(self).buddies().unit()),
                    final(self).buddies().tree,
                )
                &&& final(self).buddies().allocations == old(self).buddies().allocations + if r is Some {
                    1int
                } else {
                    0int
                }
            },
            r matches Some(m) ==> {
                &&& m.ptr >= old(self).base()
                &&& m.size == old(self).buddies().real_size(size as int)
                &&& m.ptr + m.size <= old(self).base() + old(self).buddies().capacity
                &&& (m.ptr - old(self).base()) % (align as int) == 0
            },
    {
        proof {
            self.buddies.lemma_wf();
        }
        let res = self.buddies.allocate(size, align);
        match res {
            Some(o) => {
                let held = self.buddies.real_size_for_allocation(size);
                Some(MemoryBlock { ptr: self.base + o, size: held })
            },
            None => None,
        }
    }

    /// Hands out the block for `size` bytes that starts at `ptr`, if it or a
    /// block that holds it is free.
    pub fn allocate_at(&mut self, ptr: usize, size: usize) -> (r: Option<MemoryBlock>)
        requires
            old(self).wf(),
            old(self).base() <= ptr,
            size <= old(self).buddies().max_size(),
            (ptr - old(self).base()) % old(self).buddies().real_size(size as int) == 0,
        ensures
            final(self).wf(),
            final(self).base() == old(self).base(),
            final(self).buddies().base_shift == old(self).buddies().base_shift,
            final(self).buddies().capacity == old(self).buddies().capacity,
            ({
                let v = old(self).buddies();
                let offset = ptr - old(self).base();
                if v.sealed() || v.allocations == isize::MAX || offset + v.real_size(size as int) > v.capacity {
                    r is None && final(self).buddies() == v
                } else {
                    &&& v.tree.claims(v.block_of(offset, size as int), r is Some, final(self).buddies().tree)
                    &&& final(self).buddies().allocations == v.allocations + if r is Some {
                        1int
                    } else {
                        0int
                    }
                }
            }),
            r matches Some(m) ==> m.ptr == ptr && m.size == old(self).buddies().real_size(size as int),
    {
        let held = self.buddies.real_size_for_allocation(size);
        if self.buddies.allocate_at(size, ptr - self.base) {
            Some(MemoryBlock { ptr, size: held })
        } else {
            None
        }
    }

    /// Gives back the `size` bytes handed out at `ptr`.
    pub fn dealloc(&mut self, ptr: usize, size: usize)
        requires
            old(self).wf(),
            old(self).base() <= ptr,
            size <= old(self).buddies().max_size(),
            (ptr - old(self).base()) % old(self).buddies().unit() as int == 0,
            old(self).buddies().tree.live.contains(
                old(self).buddies().block_of(ptr - old(self).base(), size as int),
            ),
        ensures
            final(self).wf(),
            final(self).base() == old(self).base(),
            final(self).buddies() == old(self).buddies().with(
                final(self).buddies().tree,
                old(self).buddies().allocations - 1,
            ),
            old(self).buddies().tree.releases(
                old(self).buddies().block_of(ptr - old(self).base(), size as int),
                final(self).buddies().tree,
            ),
    {
        self.buddies.deallocate(ptr - self.base, size)
    }

    /// Grows the `size` bytes handed out at `ptr` to hold `new_size` bytes
    /// and returns where they now are.
    pub fn grow(&mut self, ptr: usize, size: usize, new_size: usize, placement: GrowPlacement) -> (r:
        Option<MemoryBlock>)
        requires
            old(self).wf(),
            old(self).base() <= ptr,
            size <= old(self).buddies().max_size(),
            new_size <= old(self).buddies().max_size() ==> old(self).buddies().level_for(new_size as int)
                <= old(self).buddies().level_for(size as int),
            (ptr - old(self).base()) % old(self).buddies().unit() as int == 0,
            old(self).buddies().tree.live.contains(
                old(self).buddies().block_of(ptr - old(self).base(), size as int),
            ),
        ensures
            final(self).wf(),
            final(self).base() == old(self).base(),
            final(self).buddies() == old(self).buddies().with(
                final(self).buddies().tree,
                old(self).buddies().allocations,
            ),
            new_size > old(self).buddies().max_size() ==> r is None && final(self).buddies() == old(self).buddies(),
            new_size <= old(self).buddies().max_size() ==> old(self).buddies().tree.grows(
                old(self).buddies().block_of(ptr - old(self).base(), size as int),
                old(self).buddies().level_for(new_size as int),
                placement is InPlace,
                granules(offsets(r, old(self).base()), old(self).buddies().unit()),
                final(self).buddies().tree,
            ),
            r matches Some(m) ==> m.ptr >= old(self).base() && m.size == old(self).buddies().real_size(
                new_size as int,
            ),
    {
        let res = self.buddies.grow(ptr - self.base, size, new_size, placement);
        match res {
            Some(o) => {
                let held = self.buddies.real_size_for_allocation(new_size);
                Some(MemoryBlock { ptr: self.base + o, size: held })
            },
            None => None,
        }
    }

    /// Shrinks the `size` bytes handed out at `ptr` to hold `new_size`
    /// bytes, in place.
    pub fn shrink(&mut self, ptr: usize, size: usize, new_size: usize) -> (r: MemoryBlock)
        requires
            old(self).wf(),
            old(self).base() <= ptr,
            size <= old(self).buddies().max_size(),
            new_size <= old(self).buddies().max_size(),
            old(self).buddies().level_for(size as int) <= old(self).buddies().level_for(new_size as int),
            (ptr - old(self).base()) % old(self).buddies().unit() as int == 0,
            old(self).buddies().tree.live.contains(
                old(self).buddies().block_of(ptr - old(self).base(), size as int),
            ),
        ensures
            final(self).wf(),
            final(self).base() == old(self).base(),
            final(self).buddies() == old(self).buddies().with(
                final(self).buddies().tree,
                old(self).buddies().allocations,
            ),
            old(self).buddies().tree.shrinks(
                old(self).buddies().block_of(ptr - old(self).base(), size as int),
                old(self).buddies().level_for(new_size as int),
                final(self).buddies().tree,
            ),
            r.ptr == ptr,
            r.size == old(self).buddies().real_size(new_size as int),
    {
        self.buddies.shrink(ptr - self.base, size, new_size);
        let held = self.buddies.real_size_for_allocation(new_size);
        MemoryBlock { ptr, size: held }
    }
}

/// After a block at `old_ptr` of `old_size` bytes grew into the block at
/// `new_ptr` of `new_size` bytes, the bytes of the new block that the old
/// one did not hold: the part before the old start and the part after the
/// old end, each as (start, length).
pub fn exposed_ranges(old_ptr: usize, old_size: usize, new_ptr: usize, new_size: usize) -> (r: (
    (usize, usize),
    (usize, usize),
))
    requires
        new_ptr <= old_ptr,
        old_ptr + old_size <= new_ptr + new_size <= usize::MAX,
    ensures
        r.0 == (new_ptr, (old_ptr - new_ptr) as usize),
        r.1 == ((old_ptr + old_size) as usize, (new_ptr + new_size - (old_ptr + old_size)) as usize),
        r.0.0 + r.0.1 == old_ptr,
        r.1.0 + r.1.1 == new_ptr + new_size,
{
    let old_end = old_ptr + old_size;
    let new_end = new_ptr + new_size;
    ((new_ptr, old_ptr - new_ptr), (old_end, new_end - old_end))
}

} // verus!
