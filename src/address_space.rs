//! Address space handed out in blocks of a buddy tree: addresses are a
//! base address plus a multiple of `BLOCK_SIZE`.
use crate::block::{order_fits, pow2_usize, span};
use crate::buddys::{Buddys, GrowPlacement};
use crate::raw::{calculate_block_size, calculate_order_for_size, exponent_of, fits_level, is_power_of_two, level_for, log2_of};
use crate::tree::TreeView;
use vstd::arithmetic::div_mod::*;
use vstd::arithmetic::mul::*;
use vstd::arithmetic::power2::*;
use vstd::prelude::*;

verus! {

/// A request that could not be met.
pub struct AllocErr;

/// A range of addresses: where it starts, how long it is, and the
/// alignment it was asked with.
pub struct AddressSpace {
    ptr: usize,
    size: usize,
    align: usize,
}

impl AddressSpace {
    /// `size` bytes at `ptr`, asked for with alignment `align`.
    pub fn new(ptr: usize, size: usize, align: usize) -> (r: AddressSpace)
        ensures
            r.ptr_spec() == ptr,
            r.size_spec() == size,
            r.align_spec() == align,
    {
        AddressSpace { ptr, size, align }
    }

    /// First address.
    pub closed spec fn ptr_spec(&self) -> usize {
        self.ptr
    }

    /// Length in bytes.
    pub closed spec fn size_spec(&self) -> usize {
        self.size
    }

    /// Alignment in bytes.
    pub closed spec fn align_spec(&self) -> usize {
        self.align
    }

    /// First address.
    pub fn ptr(&self) -> (r: usize)
        ensures
            r == self.ptr_spec(),
    {
        self.ptr
    }

    /// Size and alignment.
    pub fn layout(&self) -> (r: (usize, usize))
        ensures
            r == (self.size_spec(), self.align_spec()),
    {
        (self.size, self.align)
    }

    /// Length in bytes.
    pub fn size(&self) -> (r: usize)
        ensures
            r == self.size_spec(),
    {
        self.size
    }

    /// Alignment in bytes.
    pub fn align(&self) -> (r: usize)
        ensures
            r == self.align_spec(),
    {
        self.align
    }
}

/// Hands out blocks of addresses from `pow2(ORDER - 1)` blocks of
/// `BLOCK_SIZE` bytes starting at a base address.
pub struct AddressSpaceAllocator<const BLOCK_SIZE: usize, const ORDER: usize> {
    base_address: usize,
    buddys: Buddys<ORDER>,
}

/// `BLOCK_SIZE` bytes a granule and `ORDER` levels leave room for every
/// address the allocator computes.
pub open spec fn layout_fits(block_size: nat, order: nat, base: nat) -> bool {
    &&& order_fits(order)
    &&& is_power_of_two(block_size as int)
    &&& base + pow2(order) * block_size <= usize::MAX
}

impl<const BLOCK_SIZE: usize, const ORDER: usize> AddressSpaceAllocator<BLOCK_SIZE, ORDER> {
    /// The tree is well formed and every address fits a `usize`.
    pub closed spec fn wf(&self) -> bool {
        &&& self.buddys.wf()
        &&& layout_fits(BLOCK_SIZE as nat, ORDER as nat, self.base_address as nat)
    }

    /// The tree of blocks.
    pub closed spec fn tree(&self) -> TreeView {
        self.buddys@
    }

    /// First address.
    pub closed spec fn base(&self) -> nat {
        self.base_address as nat
    }

    /// Bytes the largest block spans.
    pub open spec fn max_size() -> int {
        span(ORDER as nat, 0) * BLOCK_SIZE
    }

    /// Level of the blocks that serve `size` bytes.
    pub open spec fn level_of(size: int) -> int {
        level_for(ORDER as nat, log2_of(BLOCK_SIZE as int), size)
    }

    /// The block that starts at address `ptr` and serves `size` bytes.
    pub open spec fn block_at(&self, ptr: int, size: int) -> (int, int) {
        let level = Self::level_of(size);
        (level, ((ptr - self.base()) / BLOCK_SIZE as int) / span(ORDER as nat, level) as int)
    }

    /// An allocator whose whole range, starting at `base_address`, is free.
    pub fn new(base_address: usize) -> (r: Self)
        requires
            layout_fits(BLOCK_SIZE as nat, ORDER as nat, base_address as nat),
        ensures
            r.wf(),
            r.base() == base_address,
            r.tree().free == set![(0int, 0int)],
            r.tree().live == Set::<(int, int)>::empty(),
    {
        AddressSpaceAllocator { base_address, buddys: Buddys::new() }
    }

    /// Hands out the whole range if it is free, and says whether it did.
    /// Once it has, nothing more can be handed out.
    pub fn is_unused(&mut self) -> (r: bool)
        requires
            old(self).wf(),
        ensures
            final(self).wf(),
            final(self).base() == old(self).base(),
            r == old(self).tree().free.contains((0int, 0int)),
            r == (old(self).tree().live.len() == 0),
            r ==> final(self).tree() == old(self).tree().with(
                old(self).tree().free.remove((0int, 0int)),
                old(self).tree().live.insert((0int, 0int)),
            ),
            !r ==> final(self).tree() == old(self).tree(),
    {
        let ghost pre = self.tree();
        proof {
            self.buddys.lemma_wf();
            crate::lemmas::lemma_root_free_iff_unused(pre);
        }
        let res = self.buddys.allocate(0);
        proof {
            let whole = (0int, 0int);
            lemma_pow2_pos((ORDER - 1) as nat);
            lemma_small_mod(0, span(ORDER as nat, 0));
            assert(0 * span(ORDER as nat, 0) == 0) by (nonlinear_arith);
            assert(crate::block::start(ORDER as nat, whole) == 0);
            if pre.free.contains(whole) {
                assert(pre.hit(whole, 0));
            }
            if res is Some {
                let b = choose|b: (int, int)|
                    #[trigger] pre.first_hit(b, 0) && b.0 <= 0 && (forall|k: int|
                        b.0 < k <= 0 ==> #[trigger] pre.no_hit(k, 0)) && res->Some_0 == crate::block::start(pre.order, b)
                        && self.tree() == pre.with(
                        pre.free.remove(b).union(crate::block::uppers(b, 0)),
                        pre.live.insert(crate::block::leftmost(b, 0)),
                    );
                assert(b.0 == 0);
                assert(b.1 * span(ORDER as nat, 0) + span(ORDER as nat, 0) <= span(ORDER as nat, 0));
                assert(b.1 == 0) by (nonlinear_arith)
                    requires
                        b.1 >= 0,
                        b.1 * span(ORDER as nat, 0) + span(ORDER as nat, 0) <= span(ORDER as nat, 0),
                        span(ORDER as nat, 0) > 0,
                ;
                crate::block::lemma_leftmost(ORDER as nat, b, 0);
                assert(crate::block::uppers(b, 0) =~= Set::<(int, int)>::empty());
                assert(pre.free.remove(b).union(crate::block::uppers(b, 0)) =~= pre.free.remove(b));
            } else {
                assert(pre.no_hit(0, 0));
            }
        }
        res.is_some()
    }

    /// Bytes the allocator spans: the whole range, one block of level 0.
    pub fn capacitiy(&self) -> (r: usize)
        requires
            self.wf(),
        ensures
            r == Self::max_size(),
    {
        self.max_size_exec()
    }

    /// First address.
    pub fn base_address(&self) -> (r: usize)
        ensures
            r == self.base(),
    {
        self.base_address
    }

    /// Bytes the largest block spans.
    fn max_size_exec(&self) -> (r: usize)
        requires
            self.wf(),
        ensures
            r == Self::max_size(),
    {
        proof {
            self.lemma_sizes();
        }
        calculate_block_size(ORDER, 0) * BLOCK_SIZE
    }

    proof fn lemma_sizes(&self)
        requires
            self.wf(),
        ensures
            Self::max_size() <= pow2(ORDER as nat) * BLOCK_SIZE,
            self.base() + pow2(ORDER as nat) * BLOCK_SIZE <= usize::MAX,
            BLOCK_SIZE > 0,
            pow2(log2_of(BLOCK_SIZE as int)) == BLOCK_SIZE,
    {
        lemma_pow2_strictly_increases((ORDER - 1) as nat, ORDER as nat);
        let k = choose|k: nat| pow2(k) == BLOCK_SIZE;
        lemma_pow2_pos(k);
        lemma_mul_inequality(span(ORDER as nat, 0) as int, pow2(ORDER as nat) as int, BLOCK_SIZE as int);
        let e = log2_of(BLOCK_SIZE as int);
        assert(pow2(e) == BLOCK_SIZE);
    }

    /// The level of the blocks that serve `size` bytes, and their size.
    fn level_and_size(&self, size: usize) -> (r: (usize, usize))
        requires
            self.wf(),
            size <= Self::max_size(),
        ensures
            r.0 < ORDER,
            fits_level(ORDER as nat, log2_of(BLOCK_SIZE as int), size as int, r.0 as int),
            r.0 as int == Self::level_of(size as int),
            r.1 == span(ORDER as nat, r.0 as int) * BLOCK_SIZE,
    {
        proof {
            self.lemma_sizes();
        }
        let shift = exponent_of(BLOCK_SIZE);
        let level = calculate_order_for_size(ORDER, shift, size);
        proof {
            crate::raw::lemma_span_ordered(ORDER as nat, 0, level as int);
            lemma_mul_inequality(span(ORDER as nat, level as int) as int, span(ORDER as nat, 0) as int, BLOCK_SIZE as int);
        }
        let block_size = calculate_block_size(ORDER, level) * BLOCK_SIZE;
        (level, block_size)
    }

    /// The level and first granule of the block at address `ptr` that
    /// serves `size` bytes.
    fn location(&self, ptr: usize, size: usize) -> (r: (usize, usize))
        requires
            self.wf(),
            self.base() <= ptr,
            size <= Self::max_size(),
        ensures
            r.0 < ORDER,
            r.0 as int == Self::level_of(size as int),
            r.1 as int == (ptr - self.base()) / BLOCK_SIZE as int,
            (r.0 as int, r.1 as int / span(ORDER as nat, r.0 as int) as int) == self.block_at(ptr as int, size as int),
    {
        proof {
            self.lemma_sizes();
        }
        let offset = ptr - self.base_address;
        let (level, _block_size) = self.level_and_size(size);
        (level, offset / BLOCK_SIZE)
    }

    /// The address of granule `idx`.
    fn calc_address(&self, idx: usize) -> (r: usize)
        requires
            self.wf(),
            idx <= pow2(ORDER as nat),
        ensures
            r == self.base() + BLOCK_SIZE * idx,
    {
        proof {
            self.lemma_sizes();
            lemma_mul_inequality(idx as int, pow2(ORDER as nat) as int, BLOCK_SIZE as int);
            assert(BLOCK_SIZE * idx == idx * BLOCK_SIZE) by (nonlinear_arith);
        }
        self.base_address + BLOCK_SIZE * idx
    }

    /// Hands out a block for `size` bytes aligned to `align`: at least one
    /// byte, and no less than the alignment.
    pub fn allocate(&mut self, size: usize, align: usize) -> (r: Result<AddressSpace, AllocErr>)
        requires
            old(self).wf(),
            is_power_of_two(align as int),
        ensures
            final(self).wf(),
            final(self).base() == old(self).base(),
            needed(size as int, align as int) > Self::max_size() ==> r is Err && final(self).tree() == old(self).tree(),
            needed(size as int, align as int) <= Self::max_size() ==> old(self).tree().allocates(
                Self::level_of(needed(size as int, align as int)),
                0,
                match r {
                    Ok(a) => Some((a.ptr_spec() - old(self).base()) / BLOCK_SIZE as int),
                    Err(_) => None,
                },
                final(self).tree(),
            ),
            r matches Ok(a) ==> {
                &&& a.size_spec() == span(ORDER as nat, Self::level_of(needed(size as int, align as int))) * BLOCK_SIZE
                &&& a.align_spec() == align
                &&& a.ptr_spec() >= old(self).base()
                &&& (a.ptr_spec() - old(self).base()) % BLOCK_SIZE as int == 0
            },
    {
        let s = needed_exec(size, align);
        if s > self.max_size_exec() {
            return Err(AllocErr);
        }
        let (level, block_size) = self.level_and_size(s);
        let res = self.buddys.allocate(level);
        match res {
            Some(idx) => {
                proof {
                    self.lemma_sizes();
                    lemma_pow2_strictly_increases((ORDER - 1) as nat, ORDER as nat);
                }
                let ptr = self.calc_address(idx);
                proof {
                    lemma_pow2_pos(log2_of(BLOCK_SIZE as int));
                    assert(BLOCK_SIZE * idx == idx * BLOCK_SIZE) by (nonlinear_arith);
                    lemma_div_multiples_vanish(idx as int, BLOCK_SIZE as int);
                    lemma_mod_multiples_basic(idx as int, BLOCK_SIZE as int);
                }
                Ok(AddressSpace::new(ptr, block_size, align))
            },
            None => Err(AllocErr),
        }
    }

    /// Gives back a range handed out by this allocator.
    pub fn dealloc(&mut self, address_space: AddressSpace)
        requires
            old(self).wf(),
            old(self).base() <= address_space.ptr_spec(),
            address_space.size_spec() <= Self::max_size(),
            old(self).tree().live.contains(
                old(self).block_at(address_space.ptr_spec() as int, address_space.size_spec() as int),
            ),
        ensures
            final(self).wf(),
            final(self).base() == old(self).base(),
            old(self).tree().releases(
                old(self).block_at(address_space.ptr_spec() as int, address_space.size_spec() as int),
                final(self).tree(),
            ),
    {
        let (level, idx) = self.location(address_space.ptr, address_space.size);
        self.buddys.deallocate(idx, level);
    }

    /// Grows a handed-out range to hold `new_size` bytes; it may move unless
    /// `placement` says in place. Fails, with nothing changed, when the
    /// size needs a smaller block, when no block is that large, or when the
    /// tree cannot grow the block.
    pub fn grow(&mut self, address_space: &mut AddressSpace, new_size: usize, placement: GrowPlacement) -> (r:
        Result<(), AllocErr>)
        requires
            old(self).wf(),
            old(self).base() <= old(address_space).ptr_spec(),
            needed(old(address_space).size_spec() as int, old(address_space).align_spec() as int) <= Self::max_size(),
            old(self).tree().live.contains(
                old(self).block_at(
                    old(address_space).ptr_spec() as int,
                    needed(old(address_space).size_spec() as int, old(address_space).align_spec() as int),
                ),
            ),
        ensures
            final(self).wf(),
            final(self).base() == old(self).base(),
            r is Err ==> *final(address_space) == *old(address_space),
            ({
                let a = *old(address_space);
                let old_need = needed(a.size_spec() as int, a.align_spec() as int);
                let new_need = needed(new_size as int, a.align_spec() as int);
                if new_need > Self::max_size() || Self::level_of(new_need) > Self::level_of(old_need) {
                    r is Err && final(self).tree() == old(self).tree()
                } else {
                    &&& old(self).tree().grows(
                        old(self).block_at(a.ptr_spec() as int, old_need),
                        Self::level_of(new_need),
                        placement is InPlace,
                        match r {
                            Ok(_) => Some((final(address_space).ptr_spec() - old(self).base()) / BLOCK_SIZE as int),
                            Err(_) => None,
                        },
                        final(self).tree(),
                    )
                    &&& r is Ok ==> final(address_space).size_spec() == span(ORDER as nat, Self::level_of(new_need))
                        * BLOCK_SIZE && final(address_space).align_spec() == final(address_space).size_spec()
                        && final(address_space).ptr_spec() >= old(self).base()
                        && (final(address_space).ptr_spec() - old(self).base()) % BLOCK_SIZE as int == 0
                }
            }),
    {
        let old_align = address_space.align;
        let size = needed_exec(address_space.size, old_align);
        let new_size = needed_exec(new_size, old_align);
        if new_size > self.max_size_exec() {
            return Err(AllocErr);
        }
        let (old_level, old_idx) = self.location(address_space.ptr, size);
        let (new_level, block_size) = self.level_and_size(new_size);
        if new_level > old_level {
            return Err(AllocErr);
        }
        let res = self.buddys.grow(old_idx, old_level, new_level, placement);
        match res {
            Some(idx) => {
                proof {
                    self.lemma_sizes();
                    lemma_pow2_strictly_increases((ORDER - 1) as nat, ORDER as nat);
                }
                let ptr = self.calc_address(idx);
                proof {
                    assert(BLOCK_SIZE * idx == idx * BLOCK_SIZE) by (nonlinear_arith);
                    lemma_div_multiples_vanish(idx as int, BLOCK_SIZE as int);
                    lemma_mod_multiples_basic(idx as int, BLOCK_SIZE as int);
                }
                *address_space = AddressSpace::new(ptr, block_size, block_size);
                Ok(())
            },
            None => Err(AllocErr),
        }
    }

    /// Shrinks a handed-out range, in place, to the block that holds
    /// `new_size` bytes; the halves it gives up become free. Fails, with
    /// nothing changed, when the size needs a larger block.
    pub fn shrink(&mut self, address_space: &mut AddressSpace, new_size: usize, _placement: GrowPlacement) -> (r:
        Result<(), AllocErr>)
        requires
            old(self).wf(),
            old(self).base() <= old(address_space).ptr_spec(),
            needed(old(address_space).size_spec() as int, old(address_space).align_spec() as int) <= Self::max_size(),
            old(self).tree().live.contains(
                old(self).block_at(
                    old(address_space).ptr_spec() as int,
                    needed(old(address_space).size_spec() as int, old(address_space).align_spec() as int),
                ),
            ),
        ensures
            final(self).wf(),
            final(self).base() == old(self).base(),
            r is Err ==> *final(address_space) == *old(address_space),
            ({
                let a = *old(address_space);
                let old_need = needed(a.size_spec() as int, a.align_spec() as int);
                let new_need = needed(new_size as int, a.align_spec() as int);
                if new_need > Self::max_size() || Self::level_of(new_need) < Self::level_of(old_need) {
                    r is Err && final(self).tree() == old(self).tree()
                } else {
                    &&& r is Ok
                    &&& old(self).tree().shrinks(
                        old(self).block_at(a.ptr_spec() as int, old_need),
                        Self::level_of(new_need),
                        final(self).tree(),
                    )
                    &&& final(address_space).ptr_spec() == a.ptr_spec()
                    &&& final(address_space).size_spec() == span(ORDER as nat, Self::level_of(new_need)) * BLOCK_SIZE
                    &&& final(address_space).align_spec() == a.align_spec()
                }
            }),
    {
        let old_align = address_space.align;
        let size = needed_exec(address_space.size, old_align);
        let new_size = needed_exec(new_size, old_align);
        if new_size > self.max_size_exec() {
            return Err(AllocErr);
        }
        let (old_level, old_idx) = self.location(address_space.ptr, size);
        let (new_level, block_size) = self.level_and_size(new_size);
        if new_level < old_level {
            return Err(AllocErr);
        }
        self.buddys.shrink(old_idx, old_level, new_level);
        *address_space = AddressSpace::new(address_space.ptr, block_size, old_align);
        Ok(())
    }
}

/// Bytes a request asks for: its size, but at least its alignment and one
/// byte.
pub open spec fn needed(size: int, align: int) -> int {
    let s = if size > align {
        size
    } else {
        align
    };
    if s > 1 {
        s
    } else {
        1
    }
}

/// `needed(size, align)`, computed.
pub fn needed_exec(size: usize, align: usize) -> (r: usize)
    ensures
        r == needed(size as int, align as int),
{
    let s = if size > align {
        size
    } else {
        align
    };
    if s > 1 {
        s
    } else {
        1
    }
}


} // verus!
