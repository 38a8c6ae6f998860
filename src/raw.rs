//! The sized buddy allocator: byte sizes and alignments over a tree of
//! granules of `multiplier` bytes, with a capacity that need not be a power
//! of two, and a count of live allocations.
pub use crate::block::calculate_block_size;
use crate::block::{end, lemma_extent, order_fits, pow2_usize, span, start};
use crate::buddys::GrowPlacement;
use crate::lemmas::lemma_allocation_fits;
use crate::tree::{Tree, TreeView};
use vstd::arithmetic::div_mod::*;
use vstd::arithmetic::mul::*;
use vstd::arithmetic::power2::*;
use vstd::prelude::*;

verus! {

/// `level` is the deepest level of a tree of `max_order` levels whose
/// blocks, of `pow2(base_shift)` bytes a granule, hold `size` bytes.
pub open spec fn fits_level(max_order: nat, base_shift: nat, size: int, level: int) -> bool {
    &&& 0 <= level < max_order
    &&& size <= span(max_order, level) * pow2(base_shift)
    &&& (level == max_order - 1 || span(max_order, level + 1) * pow2(base_shift) < size)
}

/// The level of the blocks that serve a request of `size` bytes.
pub open spec fn level_for(max_order: nat, base_shift: nat, size: int) -> int {
    choose|level: int| fits_level(max_order, base_shift, size, level)
}

/// The exponent of a power of two.
pub open spec fn log2_of(x: int) -> nat {
    choose|e: nat| pow2(e) == x
}

/// `x` is a power of two.
pub open spec fn is_power_of_two(x: int) -> bool {
    exists|e: nat| pow2(e) == x
}

pub(crate) proof fn lemma_span_ordered(max_order: nat, a: int, b: int)
    requires
        0 <= a <= b < max_order,
    ensures
        span(max_order, b) <= span(max_order, a),
{
    if a < b {
        lemma_pow2_strictly_increases((max_order - 1 - b) as nat, (max_order - 1 - a) as nat);
    }
}

proof fn lemma_level_unique(max_order: nat, base_shift: nat, size: int, l1: int, l2: int)
    requires
        fits_level(max_order, base_shift, size, l1),
        fits_level(max_order, base_shift, size, l2),
    ensures
        l1 == l2,
{
    let u = pow2(base_shift) as int;
    if l1 < l2 {
        lemma_span_ordered(max_order, l1 + 1, l2);
        lemma_mul_inequality(span(max_order, l2) as int, span(max_order, l1 + 1) as int, u);
    } else if l2 < l1 {
        lemma_span_ordered(max_order, l2 + 1, l1);
        lemma_mul_inequality(span(max_order, l1) as int, span(max_order, l2 + 1) as int, u);
    }
}

proof fn lemma_log2_unique(e: nat, x: int)
    requires
        pow2(e) == x,
    ensures
        log2_of(x) == e,
{
    assert(pow2(e) == x);
    let f = log2_of(x);
    if f < e {
        lemma_pow2_strictly_increases(f, e);
    } else if e < f {
        lemma_pow2_strictly_increases(e, f);
    }
}

/// The exponent of the power of two `x`.
pub(crate) fn exponent_of(x: usize) -> (e: usize)
    requires
        is_power_of_two(x as int),
    ensures
        pow2(e as nat) == x,
        e as nat == log2_of(x as int),
        e < usize::BITS,
{
    let ghost k = choose|k: nat| pow2(k) == x;
    proof {
        vstd::bits::lemma_usize_pow2_no_overflow(0);
        lemma2_to64();
        if k >= usize::BITS {
            lemma_pow2_strictly_increases((usize::BITS - 1) as nat, k);
            vstd::bits::lemma_usize_pow2_no_overflow((usize::BITS - 1) as nat);
            lemma_pow2_unfold(usize::BITS as nat);
            if k > usize::BITS {
                lemma_pow2_strictly_increases(usize::BITS as nat, k);
            }
            assert(false);
        }
    }
    let mut e: usize = 0;
    let mut p: usize = 1;
    while p < x
        invariant
            p == pow2(e as nat),
            pow2(k) == x,
            k < usize::BITS,
            e <= k,
        decreases k - e,
    {
        proof {
            if e == k {
                assert(false);
            }
            lemma_pow2_unfold((e + 1) as nat);
            if e + 1 < k {
                lemma_pow2_strictly_increases((e + 1) as nat, k);
            }
        }
        p = p * 2;
        e = e + 1;
    }
    proof {
        if e < k {
            lemma_pow2_strictly_increases(e as nat, k);
        }
        lemma_log2_unique(e as nat, x as int);
    }
    e
}

/// The deepest level of a tree of `max_order` levels, with granules of
/// `pow2(base_shift)` bytes, whose blocks hold `size` bytes.
pub fn calculate_order_for_size(max_order: usize, base_shift: usize, size: usize) -> (r: usize)
    requires
        order_fits(max_order as nat),
        span(max_order as nat, 0) * pow2(base_shift as nat) <= usize::MAX,
        size <= span(max_order as nat, 0) * pow2(base_shift as nat),
        base_shift < usize::BITS,
    ensures
        fits_level(max_order as nat, base_shift as nat, size as int, r as int),
        r as int == level_for(max_order as nat, base_shift as nat, size as int),
{
    let unit = pow2_usize(base_shift);
    let mut level = max_order - 1;
    proof {
        lemma_span_ordered(max_order as nat, 0, level as int);
        lemma_mul_inequality(
            span(max_order as nat, level as int) as int,
            span(max_order as nat, 0) as int,
            unit as int,
        );
    }
    while calculate_block_size(max_order, level) * unit < size
        invariant
            order_fits(max_order as nat),
            level < max_order,
            unit == pow2(base_shift as nat),
            span(max_order as nat, 0) * unit <= usize::MAX,
            size <= span(max_order as nat, 0) * unit,
            span(max_order as nat, level as int) * unit <= span(max_order as nat, 0) * unit,
            level == max_order - 1 || span(max_order as nat, level + 1) * unit < size,
        decreases level,
    {
        level = level - 1;
        proof {
            lemma_span_ordered(max_order as nat, 0, level as int);
            lemma_mul_inequality(
                span(max_order as nat, level as int) as int,
                span(max_order as nat, 0) as int,
                unit as int,
            );
        }
    }
    proof {
        let l = level_for(max_order as nat, base_shift as nat, size as int);
        assert(fits_level(max_order as nat, base_shift as nat, size as int, level as int));
        lemma_level_unique(max_order as nat, base_shift as nat, size as int, l, level as int);
    }
    level
}

/// A granule offset aligned to `pow2(a)` granules, for the alignment
/// exponent `a` that `pow2(e)` bytes ask of granules of `pow2(shift)` bytes,
/// is a byte offset aligned to `pow2(e)`.
proof fn lemma_byte_aligned(s: int, a: nat, shift: nat, e: nat)
    requires
        s >= 0,
        s % (pow2(a) as int) == 0,
        a == if e <= shift {
            0
        } else {
            (e - shift) as nat
        },
    ensures
        (s * pow2(shift)) % (pow2(e) as int) == 0,
{
    lemma_pow2_pos(a);
    lemma_pow2_pos(e);
    lemma_fundamental_div_mod(s, pow2(a) as int);
    let k = s / (pow2(a) as int);
    if e <= shift {
        lemma_pow2_adds(e, (shift - e) as nat);
        assert((e + (shift - e)) as nat == shift);
        let q = pow2((shift - e) as nat) as int;
        assert(s * pow2(shift) == (s * q) * pow2(e)) by (nonlinear_arith)
            requires
                pow2(shift) == pow2(e) * q,
        ;
        lemma_mod_multiples_basic(s * q, pow2(e) as int);
    } else {
        lemma_pow2_adds(a, shift);
        assert((a + shift) as nat == e);
        assert(s * pow2(shift) == k * pow2(e)) by (nonlinear_arith)
            requires
                s == pow2(a) * k + s % (pow2(a) as int),
                s % (pow2(a) as int) == 0,
                pow2(e) == pow2(a) * pow2(shift),
        ;
        lemma_mod_multiples_basic(k, pow2(e) as int);
    }
}

/// A multiple of `sp` granules of `u` bytes is a multiple of `sp * u`
/// bytes.
proof fn lemma_scaled_mod(s: int, sp: int, u: int)
    requires
        sp > 0,
        u > 0,
        s % sp == 0,
    ensures
        (s * u) % (sp * u) == 0,
{
    lemma_fundamental_div_mod(s, sp);
    let k = s / sp;
    assert(s * u == k * (sp * u)) by (nonlinear_arith)
        requires
            s == sp * k + s % sp,
            s % sp == 0,
    ;
    lemma_mul_strictly_positive(sp, u);
    lemma_mod_multiples_basic(k, sp * u);
}

/// What a sized buddy allocator stands for.
pub ghost struct RawView {
    /// The tree of granules.
    pub tree: TreeView,
    /// Live allocations; negative once the allocator is sealed.
    pub allocations: int,
    /// A granule is `pow2(base_shift)` bytes.
    pub base_shift: nat,
    /// Managed bytes.
    pub capacity: nat,
}

impl RawView {
    /// Bytes in a granule.
    pub open spec fn unit(self) -> nat {
        pow2(self.base_shift)
    }

    /// Bytes the whole tree would cover.
    pub open spec fn max_size(self) -> int {
        (span(self.tree.order, 0) * self.unit()) as int
    }

    /// Level of the blocks that serve `size` bytes.
    pub open spec fn level_for(self, size: int) -> int {
        level_for(self.tree.order, self.base_shift, size)
    }

    /// Bytes actually set aside for a request of `size` bytes.
    pub open spec fn real_size(self, size: int) -> int {
        (span(self.tree.order, self.level_for(size)) * self.unit()) as int
    }

    /// The block handed out at byte `offset` for `size` bytes.
    pub open spec fn block_of(self, offset: int, size: int) -> (int, int) {
        (self.level_for(size), offset / self.real_size(size))
    }

    /// Exponent, in granules, of the alignment `align`.
    pub open spec fn align_exp(self, align: int) -> nat {
        if log2_of(align) <= self.base_shift {
            0
        } else {
            (log2_of(align) - self.base_shift) as nat
        }
    }

    /// The blocks of the live allocations.
    pub open spec fn live_blocks(self) -> Set<(int, int)> {
        self.tree.live
    }

    /// No allocation will ever succeed again.
    pub open spec fn sealed(self) -> bool {
        self.allocations < 0
    }

    /// The same allocator with another tree and count.
    pub open spec fn with(self, tree: TreeView, allocations: int) -> RawView {
        RawView { tree, allocations, ..self }
    }

    /// The tree is well formed, every byte offset fits a `usize`, and the
    /// count matches the handed-out blocks until the allocator is sealed.
    pub open spec fn wf(self) -> bool {
        &&& self.tree.wf()
        &&& self.base_shift < usize::BITS
        &&& self.max_size() <= usize::MAX
        &&& self.capacity == self.tree.limit * self.unit()
        &&& self.allocations >= 0 ==> self.allocations == self.tree.live.len()
        &&& self.allocations < 0 ==> self.allocations == isize::MIN && self.tree.live.len() == 0
    }
}

/// Byte offsets read as granule offsets.
pub open spec fn granules(r: Option<usize>, unit: nat) -> Option<int> {
    match r {
        Some(o) => Some(o as int / unit as int),
        None => None,
    }
}

/// A buddy allocator over byte offsets `[0, capacity)`.
pub struct RawBuddies {
    allocations: isize,
    tree: Tree,
    max_order: usize,
    base_shift: usize,
    max_idx: usize,
}

impl View for RawBuddies {
    type V = RawView;

    closed spec fn view(&self) -> RawView {
        RawView {
            tree: self.tree@,
            allocations: self.allocations as int,
            base_shift: self.base_shift as nat,
            capacity: self.max_idx as nat,
        }
    }
}

impl RawBuddies {
    /// The tree and its view are well formed.
    pub closed spec fn wf(&self) -> bool {
        &&& self.tree.wf()
        &&& self@.wf()
        &&& self.max_order == self.tree@.order
    }

    /// The view of a well-formed allocator is well formed, and its
    /// capacity is no more than the whole tree.
    pub proof fn lemma_wf(&self)
        requires
            self.wf(),
        ensures
            self@.wf(),
            self@.capacity <= self@.max_size(),
    {
        lemma_mul_inequality(self@.tree.limit as int, span(self@.tree.order, 0) as int, self@.unit() as int);
    }

    /// An allocator of `max_order` levels with granules of `multiplier`
    /// bytes, managing `max_idx` bytes, or all `pow2(max_order - 1)`
    /// granules when `max_idx` is `None`. Its free blocks are the fewest that
    /// cover the managed bytes.
    pub fn new_in(max_order: usize, multiplier: usize, max_idx: Option<usize>) -> (r: Self)
        requires
            order_fits(max_order as nat),
            is_power_of_two(multiplier as int),
            span(max_order as nat, 0) * multiplier <= usize::MAX,
            max_idx matches Some(m) ==> m % multiplier == 0 && m <= span(max_order as nat, 0)
                * multiplier && m > span(max_order as nat, 0) * multiplier / 2,
        ensures
            r.wf(),
            r@.capacity == match max_idx {
                Some(m) => m as int,
                None => span(max_order as nat, 0) * multiplier,
            },
            r@.unit() == multiplier,
            r@.tree.order == max_order,
            r@.tree.limit == r@.capacity / multiplier as nat,
            r@.tree.free == TreeView::seeded(max_order as nat, r@.capacity / multiplier as nat),
            r@.tree.live == Set::<(int, int)>::empty(),
            r@.allocations == 0,
    {
        let base_shift = exponent_of(multiplier);
        let whole = calculate_block_size(max_order, 0);
        let default_max_idx = whole * multiplier;
        let max_idx = match max_idx {
            Some(m) => m,
            None => default_max_idx,
        };
        proof {
            lemma_pow2_pos(base_shift as nat);
            lemma_fundamental_div_mod(max_idx as int, multiplier as int);
            if max_idx % multiplier != 0 {
                lemma_mod_multiples_basic(whole as int, multiplier as int);
            }
            lemma_div_is_ordered(max_idx as int, default_max_idx as int, multiplier as int);
            lemma_div_multiples_vanish(whole as int, multiplier as int);
            assert(whole * multiplier == multiplier * whole) by (nonlinear_arith);
            assert(max_idx / multiplier >= 1) by (nonlinear_arith)
                requires
                    max_idx == multiplier * (max_idx / multiplier) + max_idx % multiplier,
                    max_idx % multiplier == 0,
                    max_idx > 0,
                    multiplier > 0,
            ;
            vstd::bits::lemma_usize_pow2_no_overflow(max_order as nat);
        }
        let limit = max_idx / multiplier;
        let tree = Tree::new(max_order, pow2_usize(max_order) - 1, limit);
        proof {
            assert(limit * multiplier == max_idx) by (nonlinear_arith)
                requires
                    max_idx == multiplier * (max_idx / multiplier) + max_idx % multiplier,
                    max_idx % multiplier == 0,
                    limit == max_idx / multiplier,
            ;
        }
        RawBuddies { allocations: 0, tree, max_order, base_shift, max_idx }
    }

    /// An allocator managing exactly `capacity` bytes in granules of
    /// `multiplier` bytes, with the fewest levels whose whole range holds
    /// `capacity`.
    pub fn with_capacity(capacity: usize, multiplier: usize) -> (r: Self)
        requires
            0 < capacity <= pow2((usize::BITS - 4) as nat),
            is_power_of_two(multiplier as int),
            capacity % multiplier == 0,
        ensures
            r.wf(),
            r@.capacity == capacity,
            r@.unit() == multiplier,
            r@.max_size() >= capacity,
            r@.tree.order == 1 || r@.max_size() < 2 * capacity,
            r@.tree.free == TreeView::seeded(r@.tree.order, capacity as nat / multiplier as nat),
            r@.tree.live == Set::<(int, int)>::empty(),
            r@.allocations == 0,
    {
        let ghost lim = pow2((usize::BITS - 4) as nat);
        let ghost k = choose|k: nat| pow2(k) == multiplier;
        proof {
            lemma_pow2_pos(k);
            vstd::bits::lemma_usize_pow2_no_overflow((usize::BITS - 3) as nat);
            lemma_pow2_unfold((usize::BITS - 3) as nat);
            lemma2_to64();
            assert(pow2(0) == 1);
            lemma_fundamental_div_mod(capacity as int, multiplier as int);
            assert(capacity >= multiplier) by (nonlinear_arith)
                requires
                    capacity == multiplier * (capacity / multiplier) + capacity % multiplier,
                    capacity % multiplier == 0,
                    capacity > 0,
                    multiplier > 0,
            ;
        }
        let mut order: usize = 1;
        let mut whole: usize = multiplier;
        proof {
            assert(((order - 1) as nat) == 0);
            assert(pow2(0) == 1) by {
                lemma2_to64();
            }
            assert(whole == pow2(((order - 1) as nat)) * multiplier);
        }
        while whole < capacity
            invariant
                1 <= order < usize::BITS - 2,
                whole > 0,
                whole == pow2((order - 1) as nat) * multiplier,
                multiplier > 0,
                capacity >= multiplier,
                capacity <= lim,
                lim == pow2((usize::BITS - 4) as nat),
                2 * lim < usize::MAX,
                order == 1 || whole < 2 * capacity,
                order == 1 || pow2((order - 2) as nat) * multiplier < capacity,
            decreases 2 * lim - whole,
        {
            proof {
                assert(pow2((order - 1) as nat) <= whole) by (nonlinear_arith)
                    requires
                        whole == pow2((order - 1) as nat) * multiplier,
                        multiplier >= 1,
                ;
                if order - 1 >= usize::BITS - 4 {
                    if order - 1 > usize::BITS - 4 {
                        lemma_pow2_strictly_increases((usize::BITS - 4) as nat, (order - 1) as nat);
                    }
                    assert(false);
                }
                lemma_pow2_unfold(order as nat);
                assert(((order + 1) - 1) as nat == order as nat);
                assert(pow2(order as nat) * multiplier == 2 * whole) by (nonlinear_arith)
                    requires
                        pow2(order as nat) == 2 * pow2((order - 1) as nat),
                        whole == pow2((order - 1) as nat) * multiplier,
                ;
            }
            whole = whole * 2;
            order = order + 1;
        }
        proof {
            lemma_pow2_adds((order - 1) as nat, 0);
            assert(span(order as nat, 0) == pow2((order - 1) as nat));
            if order > 1 {
                lemma_pow2_unfold((order - 1) as nat);
                assert(whole / 2 == pow2((order - 2) as nat) * multiplier) by (nonlinear_arith)
                    requires
                        pow2((order - 1) as nat) == 2 * pow2((order - 2) as nat),
                        whole == pow2((order - 1) as nat) * multiplier,
                ;
            } else {
                assert(whole / 2 < whole);
            }
        }
        Self::new_in(order, multiplier, Some(capacity))
    }

    /// Managed bytes.
    pub fn capacity(&self) -> (r: usize)
        ensures
            r == self@.capacity,
    {
        self.max_idx
    }

    /// Seals the allocator if it has no live allocation, and says whether
    /// it did: once sealed, every allocation fails.
    pub fn is_unused(&mut self) -> (r: bool)
        requires
            old(self).wf(),
        ensures
            final(self).wf(),
            r == (!old(self)@.sealed() && old(self)@.tree.live.len() == 0),
            r ==> final(self)@ == old(self)@.with(old(self)@.tree, isize::MIN as int),
            !r ==> final(self)@ == old(self)@,
    {
        if self.allocations == 0 {
            self.allocations = isize::MIN;
            true
        } else {
            false
        }
    }

    /// Bytes the whole tree would cover: the largest request it can serve.
    pub fn max_size(&self) -> (r: usize)
        requires
            self.wf(),
        ensures
            r == self@.max_size(),
    {
        calculate_block_size(self.max_order, 0) * pow2_usize(self.base_shift)
    }

    /// Bytes set aside for a request of `size` bytes.
    pub fn real_size_for_allocation(&self, size: usize) -> (r: usize)
        requires
            self.wf(),
            size <= self@.max_size(),
        ensures
            r == self@.real_size(size as int),
            size <= r,
    {
        let order = calculate_order_for_size(self.max_order, self.base_shift, size);
        let bs = calculate_block_size(self.max_order, order);
        let unit = pow2_usize(self.base_shift);
        proof {
            lemma_span_ordered(self.max_order as nat, 0, order as int);
            lemma_mul_inequality(
                span(self.max_order as nat, order as int) as int,
                span(self.max_order as nat, 0) as int,
                unit as int,
            );
        }
        bs * unit
    }

    /// A handed-out block ends within the capacity, in bytes.
    proof fn lemma_block_bytes(&self, level: int, i: int)
        requires
            self.wf(),
            self@.tree.live.contains((level, i)),
        ensures
            0 <= i * span(self@.tree.order, level),
            i * span(self@.tree.order, level) * self@.unit() + span(self@.tree.order, level)
                * self@.unit() <= self@.capacity,
            self@.capacity <= self@.max_size() <= usize::MAX,
    {
        let v = self@;
        assert(v.tree.occupied((level, i)));
        lemma_extent(v.tree.order, (level, i));
        let st = i * span(v.tree.order, level);
        let sp = span(v.tree.order, level) as int;
        let u = v.unit() as int;
        lemma_pow2_pos(v.base_shift);
        assert(st * u + sp * u == (st + sp) * u) by (nonlinear_arith);
        lemma_mul_inequality(st + sp, v.tree.limit as int, u);
        lemma_mul_inequality(v.tree.limit as int, span(v.tree.order, 0) as int, u);
        assert(0 <= st) by (nonlinear_arith)
            requires
                i >= 0,
                sp >= 0,
                st == i * sp,
        ;
    }

    /// Hands out `size` bytes aligned to `align` and returns their offset.
    /// Fails once the allocator is sealed, and when the tree has no block
    /// for the request.
    pub fn allocate_with_size(&mut self, size: usize, align: usize) -> (r: Option<usize>)
        requires
            old(self).wf(),
            is_power_of_two(align as int),
        ensures
            final(self).wf(),
            final(self)@.base_shift == old(self)@.base_shift,
            final(self)@.capacity == old(self)@.capacity,
            old(self)@.sealed() || old(self)@.allocations == isize::MAX || size > old(self)@.capacity
                || align > old(self)@.capacity ==> r is None && final(self)@ == old(self)@,
            !(old(self)@.sealed() || old(self)@.allocations == isize::MAX || size > old(self)@.capacity
                || align > old(self)@.capacity) ==> {
                &&& old(self)@.tree.allocates(
                    old(self)@.level_for(size as int),
                    old(self)@.align_exp(align as int),
                    granules(r, old(self)@.unit()),
                    final(self)@.tree,
                )
                &&& final(self)@.allocations == old(self)@.allocations + if r is Some {
                    1int
                } else {
                    0int
                }
            },
            r matches Some(o) ==> {
                &&& o as int % old(self)@.unit() as int == 0
                &&& o as int % align as int == 0
                &&& o as int % old(self)@.real_size(size as int) == 0
                &&& o + old(self)@.real_size(size as int) <= old(self)@.capacity
            },
    {
        if self.allocations < 0 || self.allocations == isize::MAX || size > self.max_idx || align
            > self.max_idx {
            return None;
        }
        proof {
            lemma_mul_inequality(self@.tree.limit as int, span(self@.tree.order, 0) as int, self@.unit() as int);
        }
        let order = calculate_order_for_size(self.max_order, self.base_shift, size);
        let e = exponent_of(align);
        let a = if e <= self.base_shift {
            0
        } else {
            e - self.base_shift
        };
        let res = self.tree.allocate(order, a);
        match res {
            Some(j) => {
                let bs = calculate_block_size(self.max_order, order);
                let unit = pow2_usize(self.base_shift);
                self.allocations = self.allocations + 1;
                proof {
                    self.lemma_block_bytes(order as int, j as int);
                    lemma_mul_inequality(
                        span(self@.tree.order, order as int) as int,
                        (j * span(self@.tree.order, order as int) + span(self@.tree.order, order as int)) as int,
                        unit as int,
                    );
                }
                proof {
                    lemma_pow2_pos(self.base_shift as nat);
                    assert((j * bs) as int <= (j * bs) * unit) by (nonlinear_arith)
                        requires
                            unit >= 1,
                            j * bs >= 0,
                    ;
                }
                let o = j * bs * unit;
                proof {
                    lemma_pow2_pos(self.base_shift as nat);
                    lemma_div_multiples_vanish((j * bs) as int, unit as int);
                    assert((j * bs) * unit == unit * (j * bs)) by (nonlinear_arith);
                    lemma_mod_multiples_basic((j * bs) as int, unit as int);
                    let pre = old(self)@;
                    let st = (j * bs) as int;
                    assert(st == start(pre.tree.order, (order as int, j as int)));
                    lemma_allocation_fits(pre.tree, order as int, a as nat, st, self@.tree);
                    lemma_byte_aligned(st, a as nat, self.base_shift as nat, e as nat);
                    lemma_scaled_mod(st, span(pre.tree.order, order as int) as int, unit as int);
                    lemma_mul_inequality(
                        st + span(pre.tree.order, order as int),
                        pre.tree.limit as int,
                        unit as int,
                    );
                    assert((st + span(pre.tree.order, order as int)) * unit == st * unit + span(
                        pre.tree.order,
                        order as int,
                    ) * unit) by (nonlinear_arith);
                }
                Some(o)
            },
            None => None,
        }
    }

    /// Hands out the block for `size` bytes that starts at `offset`, if it
    /// or a block that holds it is free.
    pub fn allocate_at(&mut self, size: usize, offset: usize) -> (r: bool)
        requires
            old(self).wf(),
            size <= old(self)@.max_size(),
            offset as int % old(self)@.real_size(size as int) == 0,
        ensures
            final(self).wf(),
            final(self)@.base_shift == old(self)@.base_shift,
            final(self)@.capacity == old(self)@.capacity,
            old(self)@.sealed() || old(self)@.allocations == isize::MAX || offset + old(self)@.real_size(
                size as int,
            ) > old(self)@.capacity ==> !r && final(self)@ == old(self)@,
            !(old(self)@.sealed() || old(self)@.allocations == isize::MAX || offset + old(self)@.real_size(
                size as int,
            ) > old(self)@.capacity) ==> {
                &&& old(self)@.tree.claims(
                    old(self)@.block_of(offset as int, size as int),
                    r,
                    final(self)@.tree,
                )
                &&& final(self)@.allocations == old(self)@.allocations + if r {
                    1int
                } else {
                    0int
                }
            },
    {
        if self.allocations < 0 || self.allocations == isize::MAX {
            return false;
        }
        let order = calculate_order_for_size(self.max_order, self.base_shift, size);
        let bs = calculate_block_size(self.max_order, order);
        let unit = pow2_usize(self.base_shift);
        proof {
            lemma_span_ordered(self.max_order as nat, 0, order as int);
            lemma_mul_inequality(span(self@.tree.order, order as int) as int, span(self@.tree.order, 0) as int, unit as int);
            lemma_pow2_pos(self.base_shift as nat);
            lemma_mul_strictly_positive(bs as int, unit as int);
        }
        let held = bs * unit;
        if offset > self.max_idx || self.max_idx - offset < held {
            return false;
        }
        let index = offset / held;
        proof {
            let v = self@;
            lemma_fundamental_div_mod(offset as int, held as int);
            assert(offset == held * index) by (nonlinear_arith)
                requires
                    offset == held * (offset / held) + offset % held,
                    offset % held == 0,
                    index == offset / held,
            ;
            assert((index + 1) * bs * unit == offset + held) by (nonlinear_arith)
                requires
                    offset == held * index,
                    held == bs * unit,
            ;
            assert(v.capacity == v.tree.limit * unit);
            lemma_mul_inequality_converse((index + 1) * bs, v.tree.limit as int, unit as int);
            assert(index >= 0);
        }
        if self.tree.allocate_at(order, index) {
            self.allocations = self.allocations + 1;
            true
        } else {
            false
        }
    }

    /// Index of the block of `level` that holds byte `idx`.
    fn index_of(&self, idx: usize, level: usize) -> (r: usize)
        requires
            self.wf(),
            level < self@.tree.order,
        ensures
            r == idx as int / (span(self@.tree.order, level as int) * self@.unit()) as int,
    {
        let bs = calculate_block_size(self.max_order, level);
        let unit = pow2_usize(self.base_shift);
        proof {
            lemma_span_ordered(self.max_order as nat, 0, level as int);
            lemma_mul_inequality(
                span(self@.tree.order, level as int) as int,
                span(self@.tree.order, 0) as int,
                unit as int,
            );
            lemma_pow2_pos(self.base_shift as nat);
            lemma_mul_strictly_positive(bs as int, unit as int);
        }
        idx / (bs * unit)
    }

    /// Gives back the `size` bytes handed out at `idx`.
    pub fn deallocate_with_size(&mut self, idx: usize, size: usize)
        requires
            old(self).wf(),
            size <= old(self)@.max_size(),
            idx as int % old(self)@.unit() as int == 0,
            old(self)@.tree.live.contains(old(self)@.block_of(idx as int, size as int)),
        ensures
            final(self).wf(),
            final(self)@ == old(self)@.with(final(self)@.tree, old(self)@.allocations - 1),
            old(self)@.tree.releases(old(self)@.block_of(idx as int, size as int), final(self)@.tree),
    {
        let order = calculate_order_for_size(self.max_order, self.base_shift, size);
        let index = self.index_of(idx, order);
        self.allocations = self.allocations - 1;
        self.tree.deallocate(order, index);
    }

    /// Shrinks the `old_size` bytes handed out at `idx` to `new_size`,
    /// in place.
    pub fn shrink_with_size(&mut self, idx: usize, old_size: usize, new_size: usize)
        requires
            old(self).wf(),
            old_size <= old(self)@.max_size(),
            new_size <= old(self)@.max_size(),
            old(self)@.level_for(old_size as int) <= old(self)@.level_for(new_size as int),
            idx as int % old(self)@.unit() as int == 0,
            old(self)@.tree.live.contains(old(self)@.block_of(idx as int, old_size as int)),
        ensures
            final(self).wf(),
            final(self)@ == old(self)@.with(final(self)@.tree, old(self)@.allocations),
            old(self)@.tree.shrinks(
                old(self)@.block_of(idx as int, old_size as int),
                old(self)@.level_for(new_size as int),
                final(self)@.tree,
            ),
    {
        let old_order = calculate_order_for_size(self.max_order, self.base_shift, old_size);
        let new_order = calculate_order_for_size(self.max_order, self.base_shift, new_size);
        let index = self.index_of(idx, old_order);
        self.tree.shrink(old_order, index, new_order);
    }

    /// Grows the `old_size` bytes handed out at `idx` to `new_size` and
    /// returns where they now start.
    pub fn grow_with_size(
        &mut self,
        idx: usize,
        old_size: usize,
        new_size: usize,
        placement: GrowPlacement,
    ) -> (r: Option<usize>)
        requires
            old(self).wf(),
            old_size <= old(self)@.max_size(),
            new_size <= old(self)@.max_size() ==> old(self)@.level_for(new_size as int) <= old(self)@.level_for(old_size as int),
            idx as int % old(self)@.unit() as int == 0,
            old(self)@.tree.live.contains(old(self)@.block_of(idx as int, old_size as int)),
        ensures
            final(self).wf(),
            final(self)@ == old(self)@.with(final(self)@.tree, old(self)@.allocations),
            new_size > old(self)@.max_size() ==> r is None && final(self)@ == old(self)@,
            new_size <= old(self)@.max_size() ==> old(self)@.tree.grows(
                old(self)@.block_of(idx as int, old_size as int),
                old(self)@.level_for(new_size as int),
                placement is InPlace,
                granules(r, old(self)@.unit()),
                final(self)@.tree,
            ),
            r matches Some(o) ==> o as int % old(self)@.unit() as int == 0 && o + old(self)@.real_size(
                new_size as int,
            ) <= old(self)@.capacity,
    {
        if new_size > self.max_size() {
            return None;
        }
        let old_order = calculate_order_for_size(self.max_order, self.base_shift, old_size);
        let new_order = calculate_order_for_size(self.max_order, self.base_shift, new_size);
        let index = self.index_of(idx, old_order);
        let in_place = match placement {
            GrowPlacement::InPlace => true,
            GrowPlacement::MayMove => false,
        };
        let res = self.tree.grow(old_order, index, new_order, in_place);
        match res {
            Some(j) => {
                let bs = calculate_block_size(self.max_order, new_order);
                let unit = pow2_usize(self.base_shift);
                proof {
                    self.lemma_block_bytes(new_order as int, j as int);
                    lemma_pow2_pos(self.base_shift as nat);
                    assert((j * bs) as int <= (j * bs) * unit) by (nonlinear_arith)
                        requires
                            unit >= 1,
                            j * bs >= 0,
                    ;
                }
                let o = j * bs * unit;
                proof {
                    lemma_div_multiples_vanish((j * bs) as int, unit as int);
                    assert((j * bs) * unit == unit * (j * bs)) by (nonlinear_arith);
                    lemma_mod_multiples_basic((j * bs) as int, unit as int);
                }
                Some(o)
            },
            None => None,
        }
    }
}

} // verus!
