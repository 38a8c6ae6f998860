//! A buddy allocator over `pow2(ORDER - 1)` granules, addressed by level.
use crate::block::{calculate_block_size, end, lemma_extent, opt_int, order_fits, pow2_usize, span};
use vstd::bits::lemma_usize_pow2_no_overflow;
use crate::tree::{Tree, TreeView};
use vstd::arithmetic::power2::*;
use vstd::prelude::*;

verus! {

/// Number of flags in a tree of `order` levels, with one level to spare.
pub fn blocks(order: usize) -> (r: usize)
    requires
        order + 1 < usize::BITS,
    ensures
        r == pow2((order + 1) as nat) - 1,
{
    proof {
        lemma_pow2_pos((order + 1) as nat);
    }
    pow2_usize(order + 1) - 1
}

/// Whether a block that grows may move.
pub enum GrowPlacement {
    /// The grown block may start elsewhere.
    MayMove,
    /// The grown block must start where the old one did.
    InPlace,
}

/// A buddy allocator whose blocks are named by level and first granule.
/// Level 0 is the whole range of `pow2(ORDER - 1)` granules; a block at level
/// `l` spans `pow2(ORDER - l - 1)` granules.
pub struct Buddys<const ORDER: usize> {
    tree: Tree,
}

impl<const ORDER: usize> View for Buddys<ORDER> {
    type V = TreeView;

    closed spec fn view(&self) -> TreeView {
        self.tree@
    }
}

impl<const ORDER: usize> Buddys<ORDER> {
    /// The tree is well formed and spans the whole range.
    pub closed spec fn wf(&self) -> bool {
        &&& self.tree.wf()
        &&& self.tree@.order == ORDER
        &&& self.tree@.limit == pow2((ORDER - 1) as nat)
    }

    /// The view of a well-formed allocator is a well-formed tree over the
    /// whole range.
    pub proof fn lemma_wf(&self)
        requires
            self.wf(),
        ensures
            self@.wf(),
            self@.order == ORDER,
            self@.limit == pow2((ORDER - 1) as nat),
    {
    }

    /// A handed-out block ends within the range.
    proof fn lemma_fits(&self, level: int, i: int)
        requires
            self.wf(),
            self@.live.contains((level, i)),
        ensures
            i * span(ORDER as nat, level) <= end(ORDER as nat, (level, i)) <= pow2((ORDER - 1) as nat),
            i * span(ORDER as nat, level) + span(ORDER as nat, level) == end(ORDER as nat, (level, i)),
            pow2((ORDER - 1) as nat) < usize::MAX,
    {
        assert(self@.occupied((level, i)));
        lemma_extent(ORDER as nat, (level, i));
        lemma_usize_pow2_no_overflow((ORDER - 1) as nat);
    }

    /// An allocator whose whole range is one free block.
    pub fn new() -> (r: Self)
        requires
            order_fits(ORDER as nat),
        ensures
            r.wf(),
            r@.free == set![(0int, 0int)],
            r@.live == Set::<(int, int)>::empty(),
    {
        proof {
            lemma_pow2_strictly_increases((ORDER + 1) as nat, usize::BITS as nat);
            lemma_pow2_strictly_increases(ORDER as nat, (ORDER + 1) as nat);
            TreeView::lemma_seeded_whole(ORDER as nat);
            lemma_pow2_pos((ORDER - 1) as nat);
        }
        let tree = Tree::new(ORDER, blocks(ORDER), pow2_usize(ORDER - 1));
        Buddys { tree }
    }

    /// Hands out a block of `level` and returns its first granule: the
    /// first free block of the level, else one carved out of the first
    /// free block of the deepest level above it that has one.
    pub fn allocate(&mut self, level: usize) -> (r: Option<usize>)
        requires
            old(self).wf(),
            level < ORDER,
        ensures
            final(self).wf(),
            old(self)@.allocates(level as int, 0, opt_int(r), final(self)@),
            r matches Some(o) ==> o + span(ORDER as nat, level as int) <= pow2((ORDER - 1) as nat),
    {
        let res = self.tree.allocate(level, 0);
        match res {
            Some(i) => {
                let bs = calculate_block_size(ORDER, level);
                proof {
                    self.lemma_fits(level as int, i as int);
                }
                Some(i * bs)
            },
            None => None,
        }
    }

    /// Gives back the block of `level` that holds granule `idx`.
    pub fn deallocate(&mut self, idx: usize, level: usize)
        requires
            old(self).wf(),
            level < ORDER,
            old(self)@.live.contains((level as int, idx as int / span(ORDER as nat, level as int) as int)),
        ensures
            final(self).wf(),
            old(self)@.releases(
                (level as int, idx as int / span(ORDER as nat, level as int) as int),
                final(self)@,
            ),
    {
        let bs = calculate_block_size(ORDER, level);
        self.tree.deallocate(level, idx / bs);
    }

    /// Shrinks the handed-out block of `old_level` that holds granule `idx`
    /// to its first block of `new_level`.
    pub fn shrink(&mut self, idx: usize, old_level: usize, new_level: usize)
        requires
            old(self).wf(),
            old_level <= new_level < ORDER,
            old(self)@.live.contains(
                (old_level as int, idx as int / span(ORDER as nat, old_level as int) as int),
            ),
        ensures
            final(self).wf(),
            old(self)@.shrinks(
                (old_level as int, idx as int / span(ORDER as nat, old_level as int) as int),
                new_level as int,
                final(self)@,
            ),
    {
        let bs = calculate_block_size(ORDER, old_level);
        self.tree.shrink(old_level, idx / bs, new_level);
    }

    /// Grows the handed-out block of `old_level` that holds granule `idx`
    /// to its ancestor at `new_level`, and returns where that starts.
    pub fn grow(&mut self, idx: usize, old_level: usize, new_level: usize, placement: GrowPlacement) -> (r:
        Option<usize>)
        requires
            old(self).wf(),
            new_level <= old_level < ORDER,
            old(self)@.live.contains(
                (old_level as int, idx as int / span(ORDER as nat, old_level as int) as int),
            ),
        ensures
            final(self).wf(),
            old(self)@.grows(
                (old_level as int, idx as int / span(ORDER as nat, old_level as int) as int),
                new_level as int,
                placement is InPlace,
                opt_int(r),
                final(self)@,
            ),
            r matches Some(o) ==> o + span(ORDER as nat, new_level as int) <= pow2((ORDER - 1) as nat),
    {
        let bs = calculate_block_size(ORDER, old_level);
        let in_place = match placement {
            GrowPlacement::InPlace => true,
            GrowPlacement::MayMove => false,
        };
        let res = self.tree.grow(old_level, idx / bs, new_level, in_place);
        match res {
            Some(i) => {
                let nbs = calculate_block_size(ORDER, new_level);
                proof {
                    self.lemma_fits(new_level as int, i as int);
                }
                Some(i * nbs)
            },
            None => None,
        }
    }
}

} // verus!
