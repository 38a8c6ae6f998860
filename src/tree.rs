//! The flag tree shared by the index allocators: one flag per block, `true`
//! when the block is free.
use crate::block::{
    calculate_block_size,
    ancestor, buddy_index, joined, lemma_ancestor_contains, lemma_ancestor_index, lemma_joined_path,
    lemma_parent, path_buddies,
    buddy, disjoint, end, in_range, lemma_halves, lemma_extent, lemma_index_bound, lemma_leftmost, lemma_multiples, lemma_node,
    lemma_same_start, leftmost, opt_start, uppers, lemma_span_pos, left,
    node, order_fits, parent, pow2_usize, right, span, start,
};
use vstd::arithmetic::div_mod::*;
use vstd::arithmetic::power2::*;
use vstd::bits::lemma_usize_pow2_no_overflow;
use vstd::prelude::*;

verus! {

/// What a tree of flags stands for: which blocks are free, and which are
/// handed out.
pub ghost struct TreeView {
    /// Number of levels.
    pub order: nat,
    /// Granules `[0, limit)` are managed; blocks beyond are never used.
    pub limit: nat,
    /// Blocks whose flag is set.
    pub free: Set<(int, int)>,
    /// Blocks handed out and not yet given back.
    pub live: Set<(int, int)>,
}

impl TreeView {
    /// `b` is free or handed out.
    pub open spec fn occupied(self, b: (int, int)) -> bool {
        self.free.contains(b) || self.live.contains(b)
    }

    /// The free or handed-out block `b` holds granule `g`.
    pub open spec fn holds(self, b: (int, int), g: int) -> bool {
        self.occupied(b) && start(self.order, b) <= g < end(self.order, b)
    }

    /// Some free or handed-out block holds granule `g`.
    pub open spec fn covered(self, g: int) -> bool {
        exists|b: (int, int)| #[trigger] self.holds(b, g)
    }

    /// Free and handed-out blocks lie in range, none is both, no two of
    /// them share a granule, together they tile `[0, limit)`, and no free
    /// block has a free buddy in range.
    pub open spec fn wf(self) -> bool {
        &&& order_fits(self.order)
        &&& 0 < self.limit <= pow2((self.order - 1) as nat)
        &&& self.live.finite()
        &&& forall|b: (int, int)| #[trigger]
            self.occupied(b) ==> in_range(self.order, self.limit, b)
        &&& forall|b: (int, int)| #[trigger]
            self.free.contains(b) ==> !self.live.contains(b)
        &&& forall|a: (int, int), b: (int, int)|
            #![trigger self.occupied(a), self.occupied(b)]
            self.occupied(a) && self.occupied(b) && a != b ==> disjoint(self.order, a, b)
        &&& forall|g: int| 0 <= g < self.limit ==> #[trigger] self.covered(g)
        &&& forall|b: (int, int)| #[trigger]
            self.free.contains(b) && b.0 > 0 && in_range(self.order, self.limit, buddy(b))
                ==> !self.free.contains(buddy(b))
    }

    /// Granules from one block of `level` that a request aligned to
    /// `pow2(a)` granules may take to the next.
    pub open spec fn step(self, level: int, a: nat) -> nat {
        if a <= self.order - 1 - level {
            span(self.order, level)
        } else {
            pow2(a)
        }
    }

    /// `b` is free, starts at a multiple of its step, and ends below the
    /// limit.
    pub open spec fn hit(self, b: (int, int), a: nat) -> bool {
        &&& 0 <= b.0 < self.order
        &&& 0 <= b.1
        &&& start(self.order, b) % (self.step(b.0, a) as int) == 0
        &&& end(self.order, b) <= self.limit
        &&& self.free.contains(b)
    }

    /// No block of `level` is a hit.
    pub open spec fn no_hit(self, level: int, a: nat) -> bool {
        forall|c: (int, int)| c.0 == level ==> !#[trigger] self.hit(c, a)
    }

    /// `b` is the hit of its level that starts first.
    pub open spec fn first_hit(self, b: (int, int), a: nat) -> bool {
        &&& self.hit(b, a)
        &&& forall|c: (int, int)|
            c.0 == b.0 && start(self.order, c) < start(self.order, b) ==> !#[trigger] self.hit(c, a)
    }

    /// A request for a block of `level` aligned to `pow2(a)` granules, made
    /// in this tree, answers `r` (a first granule) and leaves `post`: the
    /// deepest level at `level` or above that has a hit gives up its first
    /// hit `b`; `b` is split down its lower edge to `level`, the upper halves
    /// on the way become free, and the block at `level` that starts with `b`
    /// is handed out; the answer is where `b` starts. With no hit at any
    /// level up to `level`, nothing changes and the answer is `None`.
    pub open spec fn allocates(self, level: int, a: nat, r: Option<int>, post: TreeView) -> bool {
        match r {
            None => post == self && forall|k: int| 0 <= k <= level ==> #[trigger] self.no_hit(k, a),
            Some(i) => exists|b: (int, int)|
                #[trigger] self.first_hit(b, a) && b.0 <= level && (forall|k: int|
                    b.0 < k <= level ==> #[trigger] self.no_hit(k, a)) && i == start(self.order, b)
                    && post == self.with(
                    self.free.remove(b).union(uppers(b, level)),
                    self.live.insert(leftmost(b, level)),
                ),
        }
    }

    /// On the way up from `b`, the ancestor `m` levels up has a buddy in
    /// range that is free, and the two can join.
    pub open spec fn merges(self, b: (int, int), m: int) -> bool {
        &&& ancestor(b, m).0 > 0
        &&& in_range(self.order, self.limit, buddy(ancestor(b, m)))
        &&& self.free.contains(buddy(ancestor(b, m)))
    }

    /// Giving back `b` leaves `post`: `b` joins its free buddies up the
    /// tree for as long as they are free, and the largest block so formed
    /// becomes free.
    pub open spec fn releases(self, b: (int, int), post: TreeView) -> bool {
        exists|k: int|
            #![trigger joined(b, k)]
            0 <= k && (forall|m: int| 0 <= m < k ==> #[trigger] self.merges(b, m)) && !self.merges(
                b,
                k,
            ) && post == self.with(
                self.free.difference(joined(b, k)).insert(ancestor(b, k)),
                self.live.remove(b),
            )
    }

    /// Shrinking the handed-out `b` to level `to` leaves `post`: the block
    /// at `to` that starts with `b` stays handed out, and the upper halves
    /// on the way down become free.
    pub open spec fn shrinks(self, b: (int, int), to: int, post: TreeView) -> bool {
        post == self.with(
            self.free.union(uppers(b, to)),
            self.live.remove(b).insert(leftmost(b, to)),
        )
    }

    /// Growing the handed-out `b` to level `to` answers `r` and leaves
    /// `post`. At the same level it answers `b` itself. In place, a block
    /// whose index is not a multiple of `pow2(d + 1)`, for `d` levels up, is
    /// refused. Otherwise the ancestor at `to` is handed out in place of `b`
    /// when the buddies of `b` and of its ancestors below `to` are all free
    /// and in range; if one is not, nothing changes.
    pub open spec fn grows(
        self,
        b: (int, int),
        to: int,
        in_place: bool,
        r: Option<int>,
        post: TreeView,
    ) -> bool {
        let d = b.0 - to;
        if d == 0 {
            r == Some(start(self.order, b)) && post == self
        } else if in_place && b.1 % (pow2((d + 1) as nat) as int) != 0 {
            r is None && post == self
        } else if forall|m: int| 0 <= m < d ==> #[trigger] self.merges(b, m) {
            r == Some(start(self.order, ancestor(b, d))) && post == self.with(
                self.free.difference(joined(b, d)),
                self.live.remove(b).insert(ancestor(b, d)),
            )
        } else {
            r is None && post == self
        }
    }

    /// Claiming the block `b` answers `r` and leaves `post`: when `b` or one
    /// of its ancestors is free, that block is taken and split down to `b`;
    /// `b` is handed out and the buddies on the way down become free.
    /// Otherwise nothing changes.
    pub open spec fn claims(self, b: (int, int), r: bool, post: TreeView) -> bool {
        if exists|k: int| 0 <= k <= b.0 && #[trigger] self.free.contains(ancestor(b, k)) {
            exists|k: int|
                0 <= k <= b.0 && #[trigger] self.free.contains(ancestor(b, k)) && r && post == self.with(
                    self.free.remove(ancestor(b, k)).union(joined(b, k)),
                    self.live.insert(b),
                )
        } else {
            !r && post == self
        }
    }

    /// The free blocks that a tree starts with: the fewest blocks that
    /// together cover `[0, limit)`, at most one per level.
    pub open spec fn seeded(order: nat, limit: nat) -> Set<(int, int)> {
        Set::new(
            |b: (int, int)|
                0 <= b.0 < order && (limit as int / span(order, b.0) as int) % 2 == 1 && b.1
                    == limit as int / span(order, b.0) as int - 1,
        )
    }
}

impl TreeView {
    /// The same tree with other free and handed-out sets.
    pub open spec fn with(self, free: Set<(int, int)>, live: Set<(int, int)>) -> TreeView {
        TreeView { free, live, ..self }
    }

    /// A tree whose limit is the whole range starts with its root free.
    pub proof fn lemma_seeded_whole(order: nat)
        requires
            order >= 1,
        ensures
            TreeView::seeded(order, pow2((order - 1) as nat)) == set![(0int, 0int)],
    {
        let all = pow2((order - 1) as nat);
        assert forall|b: (int, int)|
            TreeView::seeded(order, all).contains(b) <==> b == (0int, 0int) by {
            if 0 <= b.0 < order {
                lemma_pow2_subtracts((order - 1 - b.0) as nat, (order - 1) as nat);
                assert(((order - 1) - (order - 1 - b.0)) as nat == b.0 as nat);
                assert(all as int / span(order, b.0) as int == pow2(b.0 as nat));
                if b.0 > 0 {
                    lemma_pow2_unfold(b.0 as nat);
                } else {
                    lemma2_to64();
                }
            }
        }
        assert(TreeView::seeded(order, all) =~= set![(0int, 0int)]);
    }

    /// Handing out a free block keeps the tree well formed.
    pub proof fn lemma_claim(self, b: (int, int))
        requires
            self.wf(),
            self.free.contains(b),
        ensures
            self.with(self.free.remove(b), self.live.insert(b)).wf(),
    {
        let v = self.with(self.free.remove(b), self.live.insert(b));
        assert forall|c: (int, int)| v.occupied(c) == self.occupied(c) by {}
        assert forall|g: int| 0 <= g < v.limit implies #[trigger] v.covered(g) by {
            assert(self.covered(g));
            let w = choose|w: (int, int)| #[trigger] self.holds(w, g);
            assert(v.holds(w, g));
        }
        assert forall|a: (int, int), c: (int, int)|
            #![trigger v.occupied(a), v.occupied(c)]
            v.occupied(a) && v.occupied(c) && a != c implies disjoint(v.order, a, c) by {
            assert(self.occupied(a) && self.occupied(c));
        }
        assert forall|c: (int, int)| #[trigger]
            v.free.contains(c) && c.0 > 0 && in_range(v.order, v.limit, buddy(c))
                implies !v.free.contains(buddy(c)) by {
            assert(self.free.contains(c));
        }
    }

    /// Splitting a handed-out block into its lower half, handed out, and its
    /// upper half, free, keeps the tree well formed.
    pub proof fn lemma_split(self, p: (int, int))
        requires
            self.wf(),
            self.live.contains(p),
            p.0 + 1 < self.order,
        ensures
            self.with(self.free.insert(right(p)), self.live.remove(p).insert(left(p))).wf(),
    {
        self.lemma_split_toward(p, left(p));
        assert(buddy(left(p)) == right(p));
    }

    /// Splitting a handed-out block into the half `h`, handed out, and the
    /// other half, free, keeps the tree well formed.
    pub proof fn lemma_split_toward(self, p: (int, int), h: (int, int))
        requires
            self.wf(),
            self.live.contains(p),
            p.0 + 1 < self.order,
            h == left(p) || h == right(p),
        ensures
            self.with(self.free.insert(buddy(h)), self.live.remove(p).insert(h)).wf(),
    {
        let o = self.order;
        assert(self.occupied(p));
        assert(in_range(o, self.limit, p));
        lemma_halves(o, p);
        lemma_span_pos(o, p.0 + 1);
        let q = buddy(h);
        assert(q == left(p) || q == right(p));
        assert(q != h);
        assert(buddy(q) == h);
        let v = self.with(self.free.insert(q), self.live.remove(p).insert(h));
        assert forall|g: int| 0 <= g < v.limit implies #[trigger] v.covered(g) by {
            assert(self.covered(g));
            let w = choose|w: (int, int)| #[trigger] self.holds(w, g);
            if w == p {
                lemma_extent(o, left(p));
                lemma_extent(o, right(p));
                if g < end(o, left(p)) {
                    assert(v.holds(left(p), g));
                } else {
                    assert(v.holds(right(p), g));
                }
            } else {
                assert(v.holds(w, g));
            }
        }
        assert forall|c: (int, int)| #[trigger] v.occupied(c) implies in_range(o, v.limit, c) by {
            if c != left(p) && c != right(p) {
                assert(self.occupied(c));
            }
        }
        // Every block other than `p` lies outside `p`.
        assert forall|c: (int, int)| #[trigger]
            self.occupied(c) && c != p implies end(o, c) <= start(o, p) || end(o, p) <= start(o, c) by {
            assert(self.occupied(p));
        }
        assert forall|c: (int, int)| #[trigger] v.free.contains(c) implies !v.live.contains(c) by {
            if c == q {
                if self.live.contains(c) {
                    assert(self.occupied(c));
                }
            } else if c == h {
                assert(self.occupied(c));
            } else {
                assert(self.free.contains(c));
            }
        }
        assert forall|a: (int, int), c: (int, int)|
            #![trigger v.occupied(a), v.occupied(c)]
            v.occupied(a) && v.occupied(c) && a != c implies disjoint(o, a, c) by {
            if a != left(p) && a != right(p) {
                assert(self.occupied(a));
            }
            if c != left(p) && c != right(p) {
                assert(self.occupied(c));
            }
            if (a == left(p) || a == right(p)) && c != left(p) && c != right(p) {
                assert(c != p);
                lemma_span_pos(o, c.0);
            } else if (c == left(p) || c == right(p)) && a != left(p) && a != right(p) {
                assert(a != p);
                lemma_span_pos(o, a.0);
            }
        }
        assert forall|c: (int, int)| #[trigger]
            v.free.contains(c) && c.0 > 0 && in_range(o, v.limit, buddy(c))
                implies !v.free.contains(buddy(c)) by {
            if c == q {
                if self.free.contains(h) {
                    assert(self.occupied(h));
                    assert(self.occupied(p));
                }
            } else if buddy(c) == q {
                assert(c == h);
                if self.free.contains(c) {
                    assert(self.occupied(c));
                    assert(self.occupied(p));
                }
            } else {
                assert(self.free.contains(c));
            }
        }
    }

    /// Joining a handed-out block with its free buddy into their parent,
    /// handed out, keeps the tree well formed.
    pub proof fn lemma_join(self, b: (int, int))
        requires
            self.wf(),
            self.live.contains(b),
            b.0 > 0,
            self.free.contains(buddy(b)),
        ensures
            self.with(self.free.remove(buddy(b)), self.live.remove(b).insert(parent(b))).wf(),
    {
        let v = self.with(self.free.remove(buddy(b)), self.live.remove(b).insert(parent(b)));
        let o = self.order;
        let p = parent(b);
        assert(self.occupied(b));
        assert(self.occupied(buddy(b)));
        assert(in_range(o, self.limit, b));
        assert(in_range(o, self.limit, buddy(b)));
        lemma_halves(o, p);
        assert(b == left(p) || b == right(p));
        assert(buddy(b) == left(p) || buddy(b) == right(p));
        assert(b != buddy(b));
        assert(in_range(o, self.limit, p));
        assert forall|g: int| 0 <= g < v.limit implies #[trigger] v.covered(g) by {
            assert(self.covered(g));
            let w = choose|w: (int, int)| #[trigger] self.holds(w, g);
            if w == b || w == buddy(b) {
                assert(v.holds(p, g));
            } else {
                assert(v.holds(w, g));
            }
        }
        assert forall|c: (int, int)| #[trigger] v.occupied(c) implies in_range(o, v.limit, c) by {
            if c != p {
                assert(self.occupied(c));
            }
        }
        // Every block other than the two halves lies outside `p`.
        assert forall|c: (int, int)| #[trigger]
            self.occupied(c) && c != b && c != buddy(b) implies end(o, c) <= start(o, p) || end(
                o,
                p,
            ) <= start(o, c) by {
            lemma_extent(o, c);
            assert(disjoint(o, c, b));
            assert(disjoint(o, c, buddy(b)));
        }
        assert forall|c: (int, int)| #[trigger] v.free.contains(c) implies !v.live.contains(c) by {
            assert(self.free.contains(c));
            if c == p {
                assert(self.occupied(c));
                lemma_span_pos(o, p.0);
            }
        }
        assert forall|a: (int, int), c: (int, int)|
            #![trigger v.occupied(a), v.occupied(c)]
            v.occupied(a) && v.occupied(c) && a != c implies disjoint(o, a, c) by {
            if a != p {
                assert(self.occupied(a));
            }
            if c != p {
                assert(self.occupied(c));
            }
        }
        assert forall|c: (int, int)| #[trigger]
            v.free.contains(c) && c.0 > 0 && in_range(o, v.limit, buddy(c))
                implies !v.free.contains(buddy(c)) by {
            assert(self.free.contains(c));
        }
    }

    /// Giving back a handed-out block whose buddy is not free keeps the tree
    /// well formed.
    pub proof fn lemma_release(self, b: (int, int))
        requires
            self.wf(),
            self.live.contains(b),
            b.0 == 0 || !in_range(self.order, self.limit, buddy(b)) || !self.free.contains(
                buddy(b),
            ),
        ensures
            self.with(self.free.insert(b), self.live.remove(b)).wf(),
    {
        let v = self.with(self.free.insert(b), self.live.remove(b));
        assert forall|c: (int, int)| v.occupied(c) == self.occupied(c) by {}
        assert forall|g: int| 0 <= g < v.limit implies #[trigger] v.covered(g) by {
            assert(self.covered(g));
            let w = choose|w: (int, int)| #[trigger] self.holds(w, g);
            assert(v.holds(w, g));
        }
        assert forall|a: (int, int), c: (int, int)|
            #![trigger v.occupied(a), v.occupied(c)]
            v.occupied(a) && v.occupied(c) && a != c implies disjoint(v.order, a, c) by {
            assert(self.occupied(a) && self.occupied(c));
        }
        assert forall|c: (int, int)| #[trigger]
            v.free.contains(c) && c.0 > 0 && in_range(v.order, v.limit, buddy(c))
                implies !v.free.contains(buddy(c)) by {
            if c != b {
                assert(self.free.contains(c));
                assert(self.occupied(c));
                if buddy(c) == b {
                    assert(buddy(b) == c);
                }
            }
        }
    }
}

/// One flag per block, laid out level by level: the flag of block
/// `(level, index)` sits at `pow2(level) - 1 + index`. Which blocks are
/// handed out is not stored: a cleared flag means handed out or split, and
/// the ghost set `live` records which.
pub struct Tree {
    flags: Vec<bool>,
    order: usize,
    limit: usize,
    live: Ghost<Set<(int, int)>>,
}

impl View for Tree {
    type V = TreeView;

    closed spec fn view(&self) -> TreeView {
        TreeView {
            order: self.order as nat,
            limit: self.limit as nat,
            free: Set::new(
                |b: (int, int)|
                    in_range(self.order as nat, self.limit as nat, b) && self.flags@[node(b)],
            ),
            live: self.live@,
        }
    }
}

impl Tree {
    /// The flags array is large enough for every level.
    pub closed spec fn shape(&self) -> bool {
        &&& order_fits(self.order as nat)
        &&& 0 < self.limit <= pow2((self.order - 1) as nat)
        &&& self.flags.len() >= pow2(self.order as nat) - 1
    }

    /// The array fits the tree, and the tree is well formed.
    pub open spec fn wf(&self) -> bool {
        self.shape() && self@.wf()
    }

    /// The flag of a block in range lies within the array.
    proof fn lemma_in_range_node(&self, b: (int, int))
        requires
            self.shape(),
            in_range(self.order as nat, self.limit as nat, b),
        ensures
            0 <= node(b) < self.flags.len(),
            b.1 < pow2(b.0 as nat),
    {
        lemma_index_bound(self.order as nat, b);
        lemma_node(self.order as nat, b, b);
    }

    /// Position of the flag of block `(level, index)`.
    fn node_of(&self, level: usize, index: usize) -> (r: usize)
        requires
            self.shape(),
            in_range(self.order as nat, self.limit as nat, (level as int, index as int)),
        ensures
            r == node((level as int, index as int)),
            r < self.flags.len(),
    {
        proof {
            self.lemma_in_range_node((level as int, index as int));
            lemma_pow2_pos(level as nat);
        }
        pow2_usize(level) - 1 + index
    }

    /// Sets the flag of block `(level, index)` to `value`.
    fn set_flag(&mut self, level: usize, index: usize, value: bool)
        requires
            old(self).shape(),
            in_range(old(self).order as nat, old(self).limit as nat, (level as int, index as int)),
        ensures
            final(self).shape(),
            final(self).order == old(self).order,
            final(self).limit == old(self).limit,
            final(self).live == old(self).live,
            final(self).flags.len() == old(self).flags.len(),
            final(self)@.free == if value {
                old(self)@.free.insert((level as int, index as int))
            } else {
                old(self)@.free.remove((level as int, index as int))
            },
    {
        let ghost b = (level as int, index as int);
        let ghost pre = self@;
        let n = self.node_of(level, index);
        self.flags.set(n, value);
        proof {
            let post = self@;
            assert forall|c: (int, int)| #[trigger] post.free.contains(c) <==> (if value {
                pre.free.insert(b)
            } else {
                pre.free.remove(b)
            }).contains(c) by {
                if in_range(self.order as nat, self.limit as nat, c) {
                    self.lemma_in_range_node(c);
                    self.lemma_in_range_node(b);
                    lemma_node(self.order as nat, b, c);
                }
            }
            assert(post.free =~= (if value {
                pre.free.insert(b)
            } else {
                pre.free.remove(b)
            }));
        }
    }

    /// Whether block `(level, index)` is free.
    fn is_free(&self, level: usize, index: usize) -> (r: bool)
        requires
            self.shape(),
            in_range(self.order as nat, self.limit as nat, (level as int, index as int)),
        ensures
            r == self@.free.contains((level as int, index as int)),
    {
        let n = self.node_of(level, index);
        self.flags[n]
    }

    /// Claims block `(level, index)` if it is free: the flag goes from set
    /// to clear.
    fn take(&mut self, level: usize, index: usize) -> (r: bool)
        requires
            old(self).shape(),
            in_range(old(self).order as nat, old(self).limit as nat, (level as int, index as int)),
        ensures
            final(self).shape(),
            final(self).order == old(self).order,
            final(self).limit == old(self).limit,
            final(self).live == old(self).live,
            final(self).flags.len() == old(self).flags.len(),
            r == old(self)@.free.contains((level as int, index as int)),
            final(self)@.free == old(self)@.free.remove((level as int, index as int)),
    {
        let was_free = self.is_free(level, index);
        if was_free {
            self.set_flag(level, index, false);
        } else {
            proof {
                assert(self@.free =~= self@.free.remove((level as int, index as int)));
            }
        }
        was_free
    }
    /// Hands out a block of `level` aligned to `pow2(a)` granules: the first
    /// free one of the level, else the lower half of a block handed out one
    /// level up, whose upper half becomes free.
    pub fn allocate(&mut self, level: usize, a: usize) -> (r: Option<usize>)
        requires
            old(self).wf(),
            level < old(self)@.order,
            a < usize::BITS,
        ensures
            final(self).wf(),
            old(self)@.allocates(level as int, a as nat, opt_start(old(self)@.order, level as int, r), final(self)@),
            r matches Some(i) ==> final(self)@.live.contains((level as int, i as int)),
            r is Some ==> final(self)@.live.len() == old(self)@.live.len() + 1,
        decreases level,
    {
        let ghost pre = self@;
        let ghost lv = level as int;
        let bs = calculate_block_size(self.order, level);
        let sh = self.order - 1 - level;
        let inc = if a <= sh {
            bs
        } else {
            pow2_usize(a)
        };
        let stride = if a <= sh {
            1
        } else {
            pow2_usize(a - sh)
        };
        proof {
            assert(inc == pre.step(lv, a as nat));
            if a > sh {
                lemma_pow2_strictly_increases(sh as nat, a as nat);
                lemma_pow2_adds((a - sh) as nat, sh as nat);
                assert(((a - sh) + sh) as nat == a as nat);
            }
            assert(inc == stride * bs);
            lemma_pow2_pos(a as nat);
            vstd::arithmetic::div_mod::lemma_small_mod(0, inc as nat);
        }
        let mut j: usize = 0;
        let mut g: usize = 0;
        loop
            invariant
                self.wf(),
                self@ == pre,
                old(self)@ == pre,
                pre.order == self.order,
                pre.limit == self.limit,
                lv == level,
                level < self.order,
                bs == span(pre.order, lv),
                inc == pre.step(lv, a as nat),
                inc == stride * bs,
                0 < bs <= inc,
                g == j * bs,
                (g as int) % (inc as int) == 0,
                g <= self.limit,
                forall|c: (int, int)|
                    c.0 == lv && start(pre.order, c) < g ==> !#[trigger] pre.hit(c, a as nat),
            ensures
                self.wf(),
                self@ == pre,
                pre.no_hit(lv, a as nat),
            decreases self.limit - g,
        {
            if bs > self.limit - g {
                proof {
                    assert forall|c: (int, int)| c.0 == lv implies !#[trigger] pre.hit(c, a as nat) by {
                        lemma_extent(pre.order, c);
                    }
                }
                break;
            }
            proof {
                assert(end(pre.order, (lv, j as int)) == g + bs) by {
                    lemma_extent(pre.order, (lv, j as int));
                }
            }
            if self.take(level, j) {
                let ghost b = (lv, j as int);
                self.live = Ghost(self.live@.insert(b));
                proof {
                    pre.lemma_claim(b);
                    assert(self@ == pre.with(pre.free.remove(b), pre.live.insert(b)));
                    lemma_leftmost(pre.order, b, lv);
                    assert(uppers(b, lv) =~= Set::<(int, int)>::empty());
                    assert(pre.free.remove(b).union(uppers(b, lv)) =~= pre.free.remove(b));
                    assert(start(pre.order, b) == g);
                    assert(pre.hit(b, a as nat));
                    assert(pre.first_hit(b, a as nat));
                    assert(start(pre.order, (lv, j as int)) == start(pre.order, b));
                    assert(self@ == pre.with(
                        pre.free.remove(b).union(uppers(b, lv)),
                        pre.live.insert(leftmost(b, lv)),
                    ));
                    assert(forall|k: int| b.0 < k <= lv ==> #[trigger] pre.no_hit(k, a as nat));
                    assert(pre.allocates(lv, a as nat, Some(start(pre.order, b)), self@));
                }
                return Some(j);
            }
            proof {
                assert(self@.free =~= pre.free);
            }
            if inc > self.limit - g {
                proof {
                    assert forall|c: (int, int)| c.0 == lv implies !#[trigger] pre.hit(c, a as nat) by {
                        lemma_extent(pre.order, c);
                        if start(pre.order, c) >= g && pre.hit(c, a as nat) {
                            lemma_multiples(start(pre.order, c), g as int, inc as int);
                            lemma_same_start(pre.order, c, (lv, j as int));
                        }
                    }
                }
                break;
            }
            proof {
                assert forall|c: (int, int)|
                    c.0 == lv && start(pre.order, c) < g + inc implies !#[trigger] pre.hit(
                    c,
                    a as nat,
                ) by {
                    if start(pre.order, c) >= g && pre.hit(c, a as nat) {
                        lemma_multiples(start(pre.order, c), g as int, inc as int);
                        lemma_same_start(pre.order, c, (lv, j as int));
                    }
                }
                assert((j + stride) * bs == g + inc) by (nonlinear_arith)
                    requires
                        g == j * bs,
                        inc == stride * bs,
                ;
                assert(j + stride <= g + inc) by (nonlinear_arith)
                    requires
                        (j + stride) * bs == g + inc,
                        bs >= 1,
                        j + stride >= 0,
                ;
                vstd::arithmetic::div_mod::lemma_mod_add_multiples_vanish(g as int, inc as int);
            }
            j = j + stride;
            g = g + inc;
        }
        if level > 0 {
            let res = self.allocate(level - 1, a);
            match res {
                Some(p) => {
                    let ghost s1 = self@;
                    let ghost pb = (lv - 1, p as int);
                    let ghost bf = choose|b: (int, int)|
                        #[trigger] pre.first_hit(b, a as nat) && b.0 <= lv - 1 && (forall|k: int|
                            b.0 < k <= lv - 1 ==> #[trigger] pre.no_hit(k, a as nat)) && start(pre.order, (lv - 1, p as int))
                            == start(pre.order, b) && s1 == pre.with(
                            pre.free.remove(b).union(uppers(b, lv - 1)),
                            pre.live.insert(leftmost(b, lv - 1)),
                        );
                    proof {
                        assert(pre.occupied(bf));
                        lemma_leftmost(pre.order, bf, lv - 1);
                        lemma_leftmost(pre.order, bf, lv);
                        lemma_same_start(pre.order, pb, leftmost(bf, lv - 1));
                        assert(pb == leftmost(bf, lv - 1));
                        assert(s1.live.contains(pb));
                        assert(s1.occupied(pb));
                        s1.lemma_split(pb);
                        lemma_halves(pre.order, pb);
                        self.lemma_in_range_node(right(pb));
                        lemma_pow2_strictly_increases(level as nat, usize::BITS as nat);
                    }
                    self.set_flag(level, 2 * p + 1, true);
                    self.live = Ghost(self.live@.remove(pb).insert(left(pb)));
                    proof {
                        let post = self@;
                        assert(post == s1.with(s1.free.insert(right(pb)), s1.live.remove(pb).insert(left(pb))));
                        if pre.live.contains(pb) {
                            assert(pre.occupied(pb));
                            lemma_extent(pre.order, pb);
                            lemma_extent(pre.order, bf);
                            assert(false);
                        }
                        assert(uppers(bf, lv) =~= uppers(bf, lv - 1).insert(right(pb)));
                        assert(post.free =~= pre.free.remove(bf).union(uppers(bf, lv)));
                        assert(post.live =~= pre.live.insert(leftmost(bf, lv)));
                        assert(forall|k: int| bf.0 < k <= lv ==> #[trigger] pre.no_hit(k, a as nat));
                        assert(start(pre.order, (lv, 2 * p as int)) == start(pre.order, bf));
                        if pre.live.contains(left(pb)) {
                            assert(pre.occupied(left(pb)));
                            lemma_extent(pre.order, left(pb));
                            lemma_extent(pre.order, bf);
                            assert(false);
                        }
                    }
                    return Some(2 * p);
                },
                None => {},
            }
        }
        None
    }

    /// Takes the free buddy of `(level, index)`, if it lies in range.
    fn take_buddy(&mut self, level: usize, index: usize) -> (r: bool)
        requires
            old(self).shape(),
            in_range(old(self).order as nat, old(self).limit as nat, (level as int, index as int)),
            level > 0,
        ensures
            final(self).shape(),
            final(self).order == old(self).order,
            final(self).limit == old(self).limit,
            final(self).live == old(self).live,
            final(self).flags.len() == old(self).flags.len(),
            r == (in_range(old(self).order as nat, old(self).limit as nat, buddy((level as int, index as int)))
                && old(self)@.free.contains(buddy((level as int, index as int)))),
            final(self)@.free == old(self)@.free.remove(buddy((level as int, index as int))),
    {
        let ghost b = (level as int, index as int);
        let bs = calculate_block_size(self.order, level);
        let bud = buddy_index(index);
        proof {
            lemma_extent(self.order as nat, b);
            lemma_extent(self.order as nat, buddy(b));
            lemma_usize_pow2_no_overflow(self.order as nat);
            lemma_usize_pow2_no_overflow(level as nat);
            self.lemma_in_range_node(b);
            lemma_pow2_unfold(self.order as nat);
            assert((index + 2) * bs == (index + 1) * bs + bs) by (nonlinear_arith);
            assert(index * bs + bs == (index + 1) * bs) by (nonlinear_arith);
            assert((index - 1) * bs + bs == index * bs) by (nonlinear_arith);
        }
        let end = (index + 1) * bs;
        let bud_end = if index % 2 == 0 {
            end + bs
        } else {
            end - bs
        };
        if bud_end <= self.limit {
            self.take(level, bud)
        } else {
            proof {
                assert(!in_range(self.order as nat, self.limit as nat, buddy(b)));
                assert(self@.free =~= self@.free.remove(buddy(b)));
            }
            false
        }
    }

    /// Gives back the handed-out block `(level, index)`, joining it with free
    /// buddies up the tree.
    pub fn deallocate(&mut self, level: usize, index: usize)
        requires
            old(self).wf(),
            old(self)@.live.contains((level as int, index as int)),
        ensures
            final(self).wf(),
            old(self)@.releases((level as int, index as int), final(self)@),
            final(self)@.live.len() == old(self)@.live.len() - 1,
    {
        let ghost pre = self@;
        let ghost b = (level as int, index as int);
        let ghost mut m: int = 0;
        let mut lvl = level;
        let mut idx = index;
        proof {
            assert(pre.occupied(b));
            assert(pre.live.remove(b).insert(b) =~= pre.live);
            assert(pre.free.difference(joined(b, 0)) =~= pre.free);
        }
        loop
            invariant
                self.wf(),
                pre.order == self@.order,
                pre.limit == self@.limit,
                pre.wf(),
                pre.live.contains(b),
                0 <= m,
                (lvl as int, idx as int) == ancestor(b, m),
                lvl == b.0 - m,
                self@ == pre.with(
                    pre.free.difference(joined(b, m)),
                    pre.live.remove(b).insert(ancestor(b, m)),
                ),
                joined(b, m).subset_of(pre.free),
                forall|c: (int, int)| #[trigger] joined(b, m).contains(c) ==> c.0 > b.0 - m,
                forall|i: int| 0 <= i < m ==> #[trigger] pre.merges(b, i),
                start(pre.order, ancestor(b, m)) <= start(pre.order, b),
                end(pre.order, b) <= end(pre.order, ancestor(b, m)),
            ensures
                !pre.merges(b, m),
            decreases lvl,
        {
            let ghost cur = ancestor(b, m);
            let ghost s = self@;
            proof {
                assert(s.live.contains(cur));
                assert(s.occupied(cur));
            }
            if lvl == 0 {
                proof {
                    assert(!pre.merges(b, m));
                }
                break;
            }
            let joins = self.take_buddy(lvl, idx);
            proof {
                assert(!joined(b, m).contains(buddy(cur)));
                assert(joins == pre.merges(b, m));
            }
            if !joins {
                proof {
                    assert(self@.free =~= s.free);
                    assert(self@ == s);
                }
                break;
            }
            self.live = Ghost(self.live@.remove(cur).insert(parent(cur)));
            proof {
                s.lemma_join(cur);
                lemma_parent(pre.order, cur);
                if m > 0 && pre.live.contains(cur) {
                    assert(pre.occupied(cur));
                    assert(pre.occupied(b));
                    assert(cur != b);
                    lemma_extent(pre.order, b);
                    assert(false);
                }
                assert(pre.live.remove(b).insert(cur).remove(cur).insert(parent(cur)) =~= pre.live.remove(
                    b,
                ).insert(parent(cur)));
                assert(ancestor(b, m + 1) == parent(cur));
                assert(joined(b, m + 1) == joined(b, m).insert(buddy(cur)));
                assert(pre.free.difference(joined(b, m)).remove(buddy(cur)) =~= pre.free.difference(
                    joined(b, m + 1),
                ));
                assert(self@ == s.with(s.free.remove(buddy(cur)), s.live.remove(cur).insert(parent(cur))));
            }
            lvl = lvl - 1;
            idx = idx / 2;
            proof {
                m = m + 1;
            }
        }
        let ghost cur = ancestor(b, m);
        let ghost s = self@;
        proof {
            assert(!pre.merges(b, m));
            assert(!joined(b, m).contains(buddy(cur)));
            assert(s.live.contains(cur));
            assert(s.occupied(cur));
        }
        self.set_flag(lvl, idx, true);
        self.live = Ghost(self.live@.remove((lvl as int, idx as int)));
        proof {
            s.lemma_release(cur);
            if m > 0 && pre.live.contains(cur) {
                assert(pre.occupied(cur));
                assert(pre.occupied(b));
                assert(cur != b);
                lemma_extent(pre.order, b);
                assert(false);
            }
            assert(pre.live.remove(b).insert(cur).remove(cur) =~= pre.live.remove(b));
            assert(self@ == pre.with(
                pre.free.difference(joined(b, m)).insert(ancestor(b, m)),
                pre.live.remove(b),
            ));
        }
    }

    /// Shrinks the handed-out block `(level, index)` to its leftmost block at
    /// level `to`, freeing the upper halves on the way down.
    pub fn shrink(&mut self, level: usize, index: usize, to: usize)
        requires
            old(self).wf(),
            old(self)@.live.contains((level as int, index as int)),
            level <= to < old(self)@.order,
        ensures
            final(self).wf(),
            old(self)@.shrinks((level as int, index as int), to as int, final(self)@),
            final(self)@.live.len() == old(self)@.live.len(),
    {
        let ghost pre = self@;
        let ghost b = (level as int, index as int);
        let mut lvl = level;
        let mut idx = index;
        proof {
            assert(pre.occupied(b));
            lemma_leftmost(pre.order, b, level as int);
            assert(uppers(b, level as int) =~= Set::<(int, int)>::empty());
            assert(pre.free.union(uppers(b, level as int)) =~= pre.free);
            assert(pre.live.remove(b).insert(b) =~= pre.live);
        }
        while lvl < to
            invariant
                self.wf(),
                pre.order == self@.order,
                pre.limit == self@.limit,
                pre.wf(),
                pre.live.contains(b),
                b == (level as int, index as int),
                level <= lvl <= to,
                to < pre.order,
                (lvl as int, idx as int) == leftmost(b, lvl as int),
                self@ == pre.with(
                    pre.free.union(uppers(b, lvl as int)),
                    pre.live.remove(b).insert(leftmost(b, lvl as int)),
                ),
            decreases to - lvl,
        {
            let ghost cur = (lvl as int, idx as int);
            let ghost s = self@;
            proof {
                assert(s.live.contains(cur));
                assert(s.occupied(cur));
                s.lemma_split(cur);
                lemma_halves(pre.order, cur);
                lemma_leftmost(pre.order, b, lvl as int);
                lemma_leftmost(pre.order, b, lvl + 1);
                self.lemma_in_range_node(right(cur));
                lemma_usize_pow2_no_overflow((lvl + 1) as nat);
            }
            self.set_flag(lvl + 1, 2 * idx + 1, true);
            self.live = Ghost(self.live@.remove(cur).insert(left(cur)));
            proof {
                if lvl > level && pre.live.contains(cur) {
                    assert(pre.occupied(cur));
                    assert(pre.occupied(b));
                    lemma_extent(pre.order, b);
                    lemma_extent(pre.order, cur);
                    assert(false);
                }
                assert(pre.live.remove(b).insert(cur).remove(cur).insert(left(cur)) =~= pre.live.remove(
                    b,
                ).insert(left(cur)));
                assert(uppers(b, lvl + 1) =~= uppers(b, lvl as int).insert(right(cur)));
                assert(self@.free =~= pre.free.union(uppers(b, lvl + 1)));
            }
            lvl = lvl + 1;
            idx = 2 * idx;
        }
        proof {
            let lm = leftmost(b, to as int);
            lemma_leftmost(pre.order, b, to as int);
            if to > level && pre.live.contains(lm) {
                assert(pre.occupied(lm));
                assert(pre.occupied(b));
                lemma_extent(pre.order, b);
                lemma_extent(pre.order, lm);
                assert(false);
            }
            assert(!pre.live.remove(b).contains(lm));
        }
    }

    /// Sets free again the buddies of `(level, index)` and of its first
    /// `count - 1` ancestors.
    fn restore(&mut self, level: usize, index: usize, count: usize, pre: Ghost<TreeView>)
        requires
            old(self).shape(),
            old(self)@.order == pre@.order,
            old(self)@.limit == pre@.limit,
            count <= level,
            forall|i: int| 0 <= i < count ==> #[trigger] pre@.merges((level as int, index as int), i),
        ensures
            final(self).shape(),
            final(self)@ == old(self)@.with(
                old(self)@.free.union(joined((level as int, index as int), count as int)),
                old(self)@.live,
            ),
    {
        let ghost b = (level as int, index as int);
        let ghost s0 = self@;
        let mut i: usize = 0;
        let mut idx = index;
        proof {
            assert(s0.free.union(joined(b, 0)) =~= s0.free);
        }
        while i < count
            invariant
                self.shape(),
                self@.order == pre@.order,
                self@.limit == pre@.limit,
                s0.order == pre@.order,
                s0.limit == pre@.limit,
                i <= count <= level,
                b == (level as int, index as int),
                (level - i, idx as int) == ancestor(b, i as int),
                forall|k: int| 0 <= k < count ==> #[trigger] pre@.merges(b, k),
                self@ == s0.with(s0.free.union(joined(b, i as int)), s0.live),
            decreases count - i,
        {
            proof {
                assert(pre@.merges(b, i as int));
                lemma_index_bound(pre@.order, buddy(ancestor(b, i as int)));
            }
            let bud = buddy_index(idx);
            self.set_flag(level - i, bud, true);
            proof {
                assert(joined(b, i + 1) == joined(b, i as int).insert(buddy(ancestor(b, i as int))));
                assert(self@.free =~= s0.free.union(joined(b, i + 1)));
                assert(ancestor(b, i + 1) == parent(ancestor(b, i as int)));
            }
            i = i + 1;
            idx = idx / 2;
        }
    }

    /// Grows the handed-out block `(level, index)` to its ancestor at level
    /// `to` by claiming the buddies on the way up; if one of them cannot be
    /// claimed, those already claimed are set free again.
    pub fn grow(&mut self, level: usize, index: usize, to: usize, in_place: bool) -> (r: Option<usize>)
        requires
            old(self).wf(),
            old(self)@.live.contains((level as int, index as int)),
            to <= level,
        ensures
            final(self).wf(),
            old(self)@.grows(
                (level as int, index as int),
                to as int,
                in_place,
                opt_start(old(self)@.order, to as int, r),
                final(self)@,
            ),
            r matches Some(i) ==> final(self)@.live.contains((to as int, i as int)),
            final(self)@.live.len() == old(self)@.live.len(),
    {
        let ghost pre = self@;
        let ghost b = (level as int, index as int);
        let diff = level - to;
        if diff == 0 {
            return Some(index);
        }
        proof {
            assert(pre.occupied(b));
            lemma_pow2_pos((diff + 1) as nat);
        }
        if in_place && index % pow2_usize(diff + 1) != 0 {
            return None;
        }
        let ghost mut m: int = 0;
        let mut lvl = level;
        let mut idx = index;
        proof {
            assert(pre.live.remove(b).insert(b) =~= pre.live);
            assert(pre.free.difference(joined(b, 0)) =~= pre.free);
        }
        while lvl > to
            invariant
                self.wf(),
                pre.order == self@.order,
                pre.limit == self@.limit,
                pre.wf(),
                pre.live.contains(b),
                b == (level as int, index as int),
                diff == level - to,
                diff > 0,
                old(self)@ == pre,
                !(in_place && (index as int) % (pow2((diff + 1) as nat) as int) != 0),
                0 <= m,
                to <= lvl,
                (lvl as int, idx as int) == ancestor(b, m),
                lvl == b.0 - m,
                self@ == pre.with(
                    pre.free.difference(joined(b, m)),
                    pre.live.remove(b).insert(ancestor(b, m)),
                ),
                joined(b, m).subset_of(pre.free),
                forall|c: (int, int)| #[trigger] joined(b, m).contains(c) ==> c.0 > b.0 - m,
                forall|i: int| 0 <= i < m ==> #[trigger] pre.merges(b, i),
                start(pre.order, ancestor(b, m)) <= start(pre.order, b),
                end(pre.order, b) <= end(pre.order, ancestor(b, m)),
            decreases lvl,
        {
            let ghost cur = ancestor(b, m);
            let ghost s = self@;
            proof {
                assert(s.live.contains(cur));
                assert(s.occupied(cur));
            }
            let joins = self.take_buddy(lvl, idx);
            proof {
                assert(!joined(b, m).contains(buddy(cur)));
                assert(joins == pre.merges(b, m));
            }
            if !joins {
                proof {
                    assert(self@.free =~= s.free);
                }
                self.restore(level, index, level - lvl, Ghost(pre));
                self.live = Ghost(pre.live);
                proof {
                    assert(self@.free =~= pre.free);
                    assert(self@ == pre);
                    assert(0 <= m < diff);
                    assert(!pre.merges(b, m));
                    assert(!(forall|i: int| 0 <= i < diff ==> #[trigger] pre.merges(b, i)));
                }
                return None;
            }
            self.live = Ghost(self.live@.remove(cur).insert(parent(cur)));
            proof {
                s.lemma_join(cur);
                lemma_parent(pre.order, cur);
                if m > 0 && pre.live.contains(cur) {
                    assert(pre.occupied(cur));
                    assert(pre.occupied(b));
                    assert(cur != b);
                    lemma_extent(pre.order, b);
                    assert(false);
                }
                assert(pre.live.remove(b).insert(cur).remove(cur).insert(parent(cur)) =~= pre.live.remove(
                    b,
                ).insert(parent(cur)));
                assert(ancestor(b, m + 1) == parent(cur));
                assert(joined(b, m + 1) == joined(b, m).insert(buddy(cur)));
                assert(pre.free.difference(joined(b, m)).remove(buddy(cur)) =~= pre.free.difference(
                    joined(b, m + 1),
                ));
                assert(self@ == s.with(s.free.remove(buddy(cur)), s.live.remove(cur).insert(parent(cur))));
            }
            lvl = lvl - 1;
            idx = idx / 2;
            proof {
                m = m + 1;
            }
        }
        proof {
            assert(m == diff);
            assert(forall|i: int| 0 <= i < diff ==> #[trigger] pre.merges(b, i));
            let an = ancestor(b, m);
            if pre.live.contains(an) {
                assert(pre.occupied(an));
                assert(pre.occupied(b));
                assert(an != b);
                lemma_extent(pre.order, b);
                assert(false);
            }
            assert(!pre.live.remove(b).contains(an));
        }
        Some(idx)
    }

    /// Hands out the block `(level, index)` itself, if it or one of its
    /// ancestors is free, splitting that ancestor down to it.
    pub fn allocate_at(&mut self, level: usize, index: usize) -> (r: bool)
        requires
            old(self).wf(),
            in_range(old(self)@.order, old(self)@.limit, (level as int, index as int)),
        ensures
            final(self).wf(),
            old(self)@.claims((level as int, index as int), r, final(self)@),
            r ==> final(self)@.live.len() == old(self)@.live.len() + 1,
    {
        let ghost pre = self@;
        let ghost b = (level as int, index as int);
        let mut m: usize = 0;
        let mut idx = index;
        proof {
            lemma_ancestor_contains(pre.order, b, 0, level as int);
        }
        loop
            invariant
                self.wf(),
                self@ == pre,
                old(self)@ == pre,
                b == (level as int, index as int),
                0 <= b.1,
                level < pre.order,
                m <= level,
                (level - m, idx as int) == ancestor(b, m as int),
                in_range(pre.order, pre.limit, ancestor(b, m as int)),
                forall|i: int| 0 <= i < m ==> !#[trigger] pre.free.contains(ancestor(b, i)),
            ensures
                m <= level,
                (level - m, idx as int) == ancestor(b, m as int),
                in_range(pre.order, pre.limit, ancestor(b, m as int)),
                pre.free.contains(ancestor(b, m as int)),
                forall|i: int| 0 <= i < m ==> !#[trigger] pre.free.contains(ancestor(b, i)),
            decreases level - m,
        {
            if self.is_free(level - m, idx) {
                break;
            }
            let ghost cur = ancestor(b, m as int);
            if m == level {
                proof {
                    assert(!(exists|k: int| 0 <= k <= b.0 && #[trigger] pre.free.contains(ancestor(b, k))));
                }
                return false;
            }
            let bs = calculate_block_size(self.order, level - m);
            proof {
                self.lemma_in_range_node(cur);
                lemma_usize_pow2_no_overflow((level - m) as nat);
                lemma_extent(pre.order, cur);
                lemma_parent(pre.order, cur);
                lemma_halves(pre.order, parent(cur));
                lemma_extent(pre.order, right(parent(cur)));
                if idx % 2 == 1 {
                    assert(cur == right(parent(cur)));
                } else {
                    assert(cur == left(parent(cur)));
                }
                lemma_usize_pow2_no_overflow(pre.order);
                lemma_pow2_unfold(pre.order);
                lemma_pow2_strictly_increases((pre.order - 1) as nat, pre.order);
                assert(end(pre.order, cur) == (idx + 1) * bs);
            }
            let child_end = (idx + 1) * bs;
            let parent_end = if idx % 2 == 1 {
                child_end
            } else {
                child_end + bs
            };
            if parent_end > self.limit {
                proof {
                    assert(end(pre.order, parent(cur)) == parent_end);
                    assert forall|k: int| 0 <= k <= b.0 implies !#[trigger] pre.free.contains(ancestor(b, k)) by {
                        if k > m {
                            lemma_ancestor_contains(pre.order, b, m + 1, k);
                            if pre.free.contains(ancestor(b, k)) {
                                assert(pre.occupied(ancestor(b, k)));
                            }
                        }
                    }
                }
                return false;
            }
            proof {
                assert(end(pre.order, parent(cur)) == parent_end);
                assert(ancestor(b, m + 1) == parent(cur));
            }
            m = m + 1;
            idx = idx / 2;
        }
        let ghost k = m as int;
        let ghost a = ancestor(b, k);
        self.take(level - m, idx);
        self.live = Ghost(self.live@.insert(a));
        proof {
            pre.lemma_claim(a);
            assert(pre.occupied(a));
            assert(path_buddies(b, k, k) =~= Set::<(int, int)>::empty());
            assert(pre.free.remove(a).union(path_buddies(b, k, k)) =~= pre.free.remove(a));
        }
        let mut i: usize = m;
        while i > 0
            invariant
                self.wf(),
                pre.wf(),
                self@.order == pre.order,
                self@.limit == pre.limit,
                b == (level as int, index as int),
                0 <= b.1,
                level < pre.order,
                k <= level,
                a == ancestor(b, k),
                pre.free.contains(a),
                i <= k,
                self@ == pre.with(
                    pre.free.remove(a).union(path_buddies(b, i as int, k)),
                    pre.live.insert(ancestor(b, i as int)),
                ),
            decreases i,
        {
            let ghost p = ancestor(b, i as int);
            let ghost c = ancestor(b, i - 1);
            let ghost s = self@;
            proof {
                lemma_ancestor_contains(pre.order, b, i - 1, k);
                lemma_ancestor_contains(pre.order, b, i as int, k);
                lemma_parent(pre.order, c);
                assert(p == parent(c));
                lemma_halves(pre.order, p);
                lemma_ancestor_index(b, (i - 1) as int);
                assert(s.live.contains(p));
                s.lemma_split_toward(p, c);
                lemma_pow2_pos((i - 1) as nat);
                assert(pre.occupied(a));
                lemma_extent(pre.order, buddy(c));
                lemma_extent(pre.order, a);
            }
            let ci = index / pow2_usize(i - 1);
            let sib = buddy_index(ci);
            proof {
                assert(buddy(c) == (level - (i - 1), sib as int));
            }
            self.set_flag(level - (i - 1), sib, true);
            self.live = Ghost(self.live@.remove(p).insert(c));
            proof {
                if pre.live.contains(p) {
                    assert(pre.occupied(p));
                    lemma_extent(pre.order, p);
                    assert(false);
                }
                assert(pre.live.insert(p).remove(p).insert(c) =~= pre.live.insert(c));
                assert forall|x: (int, int)| #[trigger] path_buddies(b, i - 1, k).contains(x)
                    <==> path_buddies(b, i as int, k).insert(buddy(c)).contains(x) by {
                    if path_buddies(b, i - 1, k).contains(x) {
                        let j = choose|j: int| i - 1 <= j < k && x == buddy(#[trigger] ancestor(b, j));
                        if j >= i {
                            assert(path_buddies(b, i as int, k).contains(x));
                        }
                    }
                    if path_buddies(b, i as int, k).contains(x) {
                        let j = choose|j: int| i <= j < k && x == buddy(#[trigger] ancestor(b, j));
                        assert(path_buddies(b, i - 1, k).contains(x));
                    }
                    if x == buddy(c) {
                        assert(path_buddies(b, i - 1, k).contains(x));
                    }
                }
                assert(path_buddies(b, i - 1, k) =~= path_buddies(b, i as int, k).insert(buddy(c)));
                assert(self@.free =~= pre.free.remove(a).union(path_buddies(b, i - 1, k)));
            }
            i = i - 1;
        }
        proof {
            lemma_joined_path(b, k);
            assert(ancestor(b, 0) == b);
            lemma_ancestor_contains(pre.order, b, 0, k);
            if pre.live.contains(b) {
                assert(pre.occupied(b));
                assert(pre.occupied(a));
                lemma_extent(pre.order, b);
                assert(false);
            }
        }
        true
    }

    /// A tree of `order` levels over `slots` flags whose free blocks cover
    /// exactly `[0, limit)`.
    pub fn new(order: usize, slots: usize, limit: usize) -> (r: Tree)
        requires
            order_fits(order as nat),
            0 < limit <= pow2((order - 1) as nat),
            slots >= pow2(order as nat) - 1,
        ensures
            r.wf(),
            r@.order == order,
            r@.limit == limit,
            r@.live == Set::<(int, int)>::empty(),
            r@.free == TreeView::seeded(order as nat, limit as nat),
    {
        let mut flags: Vec<bool> = Vec::new();
        let mut k: usize = 0;
        while k < slots
            invariant
                k <= slots,
                flags.len() == k,
                forall|j: int| 0 <= j < k ==> !#[trigger] flags@[j],
            decreases slots - k,
        {
            flags.push(false);
            k += 1;
        }
        let mut tree = Tree { flags, order, limit, live: Ghost(Set::empty()) };
        proof {
            assert forall|b: (int, int)| !#[trigger] tree@.free.contains(b) by {
                if in_range(order as nat, limit as nat, b) {
                    tree.lemma_in_range_node(b);
                }
            }
            assert(tree@.free =~= Set::<(int, int)>::empty());
        }
        let ghost lim = limit as int;
        let ghost ord = order as nat;
        let mut idx: usize = 0;
        let mut level: usize = 0;
        proof {
            lemma_pow2_strictly_increases((order - 1) as nat, order as nat);
            lemma_basic_div(lim, pow2(ord) as int);
            assert(((ord - level) as nat) == ord);
            assert((lim / pow2(ord) as int) * pow2(ord) == 0);
        }
        while level < order
            invariant
                tree.shape(),
                tree.order == order,
                tree.limit == limit,
                tree.live@ == Set::<(int, int)>::empty(),
                tree.flags.len() == slots,
                ord == order,
                lim == limit,
                level <= order,
                idx == (lim / pow2((ord - level) as nat) as int) * pow2((ord - level) as nat),
                idx <= limit,
                tree@.free == TreeView::seeded(ord, limit as nat).filter(
                    |b: (int, int)| b.0 < level,
                ),
                forall|b: (int, int)| #[trigger]
                    tree@.free.contains(b) ==> end(ord, b) <= idx,
                forall|g: int| 0 <= g < idx ==> #[trigger] tree@.covered(g),
                forall|a: (int, int), b: (int, int)|
                    #![trigger tree@.free.contains(a), tree@.free.contains(b)]
                    tree@.free.contains(a) && tree@.free.contains(b) && a != b ==> disjoint(
                        ord,
                        a,
                        b,
                    ),
            decreases order - level,
        {
            let bs = calculate_block_size(order, level);
            let ghost e = (ord - level) as nat;
            let ghost q = lim / (bs as int);
            proof {
                lemma_pow2_unfold(e);
                assert(pow2(e) == bs * 2);
                lemma_div_denominator(lim, bs as int, 2);
                lemma_fundamental_div_mod(lim, bs as int);
                lemma_fundamental_div_mod(q, 2);
                lemma_mod_bound(lim, bs as int);
                assert(idx == (q / 2) * (bs * 2));
                assert(q * bs == (2 * (q / 2) + q % 2) * bs);
                assert((2 * (q / 2) + q % 2) * bs == (q / 2) * (bs * 2) + (q % 2) * bs)
                    by (nonlinear_arith);
                assert(bs * q == q * bs) by (nonlinear_arith);
                assert(lim - idx == (q % 2) * bs + lim % (bs as int));
                lemma_div_pos_is_pos(lim, bs as int);
                if q % 2 == 0 {
                    assert((q % 2) * bs == 0) by (nonlinear_arith)
                        requires
                            q % 2 == 0,
                    ;
                } else {
                    assert(q % 2 == 1);
                    assert((q % 2) * bs == bs) by (nonlinear_arith)
                        requires
                            q % 2 == 1,
                    ;
                }
            }
            let ghost before = tree@.free;
            if limit - idx >= bs {
                let index = idx / bs;
                proof {
                    assert(q % 2 == 1);
                    let h = q / 2;
                    assert((q - 1) * bs == h * (bs * 2)) by (nonlinear_arith)
                        requires
                            q - 1 == 2 * h,
                    ;
                    assert(idx == (q - 1) * bs);
                    assert(index == q - 1) by {
                        assert((q - 1) * bs == bs * (q - 1)) by (nonlinear_arith);
                        lemma_div_multiples_vanish((q - 1) as int, bs as int);
                    }
                    assert((q - 1) * bs + bs == q * bs) by (nonlinear_arith);
                }
                let ghost old_idx = idx;
                let ghost old_view = tree@;
                tree.set_flag(level, index, true);
                idx = idx + bs;
                proof {
                    let nb = (level as int, index as int);
                    lemma_extent(ord, nb);
                    assert forall|g: int| 0 <= g < idx implies #[trigger] tree@.covered(g) by {
                        if g >= old_idx {
                            assert(tree@.holds(nb, g));
                        } else {
                            assert(old_view.covered(g));
                            let w = choose|w: (int, int)| #[trigger] old_view.holds(w, g);
                            assert(tree@.holds(w, g));
                        }
                    }
                    assert(end(ord, nb) == idx);
                    assert(start(ord, nb) == idx - bs);
                    assert(tree@.free =~= TreeView::seeded(ord, limit as nat).filter(
                        |b: (int, int)| b.0 < level + 1,
                    ));
                }
            } else {
                proof {
                    assert(q % 2 == 0);
                    let h = q / 2;
                    assert(q * bs == h * (bs * 2)) by (nonlinear_arith)
                        requires
                            q == 2 * h,
                    ;
                    assert(tree@.free =~= TreeView::seeded(ord, limit as nat).filter(
                        |b: (int, int)| b.0 < level + 1,
                    ));
                }
            }
            proof {
                assert(idx == q * bs);
                assert(((ord - (level + 1)) as nat) == (ord - 1 - level) as nat);
            }
            level = level + 1;
        }
        proof {
            assert(tree@.free =~= TreeView::seeded(ord, limit as nat));
            lemma2_to64();
            assert(((ord - level) as nat) == 0);
            assert(idx == limit);
            let v = tree@;
            assert forall|b: (int, int)| #[trigger]
                v.free.contains(b) && b.0 > 0 && in_range(ord, limit as nat, buddy(b))
                    implies !v.free.contains(buddy(b)) by {
                if v.free.contains(buddy(b)) {
                    assert(buddy(b).1 == b.1);
                }
            }
        }
        tree
    }
}

} // verus!
