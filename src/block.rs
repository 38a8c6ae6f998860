//! Arithmetic of blocks in a complete binary tree of size classes.
//!
//! A block is a pair `(level, index)`. In a tree of `order` levels, a block
//! at `level` covers `span(order, level)` granules, and the block with local
//! `index` covers the granules `[start, end)`.
use vstd::arithmetic::power2::*;
use vstd::bits::*;
use vstd::prelude::*;

verus! {

/// A tree of `order` levels can be laid out in one `usize` array, with room
/// for one level more.
pub open spec fn order_fits(order: nat) -> bool {
    1 <= order && order + 1 < usize::BITS
}

/// Granules covered by one block at `level` in a tree of `order` levels.
pub open spec fn span(order: nat, level: int) -> nat {
    pow2((order - 1 - level) as nat)
}

/// First granule of block `b`.
pub open spec fn start(order: nat, b: (int, int)) -> int {
    b.1 * span(order, b.0)
}

/// One past the last granule of block `b`.
pub open spec fn end(order: nat, b: (int, int)) -> int {
    (b.1 + 1) * span(order, b.0)
}

/// `b` is a block of the tree that lies below `limit` granules.
pub open spec fn in_range(order: nat, limit: nat, b: (int, int)) -> bool {
    &&& 0 <= b.0 < order
    &&& 0 <= b.1
    &&& end(order, b) <= limit
}

/// The granules of `a` and of `b` do not meet.
pub open spec fn disjoint(order: nat, a: (int, int), b: (int, int)) -> bool {
    end(order, a) <= start(order, b) || end(order, b) <= start(order, a)
}

/// Position of block `b` in the flat array of flags.
pub open spec fn node(b: (int, int)) -> int {
    pow2(b.0 as nat) - 1 + b.1
}

/// The other half of the parent of `b`.
pub open spec fn buddy(b: (int, int)) -> (int, int) {
    (b.0, if b.1 % 2 == 0 { b.1 + 1 } else { b.1 - 1 })
}

/// The block one level up that contains `b`.
pub open spec fn parent(b: (int, int)) -> (int, int) {
    (b.0 - 1, b.1 / 2)
}

/// The lower half of `b`.
pub open spec fn left(b: (int, int)) -> (int, int) {
    (b.0 + 1, 2 * b.1)
}

/// The upper half of `b`.
pub open spec fn right(b: (int, int)) -> (int, int) {
    (b.0 + 1, 2 * b.1 + 1)
}

/// The block at level `m` that starts where `b` starts.
pub open spec fn leftmost(b: (int, int), m: int) -> (int, int) {
    (m, b.1 * pow2((m - b.0) as nat))
}

/// The upper halves met on the way from `b` down its lower edge to level `m`.
pub open spec fn uppers(b: (int, int), m: int) -> Set<(int, int)> {
    Set::new(|c: (int, int)| b.0 < c.0 <= m && c == right(leftmost(b, c.0 - 1)))
}

/// Every block covers at least one granule.
pub proof fn lemma_span_pos(order: nat, level: int)
    ensures
        span(order, level) > 0,
{
    lemma_pow2_pos((order - 1 - level) as nat);
}

/// A block is `span` granules long.
pub proof fn lemma_extent(order: nat, b: (int, int))
    ensures
        end(order, b) == start(order, b) + span(order, b.0),
        start(order, b) < end(order, b),
{
    lemma_span_pos(order, b.0);
    let s = span(order, b.0);
    assert((b.1 + 1) * s == b.1 * s + s) by (nonlinear_arith);
}

/// A block is twice as large as a block one level below it.
pub proof fn lemma_span_halves(order: nat, level: int)
    requires
        0 <= level,
        level + 1 < order,
    ensures
        span(order, level) == 2 * span(order, level + 1),
{
    lemma_pow2_unfold((order - 1 - level) as nat);
}

/// The two halves of `b` are adjacent and together cover `b`.
pub proof fn lemma_halves(order: nat, b: (int, int))
    requires
        0 <= b.0,
        b.0 + 1 < order,
        0 <= b.1,
    ensures
        start(order, left(b)) == start(order, b),
        end(order, left(b)) == start(order, right(b)),
        end(order, right(b)) == end(order, b),
        start(order, b) < end(order, left(b)) < end(order, b),
{
    lemma_span_halves(order, b.0);
    lemma_span_pos(order, b.0 + 1);
    let s = span(order, b.0 + 1);
    let i = b.1;
    assert(2 * i * s == i * (2 * s)) by (nonlinear_arith);
    assert((2 * i + 1) * s == 2 * i * s + s) by (nonlinear_arith);
    assert((2 * i + 2) * s == (i + 1) * (2 * s)) by (nonlinear_arith);
    assert((2 * i + 2) * s == 2 * i * s + 2 * s) by (nonlinear_arith);
    assert(start(order, b) == 2 * i * s);
    assert(end(order, left(b)) == 2 * i * s + s);
    assert(end(order, b) == 2 * i * s + 2 * s);
}

/// Every block of a level lies in `[0, pow2(order - 1))` exactly when its
/// index is below `pow2(level)`.
pub proof fn lemma_index_bound(order: nat, b: (int, int))
    requires
        0 <= b.0 < order,
        0 <= b.1,
        end(order, b) <= pow2((order - 1) as nat),
    ensures
        b.1 < pow2(b.0 as nat),
{
    let s = span(order, b.0);
    lemma_span_pos(order, b.0);
    lemma_pow2_adds(b.0 as nat, (order - 1 - b.0) as nat);
    let p = pow2(b.0 as nat) as int;
    assert((b.1 + 1) * s <= p * s);
    if b.1 >= p {
        assert((b.1 + 1) * s > p * s) by (nonlinear_arith)
            requires
                b.1 >= p,
                s > 0,
        ;
    }
}

/// Flags of distinct blocks of a tree sit at distinct places, all below
/// `pow2(order) - 1`.
pub proof fn lemma_node(order: nat, a: (int, int), b: (int, int))
    requires
        0 <= a.0 < order,
        0 <= a.1 < pow2(a.0 as nat),
        0 <= b.0 < order,
        0 <= b.1 < pow2(b.0 as nat),
    ensures
        0 <= node(a) < pow2(order) - 1,
        node(a) == node(b) ==> a == b,
{
    lemma_pow2_unfold((a.0 + 1) as nat);
    lemma_pow2_unfold((b.0 + 1) as nat);
    if a.0 + 1 < order {
        lemma_pow2_strictly_increases((a.0 + 1) as nat, order);
    }
    if a.0 < b.0 {
        if a.0 + 1 < b.0 {
            lemma_pow2_strictly_increases((a.0 + 1) as nat, b.0 as nat);
        }
    } else if b.0 < a.0 {
        if b.0 + 1 < a.0 {
            lemma_pow2_strictly_increases((b.0 + 1) as nat, a.0 as nat);
        }
    }
}

/// The leftmost block below `b` at level `m` lies inside `b` and starts
/// with it.
pub proof fn lemma_leftmost(order: nat, b: (int, int), m: int)
    requires
        0 <= b.0 <= m < order,
        0 <= b.1,
    ensures
        start(order, leftmost(b, m)) == start(order, b),
        end(order, leftmost(b, m)) <= end(order, b),
        leftmost(b, m).1 >= 0,
        leftmost(b, b.0) == b,
        m + 1 < order ==> left(leftmost(b, m)) == leftmost(b, m + 1),
{
    let d = (m - b.0) as nat;
    let pp = pow2(d) as int;
    let ss = span(order, m) as int;
    lemma_pow2_adds(d, (order - 1 - m) as nat);
    assert(span(order, b.0) == pp * ss);
    lemma_pow2_pos(d);
    lemma_span_pos(order, m);
    let i = b.1;
    assert((i * pp) * ss == i * (pp * ss)) by (nonlinear_arith);
    assert((i * pp + 1) * ss == i * (pp * ss) + ss) by (nonlinear_arith);
    assert((i + 1) * (pp * ss) == i * (pp * ss) + pp * ss) by (nonlinear_arith);
    assert(ss <= pp * ss) by (nonlinear_arith)
        requires
            pp >= 1,
            ss >= 0,
    ;
    assert(i * pp >= 0) by (nonlinear_arith)
        requires
            i >= 0,
            pp >= 0,
    ;
    assert(pow2(0) == 1) by {
        lemma2_to64();
    }
    assert(i * 1 == i);
    if m + 1 < order {
        lemma_pow2_unfold(d + 1);
        assert(((m + 1 - b.0) as nat) == d + 1);
        assert(2 * (i * pp) == i * (2 * pp)) by (nonlinear_arith);
    }
}

/// Going up from the leftmost block below `b` leads to the next leftmost
/// block, and the buddy met on the way is an upper half inside `b`.
pub proof fn lemma_up_leftmost(order: nat, b: (int, int), l: int)
    requires
        0 <= b.0 < l < order,
        0 <= b.1,
    ensures
        parent(leftmost(b, l)) == leftmost(b, l - 1),
        buddy(leftmost(b, l)) == right(leftmost(b, l - 1)),
        leftmost(b, l).0 > 0,
        start(order, b) < start(order, right(leftmost(b, l - 1))),
        end(order, right(leftmost(b, l - 1))) <= end(order, b),
{
    lemma_leftmost(order, b, l - 1);
    lemma_leftmost(order, b, l);
    lemma_halves(order, leftmost(b, l - 1));
}

/// Two multiples of `m` less than `m` apart are equal.
pub proof fn lemma_multiples(x: int, g: int, m: int)
    requires
        m > 0,
        x % m == 0,
        g % m == 0,
        g <= x < g + m,
    ensures
        x == g,
{
    vstd::arithmetic::div_mod::lemma_fundamental_div_mod(x, m);
    vstd::arithmetic::div_mod::lemma_fundamental_div_mod(g, m);
    let qx = x / m;
    let qg = g / m;
    assert(qx == qg) by (nonlinear_arith)
        requires
            m > 0,
            x == m * qx,
            g == m * qg,
            g <= x < g + m,
    ;
}

/// The index of a block is fixed by its level and its start.
pub proof fn lemma_same_start(order: nat, a: (int, int), b: (int, int))
    requires
        a.0 == b.0,
        start(order, a) == start(order, b),
    ensures
        a == b,
{
    lemma_span_pos(order, a.0);
    let s = span(order, a.0) as int;
    assert(a.1 == b.1) by (nonlinear_arith)
        requires
            s > 0,
            a.1 * s == b.1 * s,
    ;
}

/// The ancestor of `b` `m` levels up.
pub open spec fn ancestor(b: (int, int), m: int) -> (int, int)
    decreases m,
{
    if m <= 0 {
        b
    } else {
        parent(ancestor(b, m - 1))
    }
}

/// The buddies of `b` and of its first `m - 1` ancestors.
pub open spec fn joined(b: (int, int), m: int) -> Set<(int, int)>
    decreases m,
{
    if m <= 0 {
        Set::empty()
    } else {
        joined(b, m - 1).insert(buddy(ancestor(b, m - 1)))
    }
}

/// The buddies of the ancestors of `b` from `lo` levels up to below `hi`
/// levels up.
pub open spec fn path_buddies(b: (int, int), lo: int, hi: int) -> Set<(int, int)> {
    Set::new(|c: (int, int)| exists|i: int| lo <= i < hi && c == buddy(#[trigger] ancestor(b, i)))
}

/// The buddies joined on the way up are the buddies of the path.
pub proof fn lemma_joined_path(b: (int, int), k: int)
    requires
        0 <= k,
    ensures
        joined(b, k) == path_buddies(b, 0, k),
    decreases k,
{
    if k == 0 {
        assert(joined(b, 0) =~= path_buddies(b, 0, 0));
    } else {
        lemma_joined_path(b, k - 1);
        assert forall|c: (int, int)| #[trigger] joined(b, k).contains(c) <==> path_buddies(b, 0, k).contains(c) by {
            if c == buddy(ancestor(b, k - 1)) {
                assert(path_buddies(b, 0, k).contains(c));
            }
            if path_buddies(b, 0, k).contains(c) {
                let i = choose|i: int| 0 <= i < k && c == buddy(#[trigger] ancestor(b, i));
                if i < k - 1 {
                    assert(path_buddies(b, 0, k - 1).contains(c));
                }
            }
            if joined(b, k - 1).contains(c) {
                let i = choose|i: int| 0 <= i < k - 1 && c == buddy(#[trigger] ancestor(b, i));
                assert(path_buddies(b, 0, k).contains(c));
            }
        }
        assert(joined(b, k) =~= path_buddies(b, 0, k));
    }
}

/// The ancestor `m` levels up has index `b.1 / pow2(m)`.
pub proof fn lemma_ancestor_index(b: (int, int), m: int)
    requires
        0 <= m,
        0 <= b.1,
    ensures
        ancestor(b, m) == (b.0 - m, b.1 / pow2(m as nat) as int),
    decreases m,
{
    if m == 0 {
        lemma2_to64();
        assert(pow2(0) == 1);
        assert(b.1 / 1 == b.1);
        assert(ancestor(b, 0) == b);
    } else {
        lemma_ancestor_index(b, m - 1);
        lemma_pow2_unfold(m as nat);
        lemma_pow2_pos((m - 1) as nat);
        let c = pow2((m - 1) as nat) as int;
        vstd::arithmetic::div_mod::lemma_div_denominator(b.1, c, 2);
        assert(c * 2 == pow2(m as nat));
        assert(ancestor(b, m) == parent(ancestor(b, m - 1)));
        assert((b.1 / c) / 2 == b.1 / pow2(m as nat) as int);
    }
}

/// An ancestor contains every block on the way down to `b`.
pub proof fn lemma_ancestor_contains(order: nat, b: (int, int), j: int, k: int)
    requires
        0 <= j <= k <= b.0 < order,
        0 <= b.1,
    ensures
        start(order, ancestor(b, k)) <= start(order, ancestor(b, j)),
        end(order, ancestor(b, j)) <= end(order, ancestor(b, k)),
        ancestor(b, j).0 == b.0 - j,
        ancestor(b, j).1 >= 0,
    decreases k - j,
{
    lemma_ancestor_index(b, j);
    lemma_pow2_pos(j as nat);
    if j < k {
        lemma_ancestor_contains(order, b, j + 1, k);
        lemma_parent(order, ancestor(b, j));
    }
}

/// A parent contains each of its halves.
pub proof fn lemma_parent(order: nat, b: (int, int))
    requires
        0 < b.0 < order,
        0 <= b.1,
    ensures
        start(order, parent(b)) <= start(order, b),
        end(order, b) <= end(order, parent(b)),
        b == left(parent(b)) || b == right(parent(b)),
        buddy(b) == left(parent(b)) || buddy(b) == right(parent(b)),
        buddy(b) != b,
        parent(b).1 >= 0,
{
    lemma_halves(order, parent(b));
}

/// Index of the buddy of a block with index `i`.
pub fn buddy_index(i: usize) -> (r: usize)
    ensures
        r == buddy((0, i as int)).1,
{
    proof {
        if i % 2 == 0 {
            assert(i ^ 1 == i + 1) by (bit_vector)
                requires
                    i % 2 == 0,
            ;
        } else {
            assert(i ^ 1 == i - 1) by (bit_vector)
                requires
                    i % 2 == 1,
            ;
        }
    }
    i ^ 1
}

/// An `Option<usize>` read as an `Option<int>`.
pub open spec fn opt_int(r: Option<usize>) -> Option<int> {
    match r {
        Some(i) => Some(i as int),
        None => None,
    }
}

/// The first granule of the block of `level` with index `r`, if any.
pub open spec fn opt_start(order: nat, level: int, r: Option<usize>) -> Option<int> {
    match r {
        Some(i) => Some(start(order, (level, i as int))),
        None => None,
    }
}

/// Granules in a block at level `order` of a tree of `max_order` levels.
pub fn calculate_block_size(max_order: usize, order: usize) -> (r: usize)
    requires
        order_fits(max_order as nat),
        order < max_order,
    ensures
        r == span(max_order as nat, order as int),
        r > 0,
{
    proof {
        lemma_pow2_pos((max_order - 1 - order) as nat);
    }
    pow2_usize(max_order - 1 - order)
}

/// `pow2(e)`, computed.
pub fn pow2_usize(e: usize) -> (r: usize)
    requires
        e < usize::BITS,
    ensures
        r == pow2(e as nat),
        r <= usize::MAX,
{
    proof {
        lemma_usize_pow2_no_overflow(e as nat);
        lemma_usize_shl_is_mul(1, e);
    }
    1usize << e
}

} // verus!
