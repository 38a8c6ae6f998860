//! What holds of every sequence of operations on a tree.
use crate::block::{
    ancestor, buddy, disjoint, end, in_range, joined, lemma_extent, lemma_span_pos, lemma_halves,
    lemma_index_bound, lemma_multiples, lemma_parent, lemma_same_start, parent, lemma_leftmost, lemma_up_leftmost,
    leftmost, pow2_usize, right, span, start, uppers,
};
use crate::raw::{fits_level, granules, RawView};
use crate::tree::TreeView;
use vstd::arithmetic::mul::*;
use vstd::arithmetic::div_mod::*;
use vstd::arithmetic::power2::*;
use vstd::prelude::*;

verus! {

/// Two distinct handed-out blocks of a well-formed tree share no granule.
pub proof fn lemma_live_disjoint(v: TreeView, a: (int, int), b: (int, int))
    requires
        v.wf(),
        v.live.contains(a),
        v.live.contains(b),
        a != b,
    ensures
        disjoint(v.order, a, b),
{
    assert(v.occupied(a) && v.occupied(b));
}

/// The block handed out for a request of `level` aligned to `pow2(a)`
/// granules starts at a multiple of `pow2(a)` and lies below the limit.
pub proof fn lemma_allocation_fits(v: TreeView, level: int, a: nat, s: int, post: TreeView)
    requires
        v.wf(),
        0 <= level < v.order,
        v.allocates(level, a, Some(s), post),
    ensures
        0 <= s,
        s % (pow2(a) as int) == 0,
        s % (span(v.order, level) as int) == 0,
        s + span(v.order, level) <= v.limit,
{
    let b = choose|b: (int, int)|
        #[trigger] v.first_hit(b, a) && b.0 <= level && (forall|k: int|
            b.0 < k <= level ==> #[trigger] v.no_hit(k, a)) && s == start(v.order, b) && post == v.with(
            v.free.remove(b).union(uppers(b, level)),
            v.live.insert(leftmost(b, level)),
        );
    let st = v.step(b.0, a) as int;
    let sp = span(v.order, level) as int;
    lemma_pow2_pos(a);
    lemma_extent(v.order, b);
    lemma_leftmost(v.order, b, level);
    lemma_extent(v.order, leftmost(b, level));
    // The step is a multiple of `pow2(a)`.
    let e = (v.order - 1 - b.0) as nat;
    if a <= e {
        lemma_pow2_adds(a, (e - a) as nat);
        assert((a + (e - a)) as nat == e);
        assert(st == pow2(a) * pow2((e - a) as nat));
    } else {
        assert(st == pow2(a) * 1);
        lemma_pow2_strictly_increases(e, a);
    }
    let q = if a <= e {
        pow2((e - a) as nat) as int
    } else {
        1int
    };
    assert(st == pow2(a) * q);
    lemma_pow2_pos((e - a) as nat);
    lemma_fundamental_div_mod(s, st);
    let k = s / st;
    assert(s == (pow2(a) as int) * (k * q)) by (nonlinear_arith)
        requires
            s == st * k + s % st,
            s % st == 0,
            st == pow2(a) * q,
    ;
    assert(s >= 0) by (nonlinear_arith)
        requires
            s == b.1 * span(v.order, b.0),
            b.1 >= 0,
    ;
    lemma_mod_multiples_basic(k * q, pow2(a) as int);
    assert((k * q) * pow2(a) == (pow2(a) as int) * (k * q)) by (nonlinear_arith);
    // The request's block is no larger than the step.
    assert(sp <= span(v.order, b.0)) by {
        if b.0 < level {
            lemma_pow2_strictly_increases((v.order - 1 - level) as nat, e);
        }
    }
    assert(span(v.order, b.0) <= st) by {
        if a > e {
            lemma_pow2_strictly_increases(e, a);
        }
    }
    lemma_span_pos(v.order, level);
    assert(s == leftmost(b, level).1 * sp);
    lemma_mod_multiples_basic(leftmost(b, level).1, sp);
}

/// Handing out a block and giving it straight back leaves the tree as it
/// was.
pub proof fn lemma_allocate_release(
    v: TreeView,
    level: int,
    a: nat,
    s: int,
    mid: TreeView,
    post: TreeView,
)
    requires
        v.wf(),
        0 <= level < v.order,
        v.allocates(level, a, Some(s), mid),
        mid.wf(),
        mid.releases((level, s / span(v.order, level) as int), post),
    ensures
        post == v,
{
    let b = choose|b: (int, int)|
        #[trigger] v.first_hit(b, a) && b.0 <= level && (forall|k: int|
            b.0 < k <= level ==> #[trigger] v.no_hit(k, a)) && s == start(v.order, b) && mid == v.with(
            v.free.remove(b).union(uppers(b, level)),
            v.live.insert(leftmost(b, level)),
        );
    let o = v.order;
    let lm = leftmost(b, level);
    let n = level - b.0;
    let u = uppers(b, level);
    assert(v.occupied(b));
    lemma_leftmost(o, b, level);
    lemma_extent(o, b);
    lemma_extent(o, lm);
    // The block given back is the one handed out.
    lemma_span_pos(o, level);
    lemma_div_multiples_vanish(lm.1, span(o, level) as int);
    assert(lm.1 * span(o, level) == span(o, level) * lm.1) by (nonlinear_arith);
    assert((level, s / span(o, level) as int) == lm);
    // Every upper half lies inside `b`, so none was free or handed out.
    assert forall|c: (int, int)| #[trigger] u.contains(c) implies start(o, b) < start(o, c) && end(o, c)
        <= end(o, b) && c.0 > b.0 && !v.occupied(c) by {
        lemma_up_leftmost(o, b, c.0);
        lemma_extent(o, c);
        if v.occupied(c) {
            assert(c != b);
        }
    }
    if level > b.0 && v.live.contains(lm) {
        assert(v.occupied(lm));
        assert(lm != b);
    }
    // Walking up from `lm` meets exactly the upper halves.
    lemma_walk_up(mid, b, level, n);
    assert(ancestor(lm, n) == b);
    assert(joined(lm, n) =~= u);
    // `b` has no free buddy, so the walk stops at `b`.
    if mid.merges(lm, n) {
        assert(!u.contains(buddy(b)));
        assert(v.free.contains(buddy(b)));
        assert(false);
    }
    let k = choose|k: int|
        #![trigger joined(lm, k)]
        0 <= k && (forall|i: int| 0 <= i < k ==> #[trigger] mid.merges(lm, i)) && !mid.merges(lm, k)
            && post == mid.with(
            mid.free.difference(joined(lm, k)).insert(ancestor(lm, k)),
            mid.live.remove(lm),
        );
    if k < n {
        assert(mid.merges(lm, k));
    }
    if k > n {
        assert(mid.merges(lm, n));
    }
    assert(k == n);
    assert(post.free =~= v.free);
    assert(post.live =~= v.live);
}

/// The first `m` steps up from the leftmost block of `level` below `b`
/// join the upper halves below level `level - m`, all free.
proof fn lemma_walk_up(mid: TreeView, b: (int, int), level: int, m: int)
    requires
        0 <= m <= level - b.0,
        0 <= b.0 <= level < mid.order,
        0 <= b.1,
        mid.wf(),
        forall|c: (int, int)| #[trigger] uppers(b, level).contains(c) ==> mid.free.contains(c),
    ensures
        ancestor(leftmost(b, level), m) == leftmost(b, level - m),
        joined(leftmost(b, level), m) == uppers(b, level).filter(|c: (int, int)| c.0 > level - m),
        forall|i: int| 0 <= i < m ==> #[trigger] mid.merges(leftmost(b, level), i),
    decreases m,
{
    let lm = leftmost(b, level);
    let u = uppers(b, level);
    if m == 0 {
        assert(joined(lm, 0) =~= u.filter(|c: (int, int)| c.0 > level));
    } else {
        lemma_walk_up(mid, b, level, m - 1);
        let p = m - 1;
        lemma_up_leftmost(mid.order, b, level - p);
        let up = right(leftmost(b, level - p - 1));
        assert(u.contains(up));
        assert(mid.occupied(up));
        assert(mid.merges(lm, p));
        assert(joined(lm, m) =~= u.filter(|c: (int, int)| c.0 > level - m));
        assert(forall|i: int| 0 <= i < m ==> #[trigger] mid.merges(lm, i));
    }
}


/// A grow that fails leaves the tree as it was.
pub proof fn lemma_failed_grow(v: TreeView, b: (int, int), to: int, in_place: bool, post: TreeView)
    requires
        v.grows(b, to, in_place, None, post),
    ensures
        post == v,
{
}

/// Growing a block to its own level answers where it starts and changes
/// nothing.
pub proof fn lemma_grow_same_level(
    v: TreeView,
    b: (int, int),
    in_place: bool,
    r: Option<int>,
    post: TreeView,
)
    requires
        v.grows(b, b.0, in_place, r, post),
    ensures
        r == Some(start(v.order, b)),
        post == v,
{
}

/// Two distinct live allocations of a well-formed allocator occupy byte
/// ranges that do not meet.
pub proof fn lemma_live_bytes_disjoint(v: RawView, a: (int, int), b: (int, int))
    requires
        v.wf(),
        v.tree.live.contains(a),
        v.tree.live.contains(b),
        a != b,
    ensures
        end(v.tree.order, a) * v.unit() <= start(v.tree.order, b) * v.unit() || end(v.tree.order, b)
            * v.unit() <= start(v.tree.order, a) * v.unit(),
{
    lemma_live_disjoint(v.tree, a, b);
    let u = v.unit() as int;
    if end(v.tree.order, a) <= start(v.tree.order, b) {
        lemma_mul_inequality(end(v.tree.order, a), start(v.tree.order, b), u);
    } else {
        lemma_mul_inequality(end(v.tree.order, b), start(v.tree.order, a), u);
    }
}

/// The block of a live allocation at byte `o` of `size` bytes spans the
/// bytes `[o, o + real_size)`.
proof fn lemma_block_bytes(v: RawView, o: int, size: int)
    requires
        v.wf(),
        0 <= o,
        o % v.real_size(size) == 0,
    ensures
        start(v.tree.order, v.block_of(o, size)) * v.unit() == o,
        end(v.tree.order, v.block_of(o, size)) * v.unit() == o + v.real_size(size),
{
    let l = v.level_for(size);
    let sp = span(v.tree.order, l) as int;
    let u = v.unit() as int;
    lemma_span_pos(v.tree.order, l);
    lemma_pow2_pos(v.base_shift);
    lemma_mul_strictly_positive(sp, u);
    let r = v.real_size(size);
    assert(r == sp * u);
    lemma_fundamental_div_mod(o, r);
    let q = o / r;
    assert(v.block_of(o, size) == (l, q));
    assert((q * sp) * u == o) by (nonlinear_arith)
        requires
            o == r * q + o % r,
            o % r == 0,
            r == sp * u,
    ;
    assert(((q + 1) * sp) * u == o + r) by (nonlinear_arith)
        requires
            o == r * q + o % r,
            o % r == 0,
            r == sp * u,
    ;
}

/// Two live allocations, named by byte offset and size, occupy byte ranges
/// `[o, o + real_size)` that do not meet.
pub proof fn lemma_live_allocations_disjoint(v: RawView, o1: int, s1: int, o2: int, s2: int)
    requires
        v.wf(),
        0 <= o1,
        0 <= o2,
        o1 % v.real_size(s1) == 0,
        o2 % v.real_size(s2) == 0,
        v.tree.live.contains(v.block_of(o1, s1)),
        v.tree.live.contains(v.block_of(o2, s2)),
        v.block_of(o1, s1) != v.block_of(o2, s2),
    ensures
        o1 + v.real_size(s1) <= o2 || o2 + v.real_size(s2) <= o1,
{
    lemma_block_bytes(v, o1, s1);
    lemma_block_bytes(v, o2, s2);
    lemma_live_bytes_disjoint(v, v.block_of(o1, s1), v.block_of(o2, s2));
}

/// Allocating `size` bytes and giving them straight back leaves the
/// allocator as it was.
pub proof fn lemma_round_trip(
    pre: RawView,
    mid: RawView,
    post: RawView,
    size: int,
    align: int,
    o: int,
)
    requires
        pre.wf(),
        0 <= size <= pre.max_size(),
        !(pre.sealed() || pre.allocations == isize::MAX),
        pre.tree.allocates(pre.level_for(size), pre.align_exp(align), Some(o / pre.unit() as int), mid.tree),
        o % pre.unit() as int == 0,
        mid == pre.with(mid.tree, pre.allocations + 1),
        mid.wf(),
        mid.tree.releases(mid.block_of(o, size), post.tree),
        post == mid.with(post.tree, mid.allocations - 1),
    ensures
        post == pre,
{
    let o_ = pre.tree.order;
    let l = pre.level_for(size);
    lemma_level_exists(pre, size);
    let g = o / pre.unit() as int;
    lemma_pow2_pos(pre.base_shift);
    lemma_fundamental_div_mod(o, pre.unit() as int);
    lemma_span_pos(o_, l);
    assert(o == g * pre.unit()) by (nonlinear_arith)
        requires
            o == pre.unit() * g + o % pre.unit() as int,
            o % pre.unit() as int == 0,
    ;
    assert(o >= 0) by {
        lemma_allocation_fits(pre.tree, l, pre.align_exp(align), g, mid.tree);
        assert(g * pre.unit() >= 0) by (nonlinear_arith)
            requires
                g >= 0,
        ;
    }
    lemma_div_denominator(o, pre.unit() as int, span(o_, l) as int);
    assert(pre.unit() * span(o_, l) == span(o_, l) * pre.unit()) by (nonlinear_arith);
    assert(mid.block_of(o, size) == (l, g / span(o_, l) as int));
    lemma_allocate_release(pre.tree, l, pre.align_exp(align), g, mid.tree, post.tree);
}

/// Growing an allocation to a size that needs the same level answers its
/// own offset and leaves the tree as it was.
pub proof fn lemma_grow_same_size(
    pre: RawView,
    post: RawView,
    o: int,
    old_size: int,
    new_size: int,
    in_place: bool,
    r: Option<usize>,
)
    requires
        pre.wf(),
        0 <= o,
        0 <= old_size <= pre.max_size(),
        o % pre.real_size(old_size) == 0,
        pre.level_for(new_size) == pre.level_for(old_size),
        pre.tree.grows(pre.block_of(o, old_size), pre.level_for(new_size), in_place, granules(r, pre.unit()), post.tree),
        r matches Some(x) ==> x as int % pre.unit() as int == 0,
    ensures
        r matches Some(x) && x == o,
        post.tree == pre.tree,
{
    let o_ = pre.tree.order;
    let l = pre.level_for(old_size);
    let b = pre.block_of(o, old_size);
    let x = r->Some_0 as int;
    let u = pre.unit() as int;
    let sp = span(o_, l) as int;
    lemma_pow2_pos(pre.base_shift);
    lemma_span_pos(o_, l);
    lemma_mul_strictly_positive(sp, u);
    lemma_fundamental_div_mod(o, sp * u);
    lemma_fundamental_div_mod(x, u);
    assert(x / u == b.1 * sp);
    assert(x == u * (b.1 * sp)) by (nonlinear_arith)
        requires
            x == u * (x / u) + x % u,
            x % u == 0,
            x / u == b.1 * sp,
    ;
    assert(o == (sp * u) * b.1) by (nonlinear_arith)
        requires
            o == (sp * u) * (o / (sp * u)) + o % (sp * u),
            o % (sp * u) == 0,
            b.1 == o / (sp * u),
    ;
    assert(u * (b.1 * sp) == (sp * u) * b.1) by (nonlinear_arith);
}

/// A grow that fails leaves the allocator as it was.
pub proof fn lemma_failed_grow_raw(pre: RawView, post: RawView, b: (int, int), to: int, in_place: bool)
    requires
        post == pre.with(post.tree, pre.allocations),
        pre.tree.grows(b, to, in_place, None, post.tree),
    ensures
        post == pre,
{
}

/// A sealed allocator has no live allocation and stays sealed: giving
/// back, shrinking and growing all need a live allocation, and every
/// allocation fails.
pub proof fn lemma_sealed(v: RawView)
    requires
        v.wf(),
        v.sealed(),
    ensures
        v.tree.live.len() == 0,
        v.allocations == isize::MIN,
        forall|b: (int, int)| !v.tree.live.contains(b),
{
    assert forall|b: (int, int)| !v.tree.live.contains(b) by {
        if v.tree.live.contains(b) {
            vstd::set_lib::lemma_set_empty_equivalency_len(v.tree.live);
        }
    }
}

/// Some level serves any size up to the whole tree.
proof fn lemma_level_exists(v: RawView, size: int)
    requires
        v.wf(),
        0 <= size <= v.max_size(),
    ensures
        fits_level(v.tree.order, v.base_shift, size, v.level_for(size)),
{
    let o = v.tree.order;
    let u = v.unit() as int;
    // The deepest level whose blocks hold `size` bytes.
    let l = deepest_holding(o, v.base_shift, size, (o - 1) as int);
    assert(fits_level(o, v.base_shift, size, l));
}

/// The deepest level at or above `level` whose blocks hold `size` bytes.
proof fn deepest_holding(order: nat, shift: nat, size: int, level: int) -> (l: int)
    requires
        order >= 1,
        0 <= level < order,
        size <= span(order, 0) * pow2(shift),
        level == order - 1 || span(order, level + 1) * pow2(shift) < size,
    ensures
        fits_level(order, shift, size, l),
    decreases level,
{
    if size <= span(order, level) * pow2(shift) {
        level
    } else {
        deepest_holding(order, shift, size, level - 1)
    }
}

/// A free block that no free block of a level between it and `l` is
/// deeper than.
proof fn lemma_deepest_free(v: TreeView, l: int) -> (f: (int, int))
    requires
        v.wf(),
        0 <= l,
        exists|b: (int, int)| #[trigger] v.free.contains(b) && b.0 <= l,
    ensures
        v.free.contains(f),
        f.0 <= l,
        forall|c: (int, int)| #[trigger] v.free.contains(c) && c.0 <= l ==> c.0 <= f.0,
    decreases l,
{
    if exists|b: (int, int)| #[trigger] v.free.contains(b) && b.0 == l {
        choose|b: (int, int)| #[trigger] v.free.contains(b) && b.0 == l
    } else {
        let b = choose|b: (int, int)| #[trigger] v.free.contains(b) && b.0 <= l;
        assert(v.occupied(b));
        lemma_deepest_free(v, l - 1)
    }
}

/// Multiples of `pp` around a granule `t`: an interval of whole multiples
/// that holds `t` holds the whole stretch `[q * pp, (q + 1) * pp)` that
/// holds `t`.
proof fn lemma_aligned_cover(a: int, e: int, q: int, pp: int, t: int)
    requires
        pp > 0,
        a * pp <= t < e * pp,
        q * pp <= t < (q + 1) * pp,
    ensures
        a * pp <= q * pp,
        (q + 1) * pp <= e * pp,
{
    if a > q {
        lemma_mul_inequality(q + 1, a, pp);
    }
    lemma_mul_inequality(a, q, pp);
    if e < q + 1 {
        lemma_mul_inequality(e, q, pp);
    }
    lemma_mul_inequality(q + 1, e, pp);
}

/// In a well-formed tree over the whole range, the root is free exactly
/// when no block is handed out.
pub proof fn lemma_root_free_iff_unused(v: TreeView)
    requires
        v.wf(),
        v.limit == pow2((v.order - 1) as nat),
    ensures
        v.free.contains((0int, 0int)) <==> v.live.len() == 0,
{
    let o = v.order;
    let root = (0int, 0int);
    lemma_span_pos(o, 0);
    assert(0 * span(o, 0) == 0) by (nonlinear_arith);
    lemma_extent(o, root);
    assert(start(o, root) == 0);
    assert(end(o, root) == span(o, 0));
    if v.free.contains(root) {
        assert forall|b: (int, int)| !v.live.contains(b) by {
            if v.live.contains(b) {
                assert(v.occupied(b) && v.occupied(root));
                lemma_extent(o, b);
            }
        }
        assert(v.live =~= Set::<(int, int)>::empty());
    }
    if v.live.len() == 0 && !v.free.contains(root) {
        assert forall|b: (int, int)| !v.live.contains(b) by {
            if v.live.contains(b) {
                vstd::set_lib::lemma_set_empty_equivalency_len(v.live);
            }
        }
        // Some block is free: the one that holds granule 0.
        assert(v.covered(0));
        let w = choose|w: (int, int)| #[trigger] v.holds(w, 0);
        assert(v.free.contains(w) && w.0 <= o - 1);
        let f = lemma_deepest_free(v, o - 1);
        assert(v.occupied(f));
        lemma_extent(o, f);
        if f.0 == 0 {
            assert(f.1 == 0) by (nonlinear_arith)
                requires
                    f.1 >= 0,
                    (f.1 + 1) * span(o, 0) <= span(o, 0),
                    span(o, 0) > 0,
            ;
        } else {
            let p = parent(f);
            let g = buddy(f);
            lemma_parent(o, f);
            lemma_halves(o, p);
            lemma_extent(o, p);
            lemma_extent(o, g);
            lemma_index_bound(o, f);
            // The parent lies in the range, and so does the buddy.
            lemma_pow2_adds(p.0 as nat, (o - 1 - p.0) as nat);
            assert(((p.0 + (o - 1 - p.0)) as nat) == (o - 1) as nat);
            lemma_pow2_unfold(f.0 as nat);
            assert(p.1 < pow2(p.0 as nat));
            lemma_mul_inequality(p.1 + 1, pow2(p.0 as nat) as int, span(o, p.0) as int);
            assert(in_range(o, v.limit, g));
            assert(!v.free.contains(g));
            // The block that holds the first granule of the buddy.
            let t = start(o, g);
            assert(v.covered(t));
            let c = choose|c: (int, int)| #[trigger] v.holds(c, t);
            assert(v.free.contains(c));
            assert(v.occupied(c));
            lemma_extent(o, c);
            assert(c != f);
            assert(c.0 <= f.0);
            if c.0 == f.0 {
                let sp = span(o, f.0) as int;
                lemma_mod_multiples_basic(c.1, sp);
                lemma_mod_multiples_basic(g.1, sp);
                assert(start(o, c) == c.1 * sp);
                assert(start(o, g) == g.1 * sp);
                lemma_multiples(t, start(o, c), sp);
                lemma_same_start(o, c, g);
            } else {
                let pp = span(o, p.0) as int;
                let kk = pow2((p.0 - c.0) as nat) as int;
                lemma_pow2_adds((p.0 - c.0) as nat, (o - 1 - p.0) as nat);
                assert((((p.0 - c.0) + (o - 1 - p.0)) as nat) == (o - 1 - c.0) as nat);
                assert(span(o, c.0) == kk * pp);
                assert(start(o, c) == (c.1 * kk) * pp) by (nonlinear_arith)
                    requires
                        start(o, c) == c.1 * span(o, c.0),
                        span(o, c.0) == kk * pp,
                ;
                assert(end(o, c) == ((c.1 + 1) * kk) * pp) by (nonlinear_arith)
                    requires
                        end(o, c) == (c.1 + 1) * span(o, c.0),
                        span(o, c.0) == kk * pp,
                ;
                assert((c.1 + 1) * kk == c.1 * kk + kk) by (nonlinear_arith);
                assert(end(o, p) == (p.1 + 1) * pp);
                lemma_aligned_cover(c.1 * kk, (c.1 + 1) * kk, p.1, pp, t);
                assert(!disjoint(o, c, f));
            }
        }
    }
}

/// Granules spanned, all together, by the blocks of `s`.
pub open spec fn total_span(order: nat, s: Set<(int, int)>) -> int
    decreases s.len(),
    when s.finite()
{
    if s.len() > 0 {
        let b = s.choose();
        span(order, b.0) + total_span(order, s.remove(b))
    } else {
        0
    }
}

/// The granules held by some block of `s`.
pub open spec fn granules_of(order: nat, s: Set<(int, int)>) -> Set<int> {
    Set::new(|g: int| exists|b: (int, int)| #[trigger] s.contains(b) && start(order, b) <= g < end(order, b))
}

/// Blocks that share no granule hold as many granules as they span.
proof fn lemma_granule_count(order: nat, s: Set<(int, int)>)
    requires
        s.finite(),
        forall|b: (int, int)| #[trigger] s.contains(b) ==> 0 <= b.1,
        forall|a: (int, int), b: (int, int)|
            #![trigger s.contains(a), s.contains(b)]
            s.contains(a) && s.contains(b) && a != b ==> disjoint(order, a, b),
    ensures
        granules_of(order, s).finite(),
        granules_of(order, s).len() == total_span(order, s),
    decreases s.len(),
{
    if s.len() == 0 {
        assert(s =~= Set::<(int, int)>::empty()) by {
            vstd::set_lib::lemma_set_empty_equivalency_len(s);
        }
        assert(granules_of(order, s) =~= Set::<int>::empty());
    } else {
        let b = s.choose();
        let rest = s.remove(b);
        lemma_granule_count(order, rest);
        lemma_extent(order, b);
        vstd::set_lib::lemma_int_range(start(order, b), end(order, b));
        let rb = vstd::set_lib::set_int_range(start(order, b), end(order, b));
        assert(granules_of(order, s) =~= granules_of(order, rest) + rb) by {
            assert forall|g: int| granules_of(order, s).contains(g) implies (granules_of(order, rest)
                + rb).contains(g) by {
                let c = choose|c: (int, int)| #[trigger] s.contains(c) && start(order, c) <= g < end(order, c);
                if c != b {
                    assert(rest.contains(c));
                }
            }
            assert forall|g: int| (granules_of(order, rest) + rb).contains(g) implies granules_of(
                order,
                s,
            ).contains(g) by {
                if granules_of(order, rest).contains(g) {
                    let c = choose|c: (int, int)|
                        #[trigger] rest.contains(c) && start(order, c) <= g < end(order, c);
                    assert(s.contains(c));
                } else {
                    assert(s.contains(b));
                }
            }
        }
        assert(granules_of(order, rest).disjoint(rb)) by {
            assert forall|g: int| granules_of(order, rest).contains(g) implies !rb.contains(g) by {
                let c = choose|c: (int, int)|
                    #[trigger] rest.contains(c) && start(order, c) <= g < end(order, c);
                assert(s.contains(c) && s.contains(b));
            }
        }
        vstd::set_lib::lemma_set_disjoint_lens(granules_of(order, rest), rb);
    }
}

/// The handed-out blocks of a well-formed tree span no more granules, all
/// together, than the limit.
pub proof fn lemma_live_total(v: TreeView)
    requires
        v.wf(),
    ensures
        total_span(v.order, v.live) <= v.limit,
{
    assert forall|b: (int, int)| #[trigger] v.live.contains(b) implies 0 <= b.1 by {
        assert(v.occupied(b));
    }
    assert forall|a: (int, int), b: (int, int)|
        #![trigger v.live.contains(a), v.live.contains(b)]
        v.live.contains(a) && v.live.contains(b) && a != b implies disjoint(v.order, a, b) by {
        assert(v.occupied(a) && v.occupied(b));
    }
    lemma_granule_count(v.order, v.live);
    vstd::set_lib::lemma_int_range(0, v.limit as int);
    assert(granules_of(v.order, v.live).subset_of(vstd::set_lib::set_int_range(0, v.limit as int))) by {
        assert forall|g: int| granules_of(v.order, v.live).contains(g) implies 0 <= g < v.limit by {
            let c = choose|c: (int, int)|
                #[trigger] v.live.contains(c) && start(v.order, c) <= g < end(v.order, c);
            assert(v.occupied(c));
            assert(start(v.order, c) >= 0) by (nonlinear_arith)
                requires
                    c.1 >= 0,
                    start(v.order, c) == c.1 * span(v.order, c.0),
            ;
        }
    }
    vstd::set_lib::lemma_len_subset(
        granules_of(v.order, v.live),
        vstd::set_lib::set_int_range(0, v.limit as int),
    );
}

/// The real sizes of all live allocations add up to no more than the
/// capacity.
pub proof fn lemma_live_bytes_total(v: RawView)
    requires
        v.wf(),
    ensures
        total_span(v.tree.order, v.live_blocks()) * v.unit() <= v.capacity,
{
    lemma_live_total(v.tree);
    lemma_pow2_pos(v.base_shift);
    lemma_mul_inequality(total_span(v.tree.order, v.tree.live), v.tree.limit as int, v.unit() as int);
}

} // verus!
