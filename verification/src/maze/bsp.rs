//! Binary space partition of an island into rooms and corridor strips.

use vstd::prelude::*;
use crate::grid::{cell_index, lemma_index_in_bounds};
use crate::map::TileMap;
use crate::maze::{Room, room_inside, in_room, interior};
use crate::maze::mask::is_node;
use crate::nobiscuit_map::NobiscuitMap;
use crate::rng::{gen_range_inclusive, gen_ratio};
use crate::tiles::TILE_EMPTY;
use rand::rngs::StdRng;

verus! {

/// Smallest wall-inclusive leaf side (interior 3).
pub const MIN_LEAF: usize = 5;
/// Largest wall-inclusive leaf side that is not split further (interior 9).
pub const MAX_LEAF: usize = 11;

/// A corridor strip carved through the gap of a BSP split.
///
/// `horizontal`: the corridor runs horizontally (a horizontal split line).
/// `pos`: the split line coordinate. The corridor occupies the three cells
/// `pos+1..=pos+3` (walls stay at `pos` and `pos+4`, so flanking rooms never
/// merge into the corridor). `from..=to` is the span along the corridor's
/// running axis.
pub struct CorridorStrip {
    pub horizontal: bool,
    pub pos: usize,
    pub from: usize,
    pub to: usize,
}

/// Pick a random even offset from `lo` in `[lo, hi]` (`lo` itself when `hi <= lo`).
pub fn pick_even(lo: usize, hi: usize, rng: &mut StdRng) -> (r: usize)
    ensures
        hi <= lo ==> r == lo,
        hi > lo ==> lo <= r <= hi && (r - lo) % 2 == 0,
{
    if hi <= lo {
        return lo;
    }
    let steps = (hi - lo) / 2;
    let k = gen_range_inclusive(rng, 0, steps);
    lo + 2 * k
}

/// The rectangle `(rx, ry, rw, rh)` lies inside `(x, y, w, h)`.
pub open spec fn rect_within(r: (usize, usize, usize, usize), x: int, y: int, w: int, h: int) -> bool {
    &&& x <= r.0
    &&& y <= r.1
    &&& r.0 + r.2 <= x + w
    &&& r.1 + r.3 <= y + h
}

/// Corridor strip `c` was cut from the rectangle `(x, y, w, h)`.
pub open spec fn strip_within(c: CorridorStrip, x: int, y: int, w: int, h: int) -> bool {
    if c.horizontal {
        &&& y <= c.pos
        &&& c.pos + 5 <= y + h
        &&& x + 1 <= c.from
        &&& c.to <= x + w - 2
    } else {
        &&& x <= c.pos
        &&& c.pos + 5 <= x + w
        &&& y + 1 <= c.from
        &&& c.to <= y + h - 2
    }
}

/// Two wall-inclusive rectangles share at most a wall: their interiors are
/// disjoint.
pub open spec fn rooms_apart(r1: (usize, usize, usize, usize), r2: (usize, usize, usize, usize)) -> bool {
    ||| r1.0 + r1.2 <= r2.0 + 1
    ||| r2.0 + r2.2 <= r1.0 + 1
    ||| r1.1 + r1.3 <= r2.1 + 1
    ||| r2.1 + r2.3 <= r1.1 + 1
}

/// No cell of the three-wide strip `c` lies in the rectangle `r`, walls
/// included.
pub open spec fn clear_of(c: CorridorStrip, r: (usize, usize, usize, usize)) -> bool {
    if c.horizontal {
        ||| r.1 + r.3 <= c.pos + 1
        ||| r.1 >= c.pos + 4
        ||| r.0 + r.2 <= c.from
        ||| r.0 > c.to
    } else {
        ||| r.0 + r.2 <= c.pos + 1
        ||| r.0 >= c.pos + 4
        ||| r.1 + r.3 <= c.from
        ||| r.1 > c.to
    }
}

/// Walls on even coordinates: an even corner and odd (wall-inclusive) sides.
pub open spec fn on_even_grid(r: (usize, usize, usize, usize)) -> bool {
    r.0 % 2 == 0 && r.1 % 2 == 0 && r.2 % 2 == 1 && r.3 % 2 == 1
}

/// Rectangle `a` lies before `b` along some axis, sharing at most a wall.
pub open spec fn before_on_axis(a: (int, int, int, int), b: (int, int, int, int)) -> bool {
    a.0 + a.2 <= b.0 + 1 || a.1 + a.3 <= b.1 + 1
}

/// What `bsp_split` adds from index `r0` of `regions` and `c0` of
/// `corridors`: leaves that share at most walls, and strips that cross no
/// leaf.
pub open spec fn split_apart(
    regions: Seq<(usize, usize, usize, usize)>,
    r0: int,
    corridors: Seq<CorridorStrip>,
    c0: int,
) -> bool {
    &&& forall|i: int, j: int|
        r0 <= i < j < regions.len() ==> rooms_apart(#[trigger] regions[i], #[trigger] regions[j])
    &&& forall|i: int, k: int|
        r0 <= i < regions.len() && c0 <= k < corridors.len() ==> clear_of(
            #[trigger] corridors[k],
            #[trigger] regions[i],
        )
}

/// Leaves of two rectangles that share at most a wall share at most walls.
proof fn lemma_leaves_apart(
    r: (usize, usize, usize, usize),
    q: (usize, usize, usize, usize),
    a: (int, int, int, int),
    b: (int, int, int, int),
)
    requires
        rect_within(r, a.0, a.1, a.2, a.3),
        rect_within(q, b.0, b.1, b.2, b.3),
        before_on_axis(a, b) || before_on_axis(b, a),
    ensures
        rooms_apart(r, q),
        rooms_apart(q, r),
{
}

/// A strip of one of two rectangles that share at most a wall crosses no
/// leaf of the other.
proof fn lemma_strip_clear(
    c: CorridorStrip,
    r: (usize, usize, usize, usize),
    a: (int, int, int, int),
    b: (int, int, int, int),
)
    requires
        rect_within(r, a.0, a.1, a.2, a.3),
        strip_within(c, b.0, b.1, b.2, b.3),
        before_on_axis(a, b) || before_on_axis(b, a),
    ensures
        clear_of(c, r),
{
}

/// Joining the leaves and strips of two children that share at most a wall,
/// after the strips cut at the parent, keeps everything apart.
proof fn lemma_split_join(
    r0: Seq<(usize, usize, usize, usize)>,
    r2: Seq<(usize, usize, usize, usize)>,
    rf: Seq<(usize, usize, usize, usize)>,
    c0: int,
    c1: Seq<CorridorStrip>,
    c2: Seq<CorridorStrip>,
    cf: Seq<CorridorStrip>,
    a: (int, int, int, int),
    b: (int, int, int, int),
)
    requires
        r0.len() <= r2.len() <= rf.len(),
        0 <= c0 <= c1.len() <= c2.len() <= cf.len(),
        forall|i: int| 0 <= i < r2.len() ==> #[trigger] rf[i] == r2[i],
        forall|i: int| 0 <= i < c2.len() ==> #[trigger] cf[i] == c2[i],
        forall|i: int| 0 <= i < c1.len() ==> #[trigger] c2[i] == c1[i],
        split_apart(r2, r0.len() as int, c2, c1.len() as int),
        split_apart(rf, r2.len() as int, cf, c2.len() as int),
        forall|i: int|
            r0.len() <= i < r2.len() ==> rect_within(#[trigger] r2[i], a.0, a.1, a.2, a.3),
        forall|i: int|
            r2.len() <= i < rf.len() ==> rect_within(#[trigger] rf[i], b.0, b.1, b.2, b.3),
        forall|k: int|
            c1.len() <= k < c2.len() ==> strip_within(#[trigger] c2[k], a.0, a.1, a.2, a.3),
        forall|k: int|
            c2.len() <= k < cf.len() ==> strip_within(#[trigger] cf[k], b.0, b.1, b.2, b.3),
        before_on_axis(a, b),
        forall|k: int, i: int|
            c0 <= k < c1.len() && r0.len() <= i < rf.len() ==> clear_of(#[trigger] c1[k], #[trigger] rf[i]),
    ensures
        split_apart(rf, r0.len() as int, cf, c0),
{
    assert forall|i: int, j: int|
        r0.len() <= i < j < rf.len() implies rooms_apart(#[trigger] rf[i], #[trigger] rf[j]) by {
        if j < r2.len() {
            assert(rf[i] == r2[i] && rf[j] == r2[j]);
        } else if i < r2.len() {
            assert(rf[i] == r2[i]);
            lemma_leaves_apart(r2[i], rf[j], a, b);
        }
    }
    assert forall|i: int, k: int|
        r0.len() <= i < rf.len() && c0 <= k < cf.len() implies clear_of(
        #[trigger] cf[k],
        #[trigger] rf[i],
    ) by {
        if k < c1.len() {
            assert(cf[k] == c2[k]);
            assert(c2[k] == c1[k]);
        } else if k < c2.len() {
            assert(cf[k] == c2[k]);
            if i < r2.len() {
                assert(rf[i] == r2[i]);
            } else {
                lemma_strip_clear(c2[k], rf[i], b, a);
            }
        } else if i < r2.len() {
            assert(rf[i] == r2[i]);
            lemma_strip_clear(cf[k], r2[i], a, b);
        }
    }
}

/// The narrowest a leaf of a rectangle side `n` can be: `MIN_LEAF`, or `n`
/// itself when that is smaller.
pub open spec fn min_leaf_side(n: int) -> int {
    if n < MIN_LEAF {
        n
    } else {
        MIN_LEAF as int
    }
}

/// `(a, b)` lies in the rectangle `p`.
pub open spec fn in_box(p: (int, int, int, int), a: int, b: int) -> bool {
    p.0 <= a < p.0 + p.2 && p.1 <= b < p.1 + p.3
}

/// `(a, b)` lies in the three-wide band of strip `c`, across the whole
/// rectangle it was cut from (one wall row or column beyond each end).
pub open spec fn in_band(c: CorridorStrip, a: int, b: int) -> bool {
    c.pos + 1 <= strip_across(c, a, b) <= c.pos + 3 && c.from - 1 <= strip_along(c, a, b) <= c.to + 1
}

/// `(a, b)` lies in one of the leaves of `rf` from index `r0` on, or in the
/// band of one of the strips of `cf` from index `c0` on.
pub open spec fn covered(
    rf: Seq<(usize, usize, usize, usize)>,
    r0: int,
    cf: Seq<CorridorStrip>,
    c0: int,
    a: int,
    b: int,
) -> bool {
    ||| exists|i: int| r0 <= i < rf.len() && #[trigger] in_box((rf[i].0 as int, rf[i].1 as int, rf[i].2 as int, rf[i].3 as int), a, b)
    ||| exists|k: int| c0 <= k < cf.len() && #[trigger] in_band(cf[k], a, b)
}

/// `2` to the power `n` (1 for `n <= 0`).
pub open spec fn pow2i(n: int) -> int
    decreases n,
{
    if n <= 0 {
        1
    } else {
        2 * pow2i(n - 1)
    }
}

/// Sum over the leaf depths `ld` of `2^(5 - depth)`: the share of the depth-5
/// grid each leaf takes; a binary tree rooted at depth `d` sums to `2^(5 - d)`.
pub open spec fn depth_weight(ld: Seq<int>) -> int
    decreases ld.len(),
{
    if ld.len() == 0 {
        0
    } else {
        depth_weight(ld.drop_last()) + pow2i(5 - ld.last())
    }
}

/// A leaf within `MAX_LEAF` on both sides.
pub open spec fn small_leaf(r: (usize, usize, usize, usize)) -> bool {
    r.2 <= MAX_LEAF && r.3 <= MAX_LEAF
}

/// `ld` gives the leaves of `rf` from `r0` on depths of a binary tree rooted at
/// depth `d`: each between `d` and 5 (just `d` for a root past depth 5), a
/// leaf larger than `MAX_LEAF` only at depth 5 or deeper, and together the
/// shares of a whole tree.
pub open spec fn leaf_depths(rf: Seq<(usize, usize, usize, usize)>, r0: int, d: int, ld: Seq<int>) -> bool {
    &&& ld.len() == rf.len() - r0
    &&& forall|i: int| 0 <= i < ld.len() ==> d <= #[trigger] ld[i] && (ld[i] <= 5 || ld[i] == d) && (small_leaf(rf[r0 + i]) || ld[i] >= 5)
    &&& depth_weight(ld) == pow2i(5 - d)
}

/// The shares of two depth lists add up.
proof fn lemma_weight_concat(a: Seq<int>, b: Seq<int>)
    ensures
        depth_weight(a + b) == depth_weight(a) + depth_weight(b),
    decreases b.len(),
{
    if b.len() > 0 {
        lemma_weight_concat(a, b.drop_last());
        assert((a + b).drop_last() =~= a + b.drop_last());
    } else {
        assert(a + b =~= a);
    }
}

/// `(a, b)` lies in the wall-inclusive rectangle of strip `c`: its band with
/// the walls on both sides, one wall row or column beyond each end.
pub open spec fn in_strip_rect(c: CorridorStrip, a: int, b: int) -> bool {
    c.pos <= strip_across(c, a, b) <= c.pos + 4 && c.from - 1 <= strip_along(c, a, b) <= c.to + 1
}

/// No cell of the band of `c1` lies in the wall-inclusive rectangle of `c2`.
pub open spec fn strips_apart(c1: CorridorStrip, c2: CorridorStrip) -> bool {
    forall|a: int, b: int| #[trigger] in_strip(c1, a, b) ==> !in_strip_rect(c2, a, b)
}

/// `(a, b)` lies in the rectangle `p` off its outer ring.
pub open spec fn in_inner(p: (int, int, int, int), a: int, b: int) -> bool {
    p.0 + 1 <= a < p.0 + p.2 - 1 && p.1 + 1 <= b < p.1 + p.3 - 1
}

/// A strip cut from `p` has its band off the outer ring of `p`, and its
/// wall-inclusive rectangle inside `p`.
proof fn lemma_strip_inside(c: CorridorStrip, p: (int, int, int, int), a: int, b: int)
    requires
        strip_within(c, p.0, p.1, p.2, p.3),
    ensures
        in_strip(c, a, b) ==> in_inner(p, a, b),
        in_strip_rect(c, a, b) ==> in_box(p, a, b),
{
}

/// Strips of two rectangles that share at most a wall stay apart.
proof fn lemma_strips_of_apart(c1: CorridorStrip, c2: CorridorStrip, p1: (int, int, int, int), p2: (int, int, int, int))
    requires
        strip_within(c1, p1.0, p1.1, p1.2, p1.3),
        strip_within(c2, p2.0, p2.1, p2.2, p2.3),
        before_on_axis(p1, p2) || before_on_axis(p2, p1),
    ensures
        strips_apart(c1, c2),
{
    assert forall|a: int, b: int| #[trigger] in_strip(c1, a, b) implies !in_strip_rect(c2, a, b) by {
        lemma_strip_inside(c1, p1, a, b);
        lemma_strip_inside(c2, p2, a, b);
    }
}

/// What `bsp_split` promises of the leaves and strips it adds to `r0`/`c0`
/// (giving `rf`/`cf`) for the rectangle `p`.
pub open spec fn split_result(
    r0: Seq<(usize, usize, usize, usize)>,
    rf: Seq<(usize, usize, usize, usize)>,
    c0: Seq<CorridorStrip>,
    cf: Seq<CorridorStrip>,
    p: (int, int, int, int),
    d: int,
) -> bool {
    &&& rf.len() > r0.len()
    &&& exists|ld: Seq<int>| #[trigger] leaf_depths(rf, r0.len() as int, d, ld)
    &&& forall|i: int| 0 <= i < r0.len() ==> #[trigger] rf[i] == r0[i]
    &&& forall|i: int| r0.len() <= i < rf.len() ==> rect_within(#[trigger] rf[i], p.0, p.1, p.2, p.3)
    &&& forall|i: int|
        r0.len() <= i < rf.len() ==> #[trigger] rf[i].2 >= min_leaf_side(p.2) && rf[i].3
            >= min_leaf_side(p.3)
    &&& cf.len() >= c0.len()
    &&& forall|i: int| 0 <= i < c0.len() ==> #[trigger] cf[i] == c0[i]
    &&& forall|i: int| c0.len() <= i < cf.len() ==> strip_within(#[trigger] cf[i], p.0, p.1, p.2, p.3)
    &&& split_apart(rf, r0.len() as int, cf, c0.len() as int)
    &&& forall|a: int, b: int| in_box(p, a, b) ==> #[trigger] covered(rf, r0.len() as int, cf, c0.len() as int, a, b)
    &&& forall|k1: int, k2: int|
        c0.len() <= k1 < cf.len() && c0.len() <= k2 < cf.len() && k1 != k2 ==> strips_apart(#[trigger] cf[k1], #[trigger] cf[k2])
    &&& p.0 % 2 == 0 && p.1 % 2 == 0 && p.2 % 2 == 1 && p.3 % 2 == 1 ==> (forall|i: int|
        r0.len() <= i < rf.len() ==> on_even_grid(#[trigger] rf[i])) && (forall|k: int|
        c0.len() <= k < cf.len() ==> #[trigger] cf[k].pos % 2 == 0)
}

/// A rectangle kept whole is the single leaf of its split.
proof fn lemma_single_leaf(rs: Seq<(usize, usize, usize, usize)>, cs: Seq<CorridorStrip>, r: (usize, usize, usize, usize), d: int)
    requires
        0 <= d,
        small_leaf(r) || d >= 5,
    ensures
        split_result(rs, rs.push(r), cs, cs, (r.0 as int, r.1 as int, r.2 as int, r.3 as int), d),
{
    let rf = rs.push(r);
    let p = (r.0 as int, r.1 as int, r.2 as int, r.3 as int);
    assert(rf[rs.len() as int] == r);
    assert forall|a: int, b: int| in_box(p, a, b) implies #[trigger] covered(rf, rs.len() as int, cs, cs.len() as int, a, b) by {
        assert(in_box((rf[rs.len() as int].0 as int, rf[rs.len() as int].1 as int, rf[rs.len() as int].2 as int, rf[rs.len() as int].3 as int), a, b));
    }
    let ld = seq![d];
    assert(ld.drop_last() =~= Seq::<int>::empty());
    assert(depth_weight(Seq::<int>::empty()) == 0);
    assert(ld.last() == d);
    assert(depth_weight(ld) == depth_weight(ld.drop_last()) + pow2i(5 - ld.last()));
    assert(depth_weight(ld) == pow2i(5 - d));
    assert(leaf_depths(rf, rs.len() as int, d, ld));
    assert forall|i: int| 0 <= i < rs.len() implies #[trigger] rf[i] == rs[i] by {}
}

/// A parent split into children `a` and `b` (after cutting the strips
/// `c0..c1`) keeps the promises its children keep.
proof fn lemma_join_children(
    r0: Seq<(usize, usize, usize, usize)>,
    r1: Seq<(usize, usize, usize, usize)>,
    r2: Seq<(usize, usize, usize, usize)>,
    rf: Seq<(usize, usize, usize, usize)>,
    c0: Seq<CorridorStrip>,
    c1: Seq<CorridorStrip>,
    c2: Seq<CorridorStrip>,
    cf: Seq<CorridorStrip>,
    a: (int, int, int, int),
    b: (int, int, int, int),
    x: int,
    y: int,
    w: int,
    h: int,
    d: int,
)
    requires
        r1 == r0,
        c1.len() >= c0.len(),
        forall|i: int| 0 <= i < c0.len() ==> #[trigger] c1[i] == c0[i],
        forall|k: int| c0.len() <= k < c1.len() ==> strip_within(#[trigger] c1[k], x, y, w, h),
        forall|k: int, rr: (usize, usize, usize, usize)|
            c0.len() <= k < c1.len() && (rect_within(rr, a.0, a.1, a.2, a.3) || rect_within(
                rr,
                b.0,
                b.1,
                b.2,
                b.3,
            )) ==> #[trigger] clear_of(c1[k], rr),
        x % 2 == 0 && y % 2 == 0 && w % 2 == 1 && h % 2 == 1 ==> (forall|k: int|
            c0.len() <= k < c1.len() ==> #[trigger] c1[k].pos % 2 == 0),
        split_result(r1, r2, c1, c2, a, d + 1),
        split_result(r2, rf, c2, cf, b, d + 1),
        0 <= d < 5,
        x <= a.0,
        y <= a.1,
        a.0 + a.2 <= x + w,
        a.1 + a.3 <= y + h,
        x <= b.0,
        y <= b.1,
        b.0 + b.2 <= x + w,
        b.1 + b.3 <= y + h,
        before_on_axis(a, b),
        c1.len() <= c0.len() + 1,
        forall|k: int, p: int, q: int|
            c0.len() <= k < c1.len() && #[trigger] in_strip(c1[k], p, q) ==> !in_box(a, p, q) && !in_box(b, p, q),
        forall|k: int, p: int, q: int|
            c0.len() <= k < c1.len() && #[trigger] in_strip_rect(c1[k], p, q) ==> !in_inner(a, p, q) && !in_inner(b, p, q),
        forall|p: int, q: int|
            #[trigger] in_box((x, y, w, h), p, q) ==> in_box(a, p, q) || in_box(b, p, q) || exists|k: int|
                c0.len() <= k < c1.len() && #[trigger] in_band(c1[k], p, q),
        a.2 >= min_leaf_side(w),
        a.3 >= min_leaf_side(h),
        b.2 >= min_leaf_side(w),
        b.3 >= min_leaf_side(h),
        x % 2 == 0 && y % 2 == 0 && w % 2 == 1 && h % 2 == 1 ==> a.0 % 2 == 0 && a.1 % 2 == 0 && a.2
            % 2 == 1 && a.3 % 2 == 1 && b.0 % 2 == 0 && b.1 % 2 == 0 && b.2 % 2 == 1 && b.3 % 2 == 1,
    ensures
        split_result(r0, rf, c0, cf, (x, y, w, h), d),
{
    let la = choose|ld: Seq<int>| #[trigger] leaf_depths(r2, r1.len() as int, d + 1, ld);
    let lb = choose|ld: Seq<int>| #[trigger] leaf_depths(rf, r2.len() as int, d + 1, ld);
    let l = la + lb;
    lemma_weight_concat(la, lb);
    assert(pow2i(5 - d) == 2 * pow2i(4 - d));
    assert forall|i: int| 0 <= i < l.len() implies d <= #[trigger] l[i] <= 5 && (small_leaf(rf[r0.len() + i]) || l[i] == 5) by {
        if i < la.len() {
            assert(l[i] == la[i]);
            assert(rf[r0.len() + i] == r2[r1.len() + i]);
        } else {
            assert(l[i] == lb[i - la.len()]);
            assert(r0.len() + i == r2.len() + (i - la.len()));
        }
    }
    assert(leaf_depths(rf, r0.len() as int, d, l));
    assert forall|i: int| 0 <= i < r0.len() implies #[trigger] rf[i] == r0[i] by {
        assert(rf[i] == r2[i]);
    }
    assert forall|i: int| 0 <= i < c0.len() implies #[trigger] cf[i] == c0[i] by {
        assert(cf[i] == c2[i]);
        assert(c2[i] == c1[i]);
    }
    assert forall|i: int| r0.len() <= i < rf.len() implies rect_within(#[trigger] rf[i], x, y, w, h)
        && rf[i].2 >= min_leaf_side(w) && rf[i].3 >= min_leaf_side(h) by {
        if i < r2.len() {
            assert(rf[i] == r2[i]);
        }
    }
    assert forall|k: int| c0.len() <= k < cf.len() implies strip_within(#[trigger] cf[k], x, y, w, h) by {
        if k < c2.len() {
            assert(cf[k] == c2[k]);
            if k < c1.len() {
                assert(c2[k] == c1[k]);
            }
        }
    }
    assert forall|k: int, i: int|
        c0.len() <= k < c1.len() && r0.len() <= i < rf.len() implies clear_of(#[trigger] c1[k], #[trigger] rf[i]) by {
        if i < r2.len() {
            assert(rf[i] == r2[i]);
            assert(rect_within(r2[i], a.0, a.1, a.2, a.3));
        } else {
            assert(rect_within(rf[i], b.0, b.1, b.2, b.3));
        }
    }
    lemma_split_join(r0, r2, rf, c0.len() as int, c1, c2, cf, a, b);
    assert forall|k1: int, k2: int|
        c0.len() <= k1 < cf.len() && c0.len() <= k2 < cf.len() && k1 != k2 implies strips_apart(#[trigger] cf[k1], #[trigger] cf[k2]) by {
        if k1 < c1.len() && k2 < c1.len() {
            assert(false);
        } else if k1 < c1.len() {
            assert(cf[k1] == c2[k1] && c2[k1] == c1[k1]);
            assert forall|p: int, q: int| #[trigger] in_strip(cf[k1], p, q) implies !in_strip_rect(cf[k2], p, q) by {
                if k2 < c2.len() {
                    assert(cf[k2] == c2[k2]);
                    lemma_strip_inside(c2[k2], a, p, q);
                } else {
                    lemma_strip_inside(cf[k2], b, p, q);
                }
            }
        } else if k2 < c1.len() {
            assert(cf[k2] == c2[k2] && c2[k2] == c1[k2]);
            assert forall|p: int, q: int| #[trigger] in_strip(cf[k1], p, q) implies !in_strip_rect(cf[k2], p, q) by {
                if k1 < c2.len() {
                    assert(cf[k1] == c2[k1]);
                    lemma_strip_inside(c2[k1], a, p, q);
                } else {
                    lemma_strip_inside(cf[k1], b, p, q);
                }
            }
        } else if k1 < c2.len() && k2 < c2.len() {
            assert(cf[k1] == c2[k1] && cf[k2] == c2[k2]);
        } else if k1 < c2.len() {
            assert(cf[k1] == c2[k1]);
            lemma_strips_of_apart(c2[k1], cf[k2], a, b);
        } else if k2 < c2.len() {
            assert(cf[k2] == c2[k2]);
            lemma_strips_of_apart(cf[k1], c2[k2], b, a);
        }
    }
    assert forall|p: int, q: int| in_box((x, y, w, h), p, q) implies #[trigger] covered(rf, r0.len() as int, cf, c0.len() as int, p, q) by {
        if in_box(a, p, q) {
            assert(covered(r2, r1.len() as int, c2, c1.len() as int, p, q));
            if exists|i: int| r1.len() <= i < r2.len() && #[trigger] in_box((r2[i].0 as int, r2[i].1 as int, r2[i].2 as int, r2[i].3 as int), p, q) {
                let i = choose|i: int| r1.len() <= i < r2.len() && #[trigger] in_box((r2[i].0 as int, r2[i].1 as int, r2[i].2 as int, r2[i].3 as int), p, q);
                assert(rf[i] == r2[i]);
            } else {
                let k = choose|k: int| c1.len() <= k < c2.len() && #[trigger] in_band(c2[k], p, q);
                assert(cf[k] == c2[k]);
            }
        } else if in_box(b, p, q) {
            assert(covered(rf, r2.len() as int, cf, c2.len() as int, p, q));
            if exists|i: int| r2.len() <= i < rf.len() && #[trigger] in_box((rf[i].0 as int, rf[i].1 as int, rf[i].2 as int, rf[i].3 as int), p, q) {
                let i = choose|i: int| r2.len() <= i < rf.len() && #[trigger] in_box((rf[i].0 as int, rf[i].1 as int, rf[i].2 as int, rf[i].3 as int), p, q);
                assert(r0.len() <= i);
            } else {
                let k = choose|k: int| c2.len() <= k < cf.len() && #[trigger] in_band(cf[k], p, q);
                assert(c0.len() <= k);
            }
        } else {
            let k = choose|k: int| c0.len() <= k < c1.len() && #[trigger] in_band(c1[k], p, q);
            assert(cf[k] == c2[k]);
            assert(c2[k] == c1[k]);
        }
    }
    if x % 2 == 0 && y % 2 == 0 && w % 2 == 1 && h % 2 == 1 {
        assert forall|i: int| r0.len() <= i < rf.len() implies on_even_grid(#[trigger] rf[i]) by {
            if i < r2.len() {
                assert(rf[i] == r2[i]);
            }
        }
        assert forall|k: int| c0.len() <= k < cf.len() implies #[trigger] cf[k].pos % 2 == 0 by {
            if k < c2.len() {
                assert(cf[k] == c2[k]);
                if k < c1.len() {
                    assert(c2[k] == c1[k]);
                }
            }
        }
    }
}

/// Recursively partition a wall-inclusive rectangle `(x, y, w, h)` into leaf
/// regions (future rooms) and, near the top of the tree, corridor strips.
///
/// Split offsets are even, so shared walls land on even coordinates when the
/// rectangle starts on one. A corridor split leaves a 3-cell gap with walls on
/// both sides. Leaves share at most walls, no strip crosses a leaf, each strip
/// spends one unit of `corridor_budget`, and no leaf is narrower than
/// `MIN_LEAF` unless the rectangle itself was. A rectangle within `MAX_LEAF`
/// on both sides (or reached at depth 5 or deeper) is kept whole as one leaf; every
/// other leaf is within `MAX_LEAF` unless it was cut at depth 5. The leaves
/// and the three-wide bands of the strips cover the rectangle, and no band
/// meets another strip's band or its flanking walls.
#[verifier::rlimit(80)]
#[verifier::spinoff_prover]
pub fn bsp_split(
    regions_out: &mut Vec<(usize, usize, usize, usize)>,
    corridors_out: &mut Vec<CorridorStrip>,
    x: usize,
    y: usize,
    w: usize,
    h: usize,
    depth: usize,
    corridor_budget: &mut usize,
    rng: &mut StdRng,
)
    requires
        x + w + 4 <= usize::MAX,
        y + h + 4 <= usize::MAX,
    ensures
        split_result(
            old(regions_out)@,
            final(regions_out)@,
            old(corridors_out)@,
            final(corridors_out)@,
            (x as int, y as int, w as int, h as int),
            depth as int,
        ),
        *final(corridor_budget) <= *old(corridor_budget),
        final(corridors_out)@.len() - old(corridors_out)@.len()
            == *old(corridor_budget) - *final(corridor_budget),
        (w <= MAX_LEAF && h <= MAX_LEAF) || depth >= 5 ==> final(regions_out)@ == old(regions_out)@.push((x, y, w, h))
            && final(corridors_out)@ == old(corridors_out)@ && *final(corridor_budget) == *old(corridor_budget),
        !((w <= MAX_LEAF && h <= MAX_LEAF) || depth >= 5) ==> final(regions_out)@.len() >= old(regions_out)@.len() + 2,
    decreases if depth >= 5 { 0 } else { 5 - depth },
{
    if (w <= MAX_LEAF && h <= MAX_LEAF) || depth >= 5 {
        proof {
            lemma_single_leaf(regions_out@, corridors_out@, (x, y, w, h), depth as int);
        }
        regions_out.push((x, y, w, h));
        return;
    }
    let vertical = w >= h;
    let ghost r0 = regions_out@;
    let ghost c0 = corridors_out@;
    let ghost b0 = *corridor_budget;
    if vertical {
        // Optional corridor split (room for a 3-cell gap and two minimal leaves).
        if *corridor_budget > 0 && depth <= 1 && h >= 8 && w >= 13 && gen_ratio(rng, 3, 5) {
            let lo = MIN_LEAF - 1;
            let hi = w - MIN_LEAF - 4;
            if hi >= lo {
                let split = pick_even(lo, hi, rng);
                corridors_out.push(CorridorStrip { horizontal: false, pos: x + split, from: y + 1, to: y + h - 2 });
                *corridor_budget = *corridor_budget - 1;
                let ghost c1 = corridors_out@;
                let ghost r1 = regions_out@;
                bsp_split(regions_out, corridors_out, x, y, split + 1, h, depth + 1, corridor_budget, rng);
                let ghost c2 = corridors_out@;
                let ghost r2 = regions_out@;
                bsp_split(regions_out, corridors_out, x + split + 4, y, w - split - 4, h, depth + 1, corridor_budget, rng);
                proof {
                    let a = (x as int, y as int, split + 1, h as int);
                    let b = ((x + split + 4) as int, y as int, w - split - 4, h as int);
                    assert(c1[c0.len() as int] == CorridorStrip { horizontal: false, pos: (x + split) as usize, from: (y + 1) as usize, to: (y + h - 2) as usize });
                    assert forall|p: int, q: int| #[trigger] in_box((x as int, y as int, w as int, h as int), p, q) implies in_box(a, p, q) || in_box(b, p, q) || exists|k: int|
                        c0.len() <= k < c1.len() && #[trigger] in_band(c1[k], p, q) by {
                        if !in_box(a, p, q) && !in_box(b, p, q) {
                            assert(in_band(c1[c0.len() as int], p, q));
                        }
                    }
                    lemma_join_children(r0, r1, r2, regions_out@, c0, c1, c2, corridors_out@, a, b, x as int, y as int, w as int, h as int, depth as int);
                }
                return;
            }
        }
        // Normal split: the children share the wall at `x + split`.
        let split = pick_even(MIN_LEAF - 1, w - MIN_LEAF, rng);
        let ghost r1 = regions_out@;
        let ghost c1 = corridors_out@;
        bsp_split(regions_out, corridors_out, x, y, split + 1, h, depth + 1, corridor_budget, rng);
        let ghost r2 = regions_out@;
        let ghost c2 = corridors_out@;
        bsp_split(regions_out, corridors_out, x + split, y, w - split, h, depth + 1, corridor_budget, rng);
        proof {
            let a = (x as int, y as int, split + 1, h as int);
            let b = ((x + split) as int, y as int, w - split, h as int);
            lemma_join_children(r0, r1, r2, regions_out@, c0, c1, c2, corridors_out@, a, b, x as int, y as int, w as int, h as int, depth as int);
        }
    } else {
        if *corridor_budget > 0 && depth <= 1 && w >= 8 && h >= 13 && gen_ratio(rng, 3, 5) {
            let lo = MIN_LEAF - 1;
            let hi = h - MIN_LEAF - 4;
            if hi >= lo {
                let split = pick_even(lo, hi, rng);
                corridors_out.push(CorridorStrip { horizontal: true, pos: y + split, from: x + 1, to: x + w - 2 });
                *corridor_budget = *corridor_budget - 1;
                let ghost c1 = corridors_out@;
                let ghost r1 = regions_out@;
                bsp_split(regions_out, corridors_out, x, y, w, split + 1, depth + 1, corridor_budget, rng);
                let ghost c2 = corridors_out@;
                let ghost r2 = regions_out@;
                bsp_split(regions_out, corridors_out, x, y + split + 4, w, h - split - 4, depth + 1, corridor_budget, rng);
                proof {
                    let a = (x as int, y as int, w as int, split + 1);
                    let b = (x as int, (y + split + 4) as int, w as int, h - split - 4);
                    assert(c1[c0.len() as int] == CorridorStrip { horizontal: true, pos: (y + split) as usize, from: (x + 1) as usize, to: (x + w - 2) as usize });
                    assert forall|p: int, q: int| #[trigger] in_box((x as int, y as int, w as int, h as int), p, q) implies in_box(a, p, q) || in_box(b, p, q) || exists|k: int|
                        c0.len() <= k < c1.len() && #[trigger] in_band(c1[k], p, q) by {
                        if !in_box(a, p, q) && !in_box(b, p, q) {
                            assert(in_band(c1[c0.len() as int], p, q));
                        }
                    }
                    lemma_join_children(r0, r1, r2, regions_out@, c0, c1, c2, corridors_out@, a, b, x as int, y as int, w as int, h as int, depth as int);
                }
                return;
            }
        }
        let split = pick_even(MIN_LEAF - 1, h - MIN_LEAF, rng);
        let ghost r1 = regions_out@;
        let ghost c1 = corridors_out@;
        bsp_split(regions_out, corridors_out, x, y, w, split + 1, depth + 1, corridor_budget, rng);
        let ghost r2 = regions_out@;
        let ghost c2 = corridors_out@;
        bsp_split(regions_out, corridors_out, x, y + split, w, h - split, depth + 1, corridor_budget, rng);
        proof {
            let a = (x as int, y as int, w as int, split + 1);
            let b = (x as int, (y + split) as int, w as int, h - split);
            lemma_join_children(r0, r1, r2, regions_out@, c0, c1, c2, corridors_out@, a, b, x as int, y as int, w as int, h as int, depth as int);
        }
    }
}

/// `m` differs from `m0` only by interior cells that became EMPTY, and keeps
/// every EMPTY cell of `m0` EMPTY.
pub open spec fn carved_from(m0: &NobiscuitMap, m: &NobiscuitMap) -> bool {
    &&& m.wf()
    &&& m.spec_width() == m0.spec_width()
    &&& m.spec_height() == m0.spec_height()
    &&& forall|a: int, b: int|
        m0.in_bounds(a, b) ==> (#[trigger] m.cell(a, b) == m0.cell(a, b) || (interior(
            m0.spec_width() as int,
            m0.spec_height() as int,
            a,
            b,
        ) && m.cell(a, b) == TILE_EMPTY))
}

/// Carve one interior cell; everything EMPTY stays EMPTY.
fn carve(map: &mut NobiscuitMap, x: usize, y: usize, Ghost(m0): Ghost<NobiscuitMap>)
    requires
        carved_from(&m0, old(map)),
        interior(m0.spec_width() as int, m0.spec_height() as int, x as int, y as int),
    ensures
        carved_from(&m0, final(map)),
        final(map).cell(x as int, y as int) == TILE_EMPTY,
        forall|a: int, b: int|
            m0.in_bounds(a, b) && old(map).cell(a, b) == TILE_EMPTY ==> #[trigger] final(map).cell(
                a,
                b,
            ) == TILE_EMPTY,
        forall|a: int, b: int|
            m0.in_bounds(a, b) && (a != x || b != y) ==> #[trigger] final(map).cell(a, b) == old(
                map,
            ).cell(a, b),
{
    map.set(x, y, TILE_EMPTY);
}

/// Two rooms are apart, with at least one wall between them.
pub open spec fn rooms_separated(r1: Room, r2: Room) -> bool {
    ||| r1.x + r1.w < r2.x
    ||| r2.x + r2.w < r1.x
    ||| r1.y + r1.h < r2.y
    ||| r2.y + r2.h < r1.y
}

/// `room` is the inside of the wall-inclusive rectangle `r`.
pub open spec fn room_in_region(room: Room, r: (usize, usize, usize, usize)) -> bool {
    room.x == r.0 + 1 && room.y == r.1 + 1 && room.w + 2 == r.2 && room.h + 2 == r.3
}

/// `(a, b)` is one of the cells of the three-wide strip `c`.
pub open spec fn in_strip(c: CorridorStrip, a: int, b: int) -> bool {
    if c.horizontal {
        c.pos + 1 <= b <= c.pos + 3 && c.from <= a <= c.to
    } else {
        c.pos + 1 <= a <= c.pos + 3 && c.from <= b <= c.to
    }
}

/// `(a, b)` lies in one of `rooms`.
pub open spec fn in_some_room(rooms: Seq<Room>, a: int, b: int) -> bool {
    exists|i: int| 0 <= i < rooms.len() && #[trigger] in_room(rooms[i], a, b)
}

/// `(a, b)` is one of `cells`.
pub open spec fn listed_cell(cells: Seq<(usize, usize)>, a: int, b: int) -> bool {
    exists|k: int| 0 <= k < cells.len() && #[trigger] cells[k].0 == a && cells[k].1 == b
}

/// `(a, b)` lies in one of the strips `s`.
pub open spec fn in_some_strip(s: Seq<CorridorStrip>, a: int, b: int) -> bool {
    exists|j: int| 0 <= j < s.len() && #[trigger] in_strip(s[j], a, b)
}

/// Every cell of `cells` lies in one of the strips `s`.
pub open spec fn strips_cover(s: Seq<CorridorStrip>, cells: Seq<(usize, usize)>) -> bool {
    forall|k: int| 0 <= k < cells.len() ==> #[trigger] in_some_strip(s, cells[k].0 as int, cells[k].1 as int)
}

/// Mask-true cells among the `n` cells of row `y` from column `x0`.
pub open spec fn mask_run(mask: Seq<bool>, w: int, x0: int, y: int, n: int) -> int
    decreases n,
{
    if n <= 0 {
        0
    } else {
        mask_run(mask, w, x0, y, n - 1) + if mask[y * w + x0 + n - 1] { 1int } else { 0int }
    }
}

/// Mask-true cells in the first `n` rows (from `y0`) of the `iw`-wide block at
/// column `x0`.
pub open spec fn mask_block(mask: Seq<bool>, w: int, x0: int, y0: int, iw: int, n: int) -> int
    decreases n,
{
    if n <= 0 {
        0
    } else {
        mask_block(mask, w, x0, y0, iw, n - 1) + mask_run(mask, w, x0, y0 + n - 1, iw)
    }
}

/// The room a leaf region yields: its interior (inset by one wall), when that
/// is non-empty and at least half of it is masked.
pub open spec fn leaf_room(mask: Seq<bool>, w: int, r: (usize, usize, usize, usize)) -> Option<Room> {
    if r.2 >= 3 && r.3 >= 3 {
        let c = mask_block(mask, w, r.0 + 1, r.1 + 1, r.2 - 2, r.3 - 2);
        let area = (r.2 - 2) * (r.3 - 2);
        if !(c < area - c) {
            Some(Room { x: (r.0 + 1) as usize, y: (r.1 + 1) as usize, w: (r.2 - 2) as usize, h: (r.3 - 2) as usize })
        } else {
            None
        }
    } else {
        None
    }
}

/// The rooms of the first `n` leaf regions, in leaf order.
pub open spec fn leaf_rooms(mask: Seq<bool>, w: int, regions: Seq<(usize, usize, usize, usize)>, n: int) -> Seq<Room>
    decreases n,
{
    if n <= 0 {
        seq![]
    } else {
        leaf_rooms(mask, w, regions, n - 1) + match leaf_room(mask, w, regions[n - 1]) {
            Some(r) => seq![r],
            None => seq![],
        }
    }
}

/// `bx` = `(min_x, min_y, max_x, max_y)` is the bounding box of `nodes`.
pub open spec fn island_box(nodes: Seq<(usize, usize)>, bx: (int, int, int, int)) -> bool {
    &&& forall|k: int| 0 <= k < nodes.len() ==> bx.0 <= #[trigger] nodes[k].0 <= bx.2 && bx.1 <= nodes[k].1 <= bx.3
    &&& exists|k: int| 0 <= k < nodes.len() && #[trigger] nodes[k].0 == bx.0
    &&& exists|k: int| 0 <= k < nodes.len() && #[trigger] nodes[k].1 == bx.1
    &&& exists|k: int| 0 <= k < nodes.len() && #[trigger] nodes[k].0 == bx.2
    &&& exists|k: int| 0 <= k < nodes.len() && #[trigger] nodes[k].1 == bx.3
}

/// The wall-inclusive rectangle one wall ring around the box `bx`.
pub open spec fn box_rect(bx: (int, int, int, int)) -> (int, int, int, int) {
    (bx.0 - 1, bx.1 - 1, bx.2 - bx.0 + 3, bx.3 - bx.1 + 3)
}

/// The layout of an island with bounding box `bx`: its rectangle split into
/// `regions` and `strips` as `bsp_split` does, the rooms of the leaves that
/// are at least half masked (in leaf order), and the strip cells inside the
/// map's outer ring, every one of them listed in `cells`.
pub open spec fn laid_out(
    nodes: Seq<(usize, usize)>,
    mask: Seq<bool>,
    w: int,
    h: int,
    bx: (int, int, int, int),
    regions: Seq<(usize, usize, usize, usize)>,
    strips: Seq<CorridorStrip>,
    rooms: Seq<Room>,
    cells: Seq<(usize, usize)>,
) -> bool {
    &&& island_box(nodes, bx)
    &&& split_result(Seq::empty(), regions, Seq::empty(), strips, box_rect(bx), 0)
    &&& strips.len() <= 2
    &&& rooms == leaf_rooms(mask, w, regions, regions.len() as int)
    &&& strips_cover(strips, cells)
    &&& forall|j: int, a: int, b: int|
        0 <= j < strips.len() && #[trigger] in_strip(strips[j], a, b) && interior(w, h, a, b) ==> listed_cell(cells, a, b)
}

/// Position of `(a, b)` across the strip `c` (the row of a horizontal strip,
/// the column of a vertical one).
pub open spec fn strip_across(c: CorridorStrip, a: int, b: int) -> int {
    if c.horizontal { b } else { a }
}

/// Position of `(a, b)` along the strip `c`.
pub open spec fn strip_along(c: CorridorStrip, a: int, b: int) -> int {
    if c.horizontal { a } else { b }
}

/// A listed cell stays listed when another is appended.
proof fn lemma_listed_push(cells: Seq<(usize, usize)>, c: (usize, usize), a: int, b: int)
    requires
        listed_cell(cells, a, b),
    ensures
        listed_cell(cells.push(c), a, b),
{
    let k = choose|k: int| 0 <= k < cells.len() && #[trigger] cells[k].0 == a && cells[k].1 == b;
    assert(cells.push(c)[k] == cells[k]);
}

/// BSP layout for one island: partition its bounding rectangle into rooms and
/// corridor strips, carving EMPTY cells where the mask is playable at region
/// granularity.
///
/// A leaf region becomes a room (its interior inset by one wall on every side)
/// when at least half of that interior is masked, and is then carved as a
/// solid rectangle so rooms read as rooms; regions that are mostly VOID are
/// skipped. Corridors are 3 cells wide and carved whole.
/// Returns the placed rooms and the carved corridor cells. An island without
/// nodes yields nothing and leaves the map alone.
#[verifier::rlimit(50)]
pub fn bsp_layout(
    map: &mut NobiscuitMap,
    island_nodes: &Vec<(usize, usize)>,
    mask: &Vec<bool>,
    width: usize,
    height: usize,
    rng: &mut StdRng,
) -> (res: (Vec<Room>, Vec<(usize, usize)>))
    requires
        old(map).wf(),
        old(map).spec_width() == width,
        old(map).spec_height() == height,
        3 <= width <= i32::MAX,
        3 <= height <= i32::MAX,
        width * height <= usize::MAX,
        mask.len() == width * height,
        forall|k: int|
            0 <= k < island_nodes@.len() ==> is_node(
                width as int,
                height as int,
                #[trigger] island_nodes@[k].0 as int,
                island_nodes@[k].1 as int,
            ),
    ensures
        carved_from(old(map), final(map)),
        forall|i: int| 0 <= i < res.0@.len() ==> room_inside(#[trigger] res.0@[i], width as int, height as int),
        forall|i: int, a: int, b: int|
            #![trigger res.0@[i], final(map).cell(a, b)]
            0 <= i < res.0@.len() && in_room(res.0@[i], a, b) ==> final(map).cell(a, b) == TILE_EMPTY,
        forall|k: int|
            0 <= k < res.1@.len() ==> interior(
                width as int,
                height as int,
                #[trigger] res.1@[k].0 as int,
                res.1@[k].1 as int,
            ) && final(map).cell(res.1@[k].0 as int, res.1@[k].1 as int) == TILE_EMPTY,
        forall|a: int, b: int|
            old(map).in_bounds(a, b) && #[trigger] final(map).cell(a, b) != old(map).cell(a, b)
                ==> in_some_room(res.0@, a, b) || listed_cell(res.1@, a, b),
        forall|i: int, j: int|
            0 <= i < j < res.0@.len() ==> rooms_separated(#[trigger] res.0@[i], #[trigger] res.0@[j]),
        forall|i: int, k: int|
            #![trigger res.0@[i], res.1@[k]]
            0 <= i < res.0@.len() && 0 <= k < res.1@.len() ==> !in_room(
                res.0@[i],
                res.1@[k].0 as int,
                res.1@[k].1 as int,
            ),
        exists|s: Seq<CorridorStrip>| s.len() <= 2 && #[trigger] strips_cover(s, res.1@),
        island_nodes@.len() == 0 ==> res.0@.len() == 0 && res.1@.len() == 0,
        forall|i: int| 0 <= i < res.0@.len() ==> #[trigger] res.0@[i].x % 2 == 1 && res.0@[i].y % 2 == 1,
        island_nodes@.len() > 0 ==> exists|bx: (int, int, int, int), regions: Seq<(usize, usize, usize, usize)>, strips: Seq<CorridorStrip>|
            #[trigger] laid_out(island_nodes@, mask@, width as int, height as int, bx, regions, strips, res.0@, res.1@),
{
    let ghost m0 = *map;
    let ghost w = width as int;
    let ghost h = height as int;
    if island_nodes.len() == 0 {
        let res: (Vec<Room>, Vec<(usize, usize)>) = (Vec::new(), Vec::new());
        assert(strips_cover(Seq::<CorridorStrip>::empty(), res.1@));
        return res;
    }
    // Bounding rectangle of the island's nodes.
    let mut min_x = usize::MAX;
    let mut min_y = usize::MAX;
    let mut max_x: usize = 0;
    let mut max_y: usize = 0;
    let mut k: usize = 0;
    while k < island_nodes.len()
        invariant
            0 <= k <= island_nodes@.len(),
            w == width,
            h == height,
            island_nodes@.len() > 0,
            k == 0 ==> min_x == usize::MAX && min_y == usize::MAX && max_x == 0 && max_y == 0,
            k > 0 ==> 1 <= min_x <= max_x <= width - 2 && 1 <= min_y <= max_y <= height - 2,
            forall|j: int|
                0 <= j < k ==> min_x <= #[trigger] island_nodes@[j].0 <= max_x && min_y <= island_nodes@[j].1 <= max_y,
            k > 0 ==> exists|j: int| 0 <= j < k && #[trigger] island_nodes@[j].0 == min_x,
            k > 0 ==> exists|j: int| 0 <= j < k && #[trigger] island_nodes@[j].1 == min_y,
            k > 0 ==> exists|j: int| 0 <= j < k && #[trigger] island_nodes@[j].0 == max_x,
            k > 0 ==> exists|j: int| 0 <= j < k && #[trigger] island_nodes@[j].1 == max_y,
            forall|j: int|
                0 <= j < island_nodes@.len() ==> is_node(
                    width as int,
                    height as int,
                    #[trigger] island_nodes@[j].0 as int,
                    island_nodes@[j].1 as int,
                ),
        decreases island_nodes@.len() - k,
    {
        let (nx, ny) = island_nodes[k];
        assert(is_node(w, h, island_nodes@[k as int].0 as int, island_nodes@[k as int].1 as int));
        if nx < min_x {
            min_x = nx;
        }
        if ny < min_y {
            min_y = ny;
        }
        if nx > max_x {
            max_x = nx;
        }
        if ny > max_y {
            max_y = ny;
        }
        proof {
            assert(island_nodes@[k as int] == (nx, ny));
        }
        k = k + 1;
    }
    let ghost bx = (min_x as int, min_y as int, max_x as int, max_y as int);
    assert(island_box(island_nodes@, bx));
    // Wall-inclusive rectangle: one wall ring around the nodes.
    let rx = min_x - 1;
    let ry = min_y - 1;
    let rw = max_x - min_x + 3;
    let rh = max_y - min_y + 3;
    let mut regions: Vec<(usize, usize, usize, usize)> = Vec::new();
    let mut corridors: Vec<CorridorStrip> = Vec::new();
    let mut budget: usize = 2;
    bsp_split(&mut regions, &mut corridors, rx, ry, rw, rh, 0, &mut budget, rng);
    assert(split_apart(regions@, 0, corridors@, 0));
    assert(corridors@.len() <= 2);
    assert(rx % 2 == 0 && ry % 2 == 0 && rw % 2 == 1 && rh % 2 == 1) by {
        let j0 = choose|j: int| 0 <= j < island_nodes@.len() && #[trigger] island_nodes@[j].0 == min_x;
        let j1 = choose|j: int| 0 <= j < island_nodes@.len() && #[trigger] island_nodes@[j].1 == min_y;
        let j2 = choose|j: int| 0 <= j < island_nodes@.len() && #[trigger] island_nodes@[j].0 == max_x;
        let j3 = choose|j: int| 0 <= j < island_nodes@.len() && #[trigger] island_nodes@[j].1 == max_y;
        assert(is_node(w, h, island_nodes@[j0].0 as int, island_nodes@[j0].1 as int));
        assert(is_node(w, h, island_nodes@[j1].0 as int, island_nodes@[j1].1 as int));
        assert(is_node(w, h, island_nodes@[j2].0 as int, island_nodes@[j2].1 as int));
        assert(is_node(w, h, island_nodes@[j3].0 as int, island_nodes@[j3].1 as int));
    }
    assert(forall|i: int| 0 <= i < regions@.len() ==> on_even_grid(#[trigger] regions@[i]));
    // Carve rooms: each leaf's interior is inset by one wall on every side.
    let mut rooms: Vec<Room> = Vec::new();
    let ghost mut src: Seq<int> = Seq::empty();
    let mut ri: usize = 0;
    while ri < regions.len()
        invariant
            0 <= ri <= regions@.len(),
            w == width,
            h == height,
            m0.spec_width() == width,
            m0.spec_height() == height,
            3 <= width <= i32::MAX,
            3 <= height <= i32::MAX,
            width * height <= usize::MAX,
            mask.len() == width * height,
            carved_from(&m0, map),
            forall|i: int| 0 <= i < regions@.len() ==> rect_within(#[trigger] regions@[i], rx as int, ry as int, rw as int, rh as int),
            rx + rw <= width,
            ry + rh <= height,
            forall|i: int| 0 <= i < rooms@.len() ==> room_inside(#[trigger] rooms@[i], w, h),
            forall|i: int, a: int, b: int|
                #![trigger rooms@[i], map.cell(a, b)]
                0 <= i < rooms@.len() && in_room(rooms@[i], a, b) ==> map.cell(a, b) == TILE_EMPTY,
            split_apart(regions@, 0, corridors@, 0),
            corridors@.len() <= 2,
            src.len() == rooms@.len(),
            rooms@ == leaf_rooms(mask@, w, regions@, ri as int),
            forall|i: int| 0 <= i < regions@.len() ==> on_even_grid(#[trigger] regions@[i]),
            forall|i: int| 0 <= i < rooms@.len() ==> #[trigger] rooms@[i].x % 2 == 1 && rooms@[i].y % 2 == 1,
            forall|i: int| 0 <= i < src.len() ==> 0 <= #[trigger] src[i] < ri,
            forall|i: int, j: int| 0 <= i < j < src.len() ==> #[trigger] src[i] < #[trigger] src[j],
            forall|i: int| 0 <= i < rooms@.len() ==> room_in_region(#[trigger] rooms@[i], regions@[src[i]]),
            forall|a: int, b: int|
                m0.in_bounds(a, b) && #[trigger] map.cell(a, b) != m0.cell(a, b) ==> in_some_room(rooms@, a, b),
        decreases regions@.len() - ri,
    {
        let (x, y, rw_, rh_) = regions[ri];
        assert(rect_within(regions@[ri as int], rx as int, ry as int, rw as int, rh as int));
        if rw_ >= 3 && rh_ >= 3 {
            let ix0 = x + 1;
            let iy0 = y + 1;
            let iw = rw_ - 2;
            let ih = rh_ - 2;
            assert(iw * ih <= width * height) by (nonlinear_arith)
                requires
                    iw <= width,
                    ih <= height,
            ;
            let area = iw * ih;
            let mut cnt: usize = 0;
            let mut yy = iy0;
            while yy < iy0 + ih
                invariant
                    iy0 <= yy <= iy0 + ih,
                    1 <= ix0,
                    1 <= iy0,
                    ix0 + iw <= width - 1,
                    iy0 + ih <= height - 1,
                    mask.len() == width * height,
                    area == iw * ih,
                    cnt <= (yy - iy0) * iw,
                    cnt == mask_block(mask@, w, ix0 as int, iy0 as int, iw as int, yy - iy0),
                    w == width,
                decreases iy0 + ih - yy,
            {
                let mut xx = ix0;
                while xx < ix0 + iw
                    invariant
                        ix0 <= xx <= ix0 + iw,
                        iy0 <= yy < iy0 + ih,
                        1 <= ix0,
                        1 <= iy0,
                        ix0 + iw <= width - 1,
                        iy0 + ih <= height - 1,
                        mask.len() == width * height,
                        area == iw * ih,
                        cnt <= (yy - iy0) * iw + (xx - ix0),
                        cnt == mask_block(mask@, w, ix0 as int, iy0 as int, iw as int, yy - iy0) + mask_run(mask@, w, ix0 as int, yy as int, xx - ix0),
                        w == width,
                    decreases ix0 + iw - xx,
                {
                    proof {
                        lemma_index_in_bounds(xx as int, yy as int, width as int, height as int);
                    }
                    assert((yy - iy0) * iw + (xx - ix0) < iw * ih) by (nonlinear_arith)
                        requires
                            iy0 <= yy < iy0 + ih,
                            ix0 <= xx < ix0 + iw,
                    ;
                    assert(mask_run(mask@, w, ix0 as int, yy as int, xx - ix0 + 1) == mask_run(mask@, w, ix0 as int, yy as int, xx - ix0) + if mask@[yy * width + xx] { 1int } else { 0int });
                    if mask[yy * width + xx] {
                        cnt = cnt + 1;
                    }
                    xx = xx + 1;
                }
                assert((yy - iy0) * iw + iw == (yy + 1 - iy0) * iw) by (nonlinear_arith);
                assert(mask_block(mask@, w, ix0 as int, iy0 as int, iw as int, yy - iy0 + 1) == mask_block(mask@, w, ix0 as int, iy0 as int, iw as int, yy - iy0) + mask_run(mask@, w, ix0 as int, yy as int, iw as int));
                yy = yy + 1;
            }
            assert(cnt <= area) by (nonlinear_arith)
                requires
                    cnt <= (yy - iy0) * iw,
                    yy == iy0 + ih,
                    area == iw * ih,
            ;
            // Skip regions that are mostly VOID; the others are carved as solid
            // rectangles so rooms read as rooms.
            if !(cnt < area - cnt) {
                let mut yy = iy0;
                while yy < iy0 + ih
                    invariant
                        iy0 <= yy <= iy0 + ih,
                        1 <= ix0,
                        1 <= iy0,
                        1 <= iw,
                        1 <= ih,
                        ix0 + iw <= width - 1,
                        iy0 + ih <= height - 1,
                        m0.spec_width() == width,
                        m0.spec_height() == height,
                        carved_from(&m0, map),
                        w == width,
                        h == height,
                        forall|i: int| 0 <= i < rooms@.len() ==> room_inside(#[trigger] rooms@[i], w, h),
                        forall|i: int, a: int, b: int|
                            #![trigger rooms@[i], map.cell(a, b)]
                            0 <= i < rooms@.len() && in_room(rooms@[i], a, b) ==> map.cell(a, b) == TILE_EMPTY,
                        forall|a: int, b: int|
                            ix0 <= a < ix0 + iw && iy0 <= b < yy ==> #[trigger] map.cell(a, b) == TILE_EMPTY,
                        forall|a: int, b: int|
                            m0.in_bounds(a, b) && #[trigger] map.cell(a, b) != m0.cell(a, b) ==> in_some_room(rooms@, a, b) || (ix0 <= a < ix0 + iw && iy0 <= b < iy0 + ih),
                    decreases iy0 + ih - yy,
                {
                    let mut xx = ix0;
                    while xx < ix0 + iw
                        invariant
                            ix0 <= xx <= ix0 + iw,
                            iy0 <= yy < iy0 + ih,
                            1 <= ix0,
                            1 <= iy0,
                            ix0 + iw <= width - 1,
                            iy0 + ih <= height - 1,
                            m0.spec_width() == width,
                            m0.spec_height() == height,
                            carved_from(&m0, map),
                            w == width,
                            h == height,
                            forall|i: int| 0 <= i < rooms@.len() ==> room_inside(#[trigger] rooms@[i], w, h),
                            forall|i: int, a: int, b: int|
                                #![trigger rooms@[i], map.cell(a, b)]
                                0 <= i < rooms@.len() && in_room(rooms@[i], a, b) ==> map.cell(a, b) == TILE_EMPTY,
                            forall|a: int, b: int|
                                ix0 <= a < ix0 + iw && iy0 <= b < yy ==> #[trigger] map.cell(a, b) == TILE_EMPTY,
                            forall|a: int, b: int|
                                m0.in_bounds(a, b) && #[trigger] map.cell(a, b) != m0.cell(a, b) ==> in_some_room(rooms@, a, b) || (ix0 <= a < ix0 + iw && iy0 <= b < iy0 + ih),
                            forall|a: int| ix0 <= a < xx ==> #[trigger] map.cell(a, yy as int) == TILE_EMPTY,
                        decreases ix0 + iw - xx,
                    {
                        let ghost before = *map;
                        carve(map, xx, yy, Ghost(m0));
                        proof {
                            assert forall|i: int, a: int, b: int|
                                #![trigger rooms@[i], map.cell(a, b)]
                                0 <= i < rooms@.len() && in_room(rooms@[i], a, b) implies map.cell(a, b) == TILE_EMPTY by {
                                assert(room_inside(rooms@[i], w, h));
                                assert(before.cell(a, b) == TILE_EMPTY);
                            }
                        }
                        xx = xx + 1;
                    }
                    yy = yy + 1;
                }
                let ghost rs = rooms@;
                assert(on_even_grid(regions@[ri as int]));
                rooms.push(Room { x: ix0, y: iy0, w: iw, h: ih });
                assert forall|i: int| 0 <= i < rooms@.len() implies #[trigger] rooms@[i].x % 2 == 1 && rooms@[i].y % 2 == 1 by {
                    if i < rs.len() {
                        assert(rooms@[i] == rs[i]);
                    }
                }
                proof {
                    let src0 = src;
                    src = src.push(ri as int);
                    assert(room_in_region(rooms@[rs.len() as int], regions@[ri as int]));
                    assert forall|i: int| 0 <= i < rooms@.len() implies room_in_region(#[trigger] rooms@[i], regions@[src[i]]) by {
                        if i < rs.len() {
                            assert(rooms@[i] == rs[i]);
                            assert(src[i] == src0[i]);
                        }
                    }
                    assert forall|i: int, j: int| 0 <= i < j < src.len() implies #[trigger] src[i] < #[trigger] src[j] by {
                        if j < src0.len() {
                            assert(src[i] == src0[i] && src[j] == src0[j]);
                        } else {
                            assert(src[i] == src0[i]);
                        }
                    }
                    assert forall|a: int, b: int|
                        m0.in_bounds(a, b) && #[trigger] map.cell(a, b) != m0.cell(a, b) implies in_some_room(rooms@, a, b) by {
                        if in_some_room(rs, a, b) {
                            let i = choose|i: int| 0 <= i < rs.len() && #[trigger] in_room(rs[i], a, b);
                            assert(rooms@[i] == rs[i]);
                            assert(in_room(rooms@[i], a, b));
                        } else {
                            assert(in_room(rooms@[rs.len() as int], a, b));
                        }
                    }
                    assert forall|i: int| 0 <= i < rooms@.len() implies room_inside(#[trigger] rooms@[i], w, h) by {
                        if i < rs.len() {
                            assert(rooms@[i] == rs[i]);
                        }
                    }
                    assert forall|i: int, a: int, b: int|
                        #![trigger rooms@[i], map.cell(a, b)]
                        0 <= i < rooms@.len() && in_room(rooms@[i], a, b) implies map.cell(a, b) == TILE_EMPTY by {
                        if i < rs.len() {
                            assert(rooms@[i] == rs[i]);
                        }
                    }
                }
            }
        }
        proof {
            assert(leaf_rooms(mask@, w, regions@, ri + 1) == leaf_rooms(mask@, w, regions@, ri as int) + match leaf_room(mask@, w, regions@[ri as int]) {
                Some(r) => seq![r],
                None => seq![],
            });
        }
        ri = ri + 1;
    }
    // Carve the corridors (width 3) in the gaps between children.
    let mut corridor_cells: Vec<(usize, usize)> = Vec::new();
    let ghost mut cell_src: Seq<int> = Seq::empty();
    let mut ci: usize = 0;
    while ci < corridors.len()
        invariant
            0 <= ci <= corridors@.len(),
            w == width,
            h == height,
            m0.spec_width() == width,
            m0.spec_height() == height,
            3 <= width <= i32::MAX,
            3 <= height <= i32::MAX,
            forall|i: int| 0 <= i < corridors@.len() ==> strip_within(#[trigger] corridors@[i], rx as int, ry as int, rw as int, rh as int),
            rx + rw <= width,
            ry + rh <= height,
            carved_from(&m0, map),
            forall|i: int| 0 <= i < rooms@.len() ==> room_inside(#[trigger] rooms@[i], w, h),
            forall|i: int, a: int, b: int|
                #![trigger rooms@[i], map.cell(a, b)]
                0 <= i < rooms@.len() && in_room(rooms@[i], a, b) ==> map.cell(a, b) == TILE_EMPTY,
            forall|k: int|
                0 <= k < corridor_cells@.len() ==> interior(w, h, #[trigger] corridor_cells@[k].0 as int, corridor_cells@[k].1 as int)
                    && map.cell(corridor_cells@[k].0 as int, corridor_cells@[k].1 as int) == TILE_EMPTY,
            forall|a: int, b: int|
                m0.in_bounds(a, b) && #[trigger] map.cell(a, b) != m0.cell(a, b) ==> in_some_room(rooms@, a, b) || listed_cell(corridor_cells@, a, b),
            cell_src.len() == corridor_cells@.len(),
            forall|k: int|
                0 <= k < cell_src.len() ==> 0 <= #[trigger] cell_src[k] < corridors@.len() && in_strip(corridors@[cell_src[k]], corridor_cells@[k].0 as int, corridor_cells@[k].1 as int),
            forall|j: int, a: int, b: int|
                0 <= j < ci && #[trigger] in_strip(corridors@[j], a, b) && interior(w, h, a, b) ==> listed_cell(corridor_cells@, a, b),
        decreases corridors@.len() - ci,
    {
        let horizontal = corridors[ci].horizontal;
        let pos = corridors[ci].pos;
        let from = corridors[ci].from;
        let to = corridors[ci].to;
        assert(strip_within(corridors@[ci as int], rx as int, ry as int, rw as int, rh as int));
        // Rows (for a horizontal strip) or columns (vertical) across the strip,
        // then cells along it.
        let (limit_across, limit_along) = if horizontal { (height, width) } else { (width, height) };
        let mut across = pos + 1;
        while across <= pos + 3
            invariant
                pos + 1 <= across <= pos + 4,
                pos + 4 <= limit_across,
                to + 2 <= limit_along || to < from,
                from >= 1,
                (limit_across, limit_along) == if horizontal { (height, width) } else { (width, height) },
                w == width,
                h == height,
                m0.spec_width() == width,
                m0.spec_height() == height,
                3 <= width <= i32::MAX,
                3 <= height <= i32::MAX,
                carved_from(&m0, map),
                forall|i: int| 0 <= i < rooms@.len() ==> room_inside(#[trigger] rooms@[i], w, h),
                forall|i: int, a: int, b: int|
                    #![trigger rooms@[i], map.cell(a, b)]
                    0 <= i < rooms@.len() && in_room(rooms@[i], a, b) ==> map.cell(a, b) == TILE_EMPTY,
                forall|k: int|
                    0 <= k < corridor_cells@.len() ==> interior(w, h, #[trigger] corridor_cells@[k].0 as int, corridor_cells@[k].1 as int)
                        && map.cell(corridor_cells@[k].0 as int, corridor_cells@[k].1 as int) == TILE_EMPTY,
                forall|a: int, b: int|
                    m0.in_bounds(a, b) && #[trigger] map.cell(a, b) != m0.cell(a, b) ==> in_some_room(rooms@, a, b) || listed_cell(corridor_cells@, a, b),
                cell_src.len() == corridor_cells@.len(),
                forall|k: int|
                    0 <= k < cell_src.len() ==> 0 <= #[trigger] cell_src[k] < corridors@.len() && in_strip(corridors@[cell_src[k]], corridor_cells@[k].0 as int, corridor_cells@[k].1 as int),
                ci < corridors@.len(),
                horizontal == corridors@[ci as int].horizontal && pos == corridors@[ci as int].pos && from == corridors@[ci as int].from && to == corridors@[ci as int].to,
                forall|j: int, a: int, b: int|
                    0 <= j < ci && #[trigger] in_strip(corridors@[j], a, b) && interior(w, h, a, b) ==> listed_cell(corridor_cells@, a, b),
                forall|a: int, b: int|
                    #[trigger] in_strip(corridors@[ci as int], a, b) && interior(w, h, a, b) && strip_across(corridors@[ci as int], a, b) < across
                        ==> listed_cell(corridor_cells@, a, b),
            decreases pos + 4 - across,
        {
            if across >= 1 && across < limit_across - 1 && from <= to {
                let mut along = from;
                while along <= to
                    invariant
                        from <= along,
                        along <= to + 1,
                        to + 2 <= limit_along,
                        from >= 1,
                        1 <= across < limit_across - 1,
                        (limit_across, limit_along) == if horizontal { (height, width) } else { (width, height) },
                        w == width,
                        h == height,
                        m0.spec_width() == width,
                        m0.spec_height() == height,
                        3 <= width <= i32::MAX,
                        3 <= height <= i32::MAX,
                        carved_from(&m0, map),
                        forall|i: int| 0 <= i < rooms@.len() ==> room_inside(#[trigger] rooms@[i], w, h),
                        forall|i: int, a: int, b: int|
                            #![trigger rooms@[i], map.cell(a, b)]
                            0 <= i < rooms@.len() && in_room(rooms@[i], a, b) ==> map.cell(a, b) == TILE_EMPTY,
                        forall|k: int|
                            0 <= k < corridor_cells@.len() ==> interior(w, h, #[trigger] corridor_cells@[k].0 as int, corridor_cells@[k].1 as int)
                                && map.cell(corridor_cells@[k].0 as int, corridor_cells@[k].1 as int) == TILE_EMPTY,
                        forall|a: int, b: int|
                            m0.in_bounds(a, b) && #[trigger] map.cell(a, b) != m0.cell(a, b) ==> in_some_room(rooms@, a, b) || listed_cell(corridor_cells@, a, b),
                        cell_src.len() == corridor_cells@.len(),
                        forall|k: int|
                            0 <= k < cell_src.len() ==> 0 <= #[trigger] cell_src[k] < corridors@.len() && in_strip(corridors@[cell_src[k]], corridor_cells@[k].0 as int, corridor_cells@[k].1 as int),
                        ci < corridors@.len(),
                        horizontal == corridors@[ci as int].horizontal && pos == corridors@[ci as int].pos && from == corridors@[ci as int].from && to == corridors@[ci as int].to,
                        pos + 1 <= across <= pos + 3,
                        forall|j: int, a: int, b: int|
                            0 <= j < ci && #[trigger] in_strip(corridors@[j], a, b) && interior(w, h, a, b) ==> listed_cell(corridor_cells@, a, b),
                        forall|a: int, b: int|
                            #[trigger] in_strip(corridors@[ci as int], a, b) && interior(w, h, a, b) && (strip_across(corridors@[ci as int], a, b) < across || (
                            strip_across(corridors@[ci as int], a, b) == across && strip_along(corridors@[ci as int], a, b) < along)) ==> listed_cell(corridor_cells@, a, b),
                    decreases to + 1 - along,
                {
                    if along >= 1 && along < limit_along - 1 {
                        let (cx, cy) = if horizontal { (along, across) } else { (across, along) };
                        let ghost before = *map;
                        carve(map, cx, cy, Ghost(m0));
                        let ghost cc = corridor_cells@;
                        corridor_cells.push((cx, cy));
                        proof {
                            assert forall|i: int, a: int, b: int|
                                #![trigger rooms@[i], map.cell(a, b)]
                                0 <= i < rooms@.len() && in_room(rooms@[i], a, b) implies map.cell(a, b) == TILE_EMPTY by {
                                assert(room_inside(rooms@[i], w, h));
                                assert(before.cell(a, b) == TILE_EMPTY);
                            }
                            assert forall|k: int|
                                0 <= k < corridor_cells@.len() implies interior(w, h, #[trigger] corridor_cells@[k].0 as int, corridor_cells@[k].1 as int)
                                    && map.cell(corridor_cells@[k].0 as int, corridor_cells@[k].1 as int) == TILE_EMPTY by {
                                if k < cc.len() {
                                    assert(corridor_cells@[k] == cc[k]);
                                    assert(before.cell(cc[k].0 as int, cc[k].1 as int) == TILE_EMPTY);
                                }
                            }
                            let cs0 = cell_src;
                            cell_src = cell_src.push(ci as int);
                            assert forall|k: int|
                                0 <= k < cell_src.len() implies 0 <= #[trigger] cell_src[k] < corridors@.len() && in_strip(corridors@[cell_src[k]], corridor_cells@[k].0 as int, corridor_cells@[k].1 as int) by {
                                if k < cc.len() {
                                    assert(corridor_cells@[k] == cc[k]);
                                    assert(cell_src[k] == cs0[k]);
                                }
                            }
                            assert(corridor_cells@ == cc.push((cx, cy)));
                            assert(corridor_cells@[cc.len() as int] == (cx, cy));
                            assert forall|j: int, a: int, b: int|
                                0 <= j < ci && #[trigger] in_strip(corridors@[j], a, b) && interior(w, h, a, b) implies listed_cell(corridor_cells@, a, b) by {
                                lemma_listed_push(cc, (cx, cy), a, b);
                            }
                            assert forall|a: int, b: int|
                                #[trigger] in_strip(corridors@[ci as int], a, b) && interior(w, h, a, b) && (strip_across(corridors@[ci as int], a, b) < across || (
                                strip_across(corridors@[ci as int], a, b) == across && strip_along(corridors@[ci as int], a, b) < along + 1)) implies listed_cell(corridor_cells@, a, b) by {
                                if a == cx && b == cy {
                                } else {
                                    lemma_listed_push(cc, (cx, cy), a, b);
                                }
                            }
                            assert forall|a: int, b: int|
                                m0.in_bounds(a, b) && #[trigger] map.cell(a, b) != m0.cell(a, b) implies in_some_room(rooms@, a, b) || listed_cell(corridor_cells@, a, b) by {
                                if a == cx && b == cy {
                                    assert(corridor_cells@[cc.len() as int] == (cx, cy));
                                } else {
                                    assert(map.cell(a, b) == before.cell(a, b));
                                    if listed_cell(cc, a, b) {
                                        let k = choose|k: int| 0 <= k < cc.len() && #[trigger] cc[k].0 == a && cc[k].1 == b;
                                        assert(corridor_cells@[k] == cc[k]);
                                    }
                                }
                            }
                        }
                    }
                    along = along + 1;
                }
            }
            across = across + 1;
        }
        ci = ci + 1;
    }
    proof {
        assert forall|k: int| 0 <= k < corridor_cells@.len() implies #[trigger] in_some_strip(
            corridors@,
            corridor_cells@[k].0 as int,
            corridor_cells@[k].1 as int,
        ) by {
            assert(in_strip(corridors@[cell_src[k]], corridor_cells@[k].0 as int, corridor_cells@[k].1 as int));
        }
        assert(strips_cover(corridors@, corridor_cells@));
        assert forall|i: int, k: int|
            #![trigger rooms@[i], corridor_cells@[k]]
            0 <= i < rooms@.len() && 0 <= k < corridor_cells@.len() implies !in_room(
                rooms@[i],
                corridor_cells@[k].0 as int,
                corridor_cells@[k].1 as int,
            ) by {
            let j = src[i];
            let t = cell_src[k];
            assert(room_in_region(rooms@[i], regions@[j]));
            assert(clear_of(corridors@[t], regions@[j]));
            assert(in_strip(corridors@[t], corridor_cells@[k].0 as int, corridor_cells@[k].1 as int));
        }
    }
    let res = (rooms, corridor_cells);
    assert(corridors@.len() <= 2 && strips_cover(corridors@, res.1@));
    assert(laid_out(island_nodes@, mask@, w, h, bx, regions@, corridors@, res.0@, res.1@));
    res
}

} // verus!
