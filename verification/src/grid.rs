//! Row-major indexing of a `width` x `height` grid.

use vstd::prelude::*;

verus! {

/// The row-major index of cell `(x, y)` in a grid `w` columns wide.
pub open spec fn cell_index(w: int, x: int, y: int) -> int {
    y * w + x
}

/// Number of `true` entries in `s`.
pub open spec fn count_true(s: Seq<bool>) -> nat
    decreases s.len(),
{
    if s.len() == 0 {
        0
    } else {
        count_true(s.drop_last()) + if s.last() {
            1nat
        } else {
            0nat
        }
    }
}

/// At most every entry is `true`.
pub proof fn lemma_count_true_bound(s: Seq<bool>)
    ensures
        count_true(s) <= s.len(),
    decreases s.len(),
{
    if s.len() > 0 {
        lemma_count_true_bound(s.drop_last());
    }
}

/// Setting a `false` entry to `true` adds one.
pub proof fn lemma_count_true_set(s: Seq<bool>, i: int)
    requires
        0 <= i < s.len(),
        !s[i],
    ensures
        count_true(s.update(i, true)) == count_true(s) + 1,
    decreases s.len(),
{
    let t = s.update(i, true);
    if i == s.len() - 1 {
        assert(t.drop_last() =~= s.drop_last());
    } else {
        assert(t.drop_last() =~= s.drop_last().update(i, true));
        lemma_count_true_set(s.drop_last(), i);
    }
}

/// An all-`false` sequence counts zero.
pub proof fn lemma_count_true_none(s: Seq<bool>)
    requires
        forall|i: int| 0 <= i < s.len() ==> !s[i],
    ensures
        count_true(s) == 0,
    decreases s.len(),
{
    if s.len() > 0 {
        lemma_count_true_none(s.drop_last());
    }
}

/// The row-major index of an in-bounds cell lies inside the buffer.
pub proof fn lemma_index_in_bounds(x: int, y: int, w: int, h: int)
    requires
        0 <= x < w,
        0 <= y < h,
    ensures
        0 <= y * w + x < w * h,
        y * w + x <= w * h - 1,
        w * h == h * w,
{
    assert(0 <= y * w + x < w * h) by (nonlinear_arith)
        requires
            0 <= x < w,
            0 <= y < h,
    ;
    assert(w * h == h * w) by (nonlinear_arith);
}

/// Distinct in-bounds cells have distinct row-major indices.
pub proof fn lemma_index_injective(a: int, b: int, x: int, y: int, w: int)
    requires
        0 <= a < w,
        0 <= x < w,
        0 <= b,
        0 <= y,
    ensures
        (b * w + a == y * w + x) <==> (a == x && b == y),
{
    if b * w + a == y * w + x {
        if b < y {
            assert(b * w + a < y * w + x) by (nonlinear_arith)
                requires
                    b < y,
                    0 <= a < w,
                    0 <= x,
            ;
        } else if b > y {
            assert(b * w + a > y * w + x) by (nonlinear_arith)
                requires
                    b > y,
                    0 <= x < w,
                    0 <= a,
            ;
        }
    }
}

/// An in-bounds index decodes back to its column and row.
pub proof fn lemma_index_decode(i: int, w: int)
    requires
        0 <= i,
        0 < w,
    ensures
        i == (i / w) * w + i % w,
        0 <= i % w < w,
        0 <= i / w,
{
    assert(i == (i / w) * w + i % w) by (nonlinear_arith)
        requires
            0 < w,
    ;
}

} // verus!
