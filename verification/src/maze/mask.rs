//! The playable-area mask of a floor and its connected islands.
//!
//! Nodes sit at odd coordinates; a node's four neighbours are two cells away.

use vstd::prelude::*;
use std::collections::VecDeque;
use crate::grid::{cell_index, count_true, lemma_count_true_bound, lemma_count_true_set, lemma_count_true_none, lemma_index_decode, lemma_index_in_bounds, lemma_index_injective};
use crate::rng::{gen_range_inclusive, shuffle};
use rand::rngs::StdRng;

verus! {

/// `(x, y)` is a node: both coordinates odd and strictly inside a `w` x `h` grid.
pub open spec fn is_node(w: int, h: int, x: int, y: int) -> bool {
    &&& 1 <= x <= w - 2
    &&& 1 <= y <= h - 2
    &&& x % 2 == 1
    &&& y % 2 == 1
}

/// Flat index of a node among all nodes.
pub open spec fn node_idx(x: int, y: int, node_cols: int) -> int {
    (y / 2) * node_cols + x / 2
}

/// Number of node slots of a `w` x `h` grid.
pub open spec fn max_nodes(w: int, h: int) -> int {
    (h / 2) * ((w - 1) / 2) + (w - 1) / 2
}

/// Every node has a slot below `max_nodes`, and distinct nodes have distinct slots.
pub proof fn lemma_node_slot(w: int, h: int, x: int, y: int)
    requires
        is_node(w, h, x, y),
    ensures
        0 <= node_idx(x, y, (w - 1) / 2) < max_nodes(w, h),
        max_nodes(w, h) <= w * h,
{
    let nc = (w - 1) / 2;
    assert(x / 2 < nc);
    assert(0 <= y / 2 <= h / 2);
    assert((y / 2) * nc <= (h / 2) * nc) by (nonlinear_arith)
        requires
            0 <= y / 2 <= h / 2,
            0 <= nc,
    ;
    assert(0 <= (y / 2) * nc) by (nonlinear_arith)
        requires
            0 <= y / 2,
            0 <= nc,
    ;
    assert(max_nodes(w, h) <= w * h) by (nonlinear_arith)
        requires
            nc == (w - 1) / 2,
            3 <= w,
            3 <= h,
            max_nodes(w, h) == (h / 2) * nc + nc,
    ;
}

/// Distinct nodes have distinct slots.
pub proof fn lemma_node_slot_injective(w: int, h: int, x1: int, y1: int, x2: int, y2: int)
    requires
        is_node(w, h, x1, y1),
        is_node(w, h, x2, y2),
    ensures
        (node_idx(x1, y1, (w - 1) / 2) == node_idx(x2, y2, (w - 1) / 2)) <==> (x1 == x2 && y1
            == y2),
{
    let nc = (w - 1) / 2;
    lemma_index_injective(x1 / 2, y1 / 2, x2 / 2, y2 / 2, nc);
}

/// Compute the flat index for a node at odd coordinates `(x, y)`.
/// `node_cols` is `(map_width - 1) / 2`.
pub fn node_index(x: usize, y: usize, node_cols: usize) -> (r: usize)
    requires
        node_idx(x as int, y as int, node_cols as int) <= usize::MAX,
    ensures
        r == node_idx(x as int, y as int, node_cols as int),
{
    assert(0 <= (y / 2) * node_cols <= (y / 2) * node_cols + x / 2) by (nonlinear_arith);
    (y / 2) * node_cols + (x / 2)
}

/// Maximum number of nodes for a given grid size (the length of per-node arrays).
pub fn max_node_count(width: usize, height: usize) -> (r: usize)
    requires
        1 <= width,
        max_nodes(width as int, height as int) <= usize::MAX,
    ensures
        r == max_nodes(width as int, height as int),
{
    let node_cols = (width - 1) / 2;
    assert(0 <= (height / 2) * node_cols <= (height / 2) * node_cols + node_cols) by (nonlinear_arith);
    (height / 2) * node_cols + node_cols
}

/// A border cell of a `w` x `h` grid.
pub open spec fn on_border(w: int, h: int, x: int, y: int) -> bool {
    0 <= x < w && 0 <= y < h && (x == 0 || y == 0 || x == w - 1 || y == h - 1)
}

/// Step `d` of the node grid (east, west, south, north; two cells each).
pub open spec fn node_dx(d: int) -> int {
    if d == 0 {
        2
    } else if d == 1 {
        -2
    } else {
        0
    }
}

/// Row step `d` of the node grid.
pub open spec fn node_dy(d: int) -> int {
    if d == 2 {
        2
    } else if d == 3 {
        -2
    } else {
        0
    }
}

/// The four node-grid steps, east, west, south, north.
pub fn dfs_dirs() -> (v: Vec<(i32, i32)>)
    ensures
        v@.len() == 4,
        forall|d: int| 0 <= d < 4 ==> #[trigger] v@[d] == (node_dx(d) as i32, node_dy(d) as i32),
{
    let mut v: Vec<(i32, i32)> = Vec::new();
    v.push((2, 0));
    v.push((-2, 0));
    v.push((0, 2));
    v.push((0, -2));
    v
}

/// Every entry of a shuffled vector was an entry before.
pub proof fn lemma_shuffled_from<T>(old_v: Seq<T>, v: Seq<T>, k: int)
    requires
        v.to_multiset() == old_v.to_multiset(),
        0 <= k < v.len(),
    ensures
        old_v.contains(v[k]),
{
    broadcast use vstd::seq_lib::group_to_multiset_ensures;

    assert(v.contains(v[k]));
    assert(v.to_multiset().count(v[k]) > 0);
}

/// The neighbour of node `(cx, cy)` in direction `(dx, dy)`, when it is a node.
fn node_neighbor(cx: usize, cy: usize, dx: i32, dy: i32, width: usize, height: usize) -> (r: Option<(usize, usize)>)
    requires
        3 <= width <= i32::MAX,
        3 <= height <= i32::MAX,
        is_node(width as int, height as int, cx as int, cy as int),
        exists|d: int| 0 <= d < 4 && dx == node_dx(d) && dy == node_dy(d),
    ensures
        match r {
            Some((nx, ny)) => nx == cx + dx && ny == cy + dy && is_node(
                width as int,
                height as int,
                nx as int,
                ny as int,
            ),
            None => !(0 < cx + dx < width - 1 && 0 < cy + dy < height - 1),
        },
{
    let nx = cx as i32 + dx;
    let ny = cy as i32 + dy;
    if nx > 0 && nx < (width - 1) as i32 && ny > 0 && ny < (height - 1) as i32 {
        Some((nx as usize, ny as usize))
    } else {
        None
    }
}

/// Number of nodes of a `w` x `h` grid.
pub open spec fn node_count(w: int, h: int) -> int {
    ((w - 1) / 2) * ((h - 1) / 2)
}

/// The `i`-th node of a grid `w` cells wide, in row-major order.
pub open spec fn nth_node(w: int, i: int) -> (int, int) {
    (2 * (i % ((w - 1) / 2)) + 1, 2 * (i / ((w - 1) / 2)) + 1)
}

/// How many nodes the mask marks.
pub open spec fn masked_nodes(mask: Seq<bool>, w: int, h: int) -> nat {
    count_true(
        Seq::new(
            node_count(w, h) as nat,
            |i: int| mask[cell_index(w, nth_node(w, i).0, nth_node(w, i).1)],
        ),
    )
}

/// `p` percent of `n`, rounded down.
pub open spec fn percent_of(n: int, p: int) -> int {
    (n / 100) * p + (n % 100) * p / 100
}

/// A cell between two neighbouring nodes is marked exactly when both nodes
/// are (a cell next to the border with no node beyond it stays unmarked).
pub open spec fn mask_joins(mask: Seq<bool>, w: int, h: int) -> bool {
    &&& forall|x: int, y: int|
        1 <= x < w - 1 && 1 <= y < h - 1 && x % 2 == 0 && y % 2 == 1 ==> #[trigger] mask[cell_index(
            w,
            x,
            y,
        )] == (x + 1 < w - 1 && mask[cell_index(w, x - 1, y)] && mask[cell_index(w, x + 1, y)])
    &&& forall|x: int, y: int|
        1 <= x < w - 1 && 1 <= y < h - 1 && x % 2 == 1 && y % 2 == 0 ==> #[trigger] mask[cell_index(
            w,
            x,
            y,
        )] == (y + 1 < h - 1 && mask[cell_index(w, x, y - 1)] && mask[cell_index(w, x, y + 1)])
}

/// The `i`-th node is a node, and its slot is `i`.
proof fn lemma_nth_node(w: int, h: int, i: int)
    requires
        3 <= w,
        3 <= h,
        0 <= i < node_count(w, h),
    ensures
        is_node(w, h, nth_node(w, i).0, nth_node(w, i).1),
        node_idx(nth_node(w, i).0, nth_node(w, i).1, (w - 1) / 2) == i,
{
    let nc = (w - 1) / 2;
    let rows = (h - 1) / 2;
    lemma_index_decode(i, nc);
    let q = i / nc;
    let r = i % nc;
    assert(q < rows) by (nonlinear_arith)
        requires
            i == q * nc + r,
            0 <= r < nc,
            0 <= q,
            i < rows * nc,
    ;
    assert((2 * r + 1) / 2 == r);
    assert((2 * q + 1) / 2 == q);
}

/// A node's slot lies below the node count, and counting it back gives the
/// node.
proof fn lemma_node_slot_count(w: int, h: int, x: int, y: int)
    requires
        3 <= w,
        3 <= h,
        is_node(w, h, x, y),
    ensures
        0 <= node_idx(x, y, (w - 1) / 2) < node_count(w, h),
        nth_node(w, node_idx(x, y, (w - 1) / 2)) == (x, y),
{
    let nc = (w - 1) / 2;
    let rows = (h - 1) / 2;
    let q = y / 2;
    let r = x / 2;
    let i = q * nc + r;
    assert(r < nc);
    assert(q < rows);
    assert(0 <= i < rows * nc) by (nonlinear_arith)
        requires
            0 <= r < nc,
            0 <= q < rows,
            i == q * nc + r,
    ;
    vstd::arithmetic::div_mod::lemma_fundamental_div_mod_converse(i, nc, q, r);
}

/// The selection is closed under node steps.
pub open spec fn step_closed(sel: Seq<bool>, w: int, h: int) -> bool {
    forall|x: int, y: int, a: int, b: int|
        #![trigger seen(sel, (w - 1) / 2, x, y), seen(sel, (w - 1) / 2, a, b)]
        is_node(w, h, x, y) && is_node(w, h, a, b) && node_step((x, y), (a, b)) && seen(
            sel,
            (w - 1) / 2,
            x,
            y,
        ) ==> seen(sel, (w - 1) / 2, a, b)
}

/// From `(1, 1)`, a selection closed under steps reaches row 1 to the right.
proof fn lemma_row_selected(sel: Seq<bool>, w: int, h: int, x: int)
    requires
        step_closed(sel, w, h),
        seen(sel, (w - 1) / 2, 1, 1),
        is_node(w, h, x, 1),
    ensures
        seen(sel, (w - 1) / 2, x, 1),
    decreases x,
{
    if x > 1 {
        lemma_row_selected(sel, w, h, x - 2);
        assert(node_step((x - 2, 1), (x, 1)));
    }
}

/// A selection that holds `(1, 1)` and is closed under steps holds every node.
pub proof fn lemma_all_selected(sel: Seq<bool>, w: int, h: int, x: int, y: int)
    requires
        step_closed(sel, w, h),
        seen(sel, (w - 1) / 2, 1, 1),
        is_node(w, h, x, y),
    ensures
        seen(sel, (w - 1) / 2, x, y),
    decreases y,
{
    if y > 1 {
        lemma_all_selected(sel, w, h, x, y - 2);
        assert(node_step((x, y - 2), (x, y)));
    } else {
        lemma_row_selected(sel, w, h, x);
    }
}

/// Every selected node with an unselected neighbour waits in `queue`.
pub open spec fn frontier_queued(sel: Seq<bool>, w: int, h: int, queue: Seq<(usize, usize)>) -> bool {
    forall|x: int, y: int, a: int, b: int|
        #![trigger seen(sel, (w - 1) / 2, x, y), seen(sel, (w - 1) / 2, a, b)]
        is_node(w, h, x, y) && is_node(w, h, a, b) && node_step((x, y), (a, b)) && seen(
            sel,
            (w - 1) / 2,
            x,
            y,
        ) && !seen(sel, (w - 1) / 2, a, b) ==> queue.contains((x as usize, y as usize))
}

/// Only slots of nodes are ever selected.
pub open spec fn only_node_slots(sel: Seq<bool>, w: int, h: int) -> bool {
    forall|i: int| 0 <= i < sel.len() && #[trigger] sel[i] ==> i < node_count(w, h)
}

/// Counting a sequence whose entries from `k` on are false counts its first
/// `k` entries.
proof fn lemma_count_true_prefix(s: Seq<bool>, k: int)
    requires
        0 <= k <= s.len(),
        forall|i: int| k <= i < s.len() ==> !s[i],
    ensures
        count_true(s) == count_true(s.take(k)),
    decreases s.len(),
{
    if s.len() > k {
        assert(s.drop_last().take(k) =~= s.take(k));
        lemma_count_true_prefix(s.drop_last(), k);
    } else {
        assert(s.take(k) =~= s);
    }
}

/// A sequence of trues counts its length.
proof fn lemma_count_true_all(s: Seq<bool>)
    requires
        forall|i: int| 0 <= i < s.len() ==> s[i],
    ensures
        count_true(s) == s.len(),
    decreases s.len(),
{
    if s.len() > 0 {
        lemma_count_true_all(s.drop_last());
    }
}

/// Generate a mask telling which cells belong to the playable area.
///
/// The mask covers the whole grid (`width` x `height`). Outer border cells are
/// always `true` (kept as walls); interior cells that stay `false` become VOID.
/// Random seed nodes (plus the spawn node `(1, 1)`) grow by random expansion to
/// 40-70% of all nodes (the spawn and seeds alone, at most five nodes, may be
/// more); each selected node and the cell between two adjacent selected nodes
/// are marked.
#[verifier::rlimit(50)]
pub fn generate_mask(width: usize, height: usize, rng: &mut StdRng) -> (mask: Vec<bool>)
    requires
        1 <= width <= i32::MAX,
        1 <= height <= i32::MAX,
        width * height <= usize::MAX,
    ensures
        mask.len() == width * height,
        forall|x: int, y: int|
            on_border(width as int, height as int, x, y) ==> #[trigger] mask@[cell_index(
                width as int,
                x,
                y,
            )],
        width >= 3 && height >= 3 ==> mask@[cell_index(width as int, 1, 1)],
        forall|x: int, y: int|
            1 <= x < width - 1 && 1 <= y < height - 1 && x % 2 == 0 && y % 2 == 0
                ==> !#[trigger] mask@[cell_index(width as int, x, y)],
        mask_joins(mask@, width as int, height as int),
        percent_of(node_count(width as int, height as int), 40) <= masked_nodes(
            mask@,
            width as int,
            height as int,
        ),
        masked_nodes(mask@, width as int, height as int) <= percent_of(
            node_count(width as int, height as int),
            70,
        ) || masked_nodes(mask@, width as int, height as int) <= 5,
{
    let ghost w = width as int;
    let ghost h = height as int;
    let mut mask: Vec<bool> = vec![false; width * height];
    assert forall|i: int| 0 <= i < w * h implies !mask@[i] by {
        assert(cloned(false, mask@[i]));
    }
    assert forall|a: int, b: int| 0 <= a < w && 0 <= b < h implies !#[trigger] mask@[cell_index(w, a, b)] by {
        lemma_index_in_bounds(a, b, w, h);
    }
    // Outer border is always true (wall boundary).
    let mut x: usize = 0;
    while x < width
        invariant
            0 <= x <= width,
            w == width,
            h == height,
            1 <= height,
            mask.len() == width * height,
            forall|a: int, b: int|
                0 <= a < w && 0 <= b < h ==> (#[trigger] mask@[cell_index(w, a, b)] <==> ((b == 0
                    || b == h - 1) && a < x)),
        decreases width - x,
    {
        proof {
            lemma_index_in_bounds(x as int, 0, w, h);
            lemma_index_in_bounds(x as int, h - 1, w, h);
        }
        let ghost m0 = mask@;
        mask.set(x, true);
        mask.set((height - 1) * width + x, true);
        proof {
            assert forall|a: int, b: int| 0 <= a < w && 0 <= b < h implies (#[trigger] mask@[cell_index(w, a, b)] <==> ((b == 0 || b == h - 1) && a < x + 1)) by {
                lemma_index_in_bounds(a, b, w, h);
                lemma_index_injective(a, b, x as int, 0, w);
                lemma_index_injective(a, b, x as int, h - 1, w);
                assert(mask@[cell_index(w, a, b)] == (m0[cell_index(w, a, b)] || cell_index(w, a, b) == cell_index(w, x as int, 0) || cell_index(w, a, b) == cell_index(w, x as int, h - 1)));
            }
        }
        x = x + 1;
    }
    let mut y: usize = 0;
    while y < height
        invariant
            0 <= y <= height,
            w == width,
            h == height,
            1 <= width,
            mask.len() == width * height,
            forall|a: int, b: int|
                0 <= a < w && 0 <= b < h ==> (#[trigger] mask@[cell_index(w, a, b)] <==> (b == 0
                    || b == h - 1 || ((a == 0 || a == w - 1) && b < y))),
        decreases height - y,
    {
        proof {
            lemma_index_in_bounds(0, y as int, w, h);
            lemma_index_in_bounds(w - 1, y as int, w, h);
        }
        let ghost m0 = mask@;
        mask.set(y * width, true);
        mask.set(y * width + (width - 1), true);
        proof {
            assert forall|a: int, b: int| 0 <= a < w && 0 <= b < h implies (#[trigger] mask@[cell_index(w, a, b)] <==> (b == 0 || b == h - 1 || ((a == 0 || a == w - 1) && b < y + 1))) by {
                lemma_index_in_bounds(a, b, w, h);
                lemma_index_injective(a, b, 0, y as int, w);
                lemma_index_injective(a, b, w - 1, y as int, w);
                assert(mask@[cell_index(w, a, b)] == (m0[cell_index(w, a, b)] || cell_index(w, a, b) == cell_index(w, 0, y as int) || cell_index(w, a, b) == cell_index(w, w - 1, y as int)));
            }
        }
        y = y + 1;
    }
    // All nodes (odd coordinates in the interior).
    let ghost nc = (w - 1) / 2;
    let mut all_nodes: Vec<(usize, usize)> = Vec::new();
    let mut y: usize = 1;
    assert(((y - 1) / 2) * nc == 0) by (nonlinear_arith)
        requires
            y == 1,
    ;
    while y + 1 < height
        invariant
            1 <= y <= height,
            y % 2 == 1,
            w == width,
            h == height,
            nc == (w - 1) / 2,
            1 <= width <= i32::MAX,
            height <= i32::MAX,
            all_nodes@.len() == ((y - 1) / 2) * nc,
            (y > 1 && width >= 3) ==> all_nodes@.len() > 0,
            forall|k: int| 0 <= k < all_nodes@.len() ==> is_node(w, h, #[trigger] all_nodes@[k].0 as int, all_nodes@[k].1 as int),
        decreases height - y,
    {
        let mut x: usize = 1;
        while x + 1 < width
            invariant
                1 <= x <= width,
                x % 2 == 1,
                1 <= y,
                y + 1 < height,
                y % 2 == 1,
                w == width,
                h == height,
                nc == (w - 1) / 2,
                1 <= width <= i32::MAX,
                height <= i32::MAX,
                all_nodes@.len() == ((y - 1) / 2) * nc + (x - 1) / 2,
                (x > 1 || (y > 1 && width >= 3)) ==> all_nodes@.len() > 0,
                forall|k: int| 0 <= k < all_nodes@.len() ==> is_node(w, h, #[trigger] all_nodes@[k].0 as int, all_nodes@[k].1 as int),
            decreases width - x,
        {
            all_nodes.push((x, y));
            x = x + 2;
        }
        assert((x - 1) / 2 == nc);
        assert(((y - 1) / 2) * nc + nc == ((y + 1) / 2) * nc) by (nonlinear_arith)
            requires
                y % 2 == 1,
                y >= 1,
        ;
        y = y + 2;
    }
    assert((y - 1) / 2 == (h - 1) / 2);
    assert(((h - 1) / 2) * nc == node_count(w, h)) by (nonlinear_arith)
        requires
            nc == (w - 1) / 2,
    ;
    assert(all_nodes@.len() == node_count(w, h));
    assert(height >= 3 ==> y > 1);
    if all_nodes.len() == 0 {
        proof {
            assert forall|x: int, y: int| on_border(w, h, x, y) implies #[trigger] mask@[cell_index(w, x, y)] by {}
            assert(!(width >= 3 && height >= 3)) by {
                if width >= 3 && height >= 3 {
                    assert(false);
                }
            }
            assert(Seq::new(node_count(w, h) as nat, |i: int| mask@[cell_index(w, nth_node(w, i).0, nth_node(w, i).1)]) =~= Seq::<bool>::empty());
        }
        return mask;
    }
    let ghost first = all_nodes@[0];
    assert(is_node(w, h, first.0 as int, first.1 as int));
    let total_nodes = all_nodes.len();
    let lo = (total_nodes / 100) * 40 + (total_nodes % 100) * 40 / 100;
    let hi = (total_nodes / 100) * 70 + (total_nodes % 100) * 70 / 100;
    let target_count = {
        let t = gen_range_inclusive(rng, lo, hi);
        if t < 1 { 1 } else { t }
    };
    // Place 2-4 seed points.
    let num_seeds = {
        let s = gen_range_inclusive(rng, 2, 4);
        if s < total_nodes { s } else { total_nodes }
    };
    let ghost nodes0 = all_nodes@;
    shuffle(&mut all_nodes, rng);
    proof {
        assert forall|k: int| 0 <= k < all_nodes@.len() implies is_node(w, h, #[trigger] all_nodes@[k].0 as int, all_nodes@[k].1 as int) by {
            lemma_shuffled_from(nodes0, all_nodes@, k);
            let j = choose|j: int| 0 <= j < nodes0.len() && nodes0[j] == all_nodes@[k];
        }
        lemma_node_slot(w, h, first.0 as int, first.1 as int);
    }
    let node_cols = (width - 1) / 2;
    let n_slots = max_node_count(width, height);
    let mut selected: Vec<bool> = vec![false; n_slots];
    assert forall|i: int| 0 <= i < n_slots implies !selected@[i] by {
        assert(cloned(false, selected@[i]));
    }
    let mut selected_count: usize = 0;
    proof {
        lemma_count_true_none(selected@);
    }
    let mut queue: Vec<(usize, usize)> = Vec::new();
    assert(frontier_queued(selected@, w, h, queue@)) by {
        assert forall|x: int, y: int| is_node(w, h, x, y) implies !seen(selected@, (w - 1) / 2, x, y) by {
            lemma_node_slot(w, h, x, y);
        }
    }
    assert(only_node_slots(selected@, w, h));
    // Always include the spawn node (1, 1) so the player's start is playable.
    proof {
        lemma_node_slot(w, h, 1, 1);
        lemma_node_slot_count(w, h, 1, 1);
    }
    let ni = node_index(1, 1, node_cols);
    if !selected[ni] {
        proof {
            lemma_count_true_set(selected@, ni as int);
            lemma_count_true_bound(selected@.update(ni as int, true));
            lemma_select_push(selected@, w, h, queue@, 1, 1);
        }
        selected.set(ni, true);
        selected_count = selected_count + 1;
        queue.push((1, 1));
    }
    let mut si: usize = 0;
    while si < num_seeds
        invariant
            0 <= si <= num_seeds <= total_nodes,
            num_seeds <= 4,
            total_nodes == all_nodes@.len(),
            total_nodes == node_count(w, h),
            w == width,
            h == height,
            3 <= width <= i32::MAX,
            3 <= height <= i32::MAX,
            width * height <= usize::MAX,
            node_cols == (width - 1) / 2,
            n_slots == max_nodes(w, h),
            selected.len() == n_slots,
            selected_count == count_true(selected@),
            selected_count <= 1 + si,
            node_idx(1, 1, node_cols as int) < n_slots,
            selected@[node_idx(1, 1, node_cols as int)],
            only_node_slots(selected@, w, h),
            frontier_queued(selected@, w, h, queue@),
            forall|k: int| 0 <= k < all_nodes@.len() ==> is_node(w, h, #[trigger] all_nodes@[k].0 as int, all_nodes@[k].1 as int),
            forall|k: int| 0 <= k < queue@.len() ==> is_node(w, h, #[trigger] queue@[k].0 as int, queue@[k].1 as int),
        decreases num_seeds - si,
    {
        let (sx, sy) = all_nodes[si];
        proof {
            assert(is_node(w, h, all_nodes@[si as int].0 as int, all_nodes@[si as int].1 as int));
            lemma_node_slot(w, h, sx as int, sy as int);
        }
        let ni = node_index(sx, sy, node_cols);
        if !selected[ni] {
            proof {
                lemma_count_true_set(selected@, ni as int);
                lemma_count_true_bound(selected@.update(ni as int, true));
                lemma_select_push(selected@, w, h, queue@, sx as int, sy as int);
            }
            selected.set(ni, true);
            selected_count = selected_count + 1;
            queue.push((sx, sy));
        }
        si = si + 1;
    }
    proof {
        lemma_count_true_bound(selected@);
    }
    let ghost c_init = selected_count as int;
    // Random expansion from the seeds, until the target is met or no
    // selected node has an unselected neighbour.
    while selected_count < target_count && queue.len() > 0
        invariant
            w == width,
            h == height,
            3 <= width <= i32::MAX,
            3 <= height <= i32::MAX,
            width * height <= usize::MAX,
            node_cols == (width - 1) / 2,
            n_slots == max_nodes(w, h),
            selected.len() == n_slots,
            selected_count == count_true(selected@),
            selected_count <= n_slots,
            selected_count <= c_init || selected_count <= target_count,
            node_idx(1, 1, node_cols as int) < n_slots,
            selected@[node_idx(1, 1, node_cols as int)],
            only_node_slots(selected@, w, h),
            frontier_queued(selected@, w, h, queue@),
            forall|k: int| 0 <= k < queue@.len() ==> is_node(w, h, #[trigger] queue@[k].0 as int, queue@[k].1 as int),
        decreases 2 * (n_slots - selected_count) + queue@.len(),
    {
        let idx = gen_range_inclusive(rng, 0, queue.len() - 1);
        let (cx, cy) = queue[idx];
        assert(is_node(w, h, queue@[idx as int].0 as int, queue@[idx as int].1 as int));
        let mut neighbor_dirs = dfs_dirs();
        let ghost dirs0 = neighbor_dirs@;
        shuffle(&mut neighbor_dirs, rng);
        let ghost m0 = 2 * (n_slots - selected_count) + queue@.len();
        let mut expanded = false;
        let mut k: usize = 0;
        while k < 4
            invariant_except_break
                !expanded,
            invariant
                0 <= k <= 4,
                neighbor_dirs@.len() == 4,
                neighbor_dirs@.to_multiset() == dirs0.to_multiset(),
                forall|d: int| 0 <= d < 4 ==> #[trigger] dirs0[d] == (node_dx(d) as i32, node_dy(d) as i32),
                dirs0.len() == 4,
                is_node(w, h, cx as int, cy as int),
                (cx, cy) == queue@[idx as int],
                w == width,
                h == height,
                3 <= width <= i32::MAX,
                3 <= height <= i32::MAX,
                width * height <= usize::MAX,
                node_cols == (width - 1) / 2,
                n_slots == max_nodes(w, h),
                selected.len() == n_slots,
                selected_count == count_true(selected@),
                selected_count <= n_slots,
                selected_count <= c_init || selected_count <= target_count,
                !expanded ==> selected_count < target_count,
                node_idx(1, 1, node_cols as int) < n_slots,
                selected@[node_idx(1, 1, node_cols as int)],
                only_node_slots(selected@, w, h),
                frontier_queued(selected@, w, h, queue@),
                forall|j: int| 0 <= j < queue@.len() ==> is_node(w, h, #[trigger] queue@[j].0 as int, queue@[j].1 as int),
                idx < queue@.len(),
                !expanded ==> 2 * (n_slots - selected_count) + queue@.len() == m0,
                expanded ==> 2 * (n_slots - selected_count) + queue@.len() < m0,
                expanded ==> selected_count <= target_count,
                !expanded ==> forall|j: int|
                    0 <= j < k ==> (is_node(w, h, cx + (#[trigger] neighbor_dirs@[j]).0, cy + neighbor_dirs@[j].1)
                        ==> seen(selected@, (w - 1) / 2, cx + neighbor_dirs@[j].0, cy + neighbor_dirs@[j].1)),
            ensures
                !expanded ==> k == 4,
            decreases 4 - k,
        {
            let (dx, dy) = neighbor_dirs[k];
            proof {
                lemma_shuffled_from(dirs0, neighbor_dirs@, k as int);
                let j = choose|j: int| 0 <= j < dirs0.len() && dirs0[j] == neighbor_dirs@[k as int];
                assert(dx == node_dx(j) && dy == node_dy(j));
            }
            match node_neighbor(cx, cy, dx, dy, width, height) {
                Some((nux, nuy)) => {
                    proof {
                        lemma_node_slot(w, h, nux as int, nuy as int);
                    }
                    let ni = node_index(nux, nuy, node_cols);
                    if !selected[ni] {
                        proof {
                            lemma_count_true_set(selected@, ni as int);
                            lemma_count_true_bound(selected@.update(ni as int, true));
                            lemma_select_push(selected@, w, h, queue@, nux as int, nuy as int);
                            assert(queue@.push((nux, nuy))[idx as int] == queue@[idx as int]);
                        }
                        selected.set(ni, true);
                        selected_count = selected_count + 1;
                        queue.push((nux, nuy));
                        expanded = true;
                        break;
                    }
                },
                None => {},
            }
            k = k + 1;
        }
        if !expanded {
            // This node has no unselected neighbours: drop it from the queue.
            proof {
                assert forall|a: int, b: int|
                    is_node(w, h, a, b) && node_step((cx as int, cy as int), (a, b)) implies seen(selected@, (w - 1) / 2, a, b) by {
                    let d = node_dir((cx as int, cy as int), (a, b));
                    assert(dirs0[d] == (node_dx(d) as i32, node_dy(d) as i32));
                    lemma_shuffled_from(neighbor_dirs@, dirs0, d);
                    let j = choose|j: int| 0 <= j < neighbor_dirs@.len() && neighbor_dirs@[j] == dirs0[d];
                    assert(neighbor_dirs@[j] == dirs0[d]);
                }
                lemma_drop_saturated(selected@, w, h, queue@, idx as int);
            }
            let ghost q0 = queue@;
            queue.swap_remove(idx);
            proof {
                assert forall|j: int| 0 <= j < queue@.len() implies is_node(w, h, #[trigger] queue@[j].0 as int, queue@[j].1 as int) by {
                    if j == idx {
                        assert(queue@[j] == q0.last());
                        assert(is_node(w, h, q0[q0.len() - 1].0 as int, q0[q0.len() - 1].1 as int));
                    } else {
                        assert(queue@[j] == q0[j]);
                    }
                }
            }
        }
    }
    // Either the target was met, or no selected node borders an unselected
    // one, and then every node is selected.
    proof {
        let tn = node_count(w, h);
        assert(tn <= n_slots) by (nonlinear_arith)
            requires
                tn == ((w - 1) / 2) * ((h - 1) / 2),
                n_slots == (h / 2) * ((w - 1) / 2) + (w - 1) / 2,
                w >= 3,
                h >= 3,
        ;
        assert forall|i: int| tn <= i < selected@.len() implies !selected@[i] by {}
        lemma_count_true_prefix(selected@, tn);
        if selected_count < target_count {
            assert(queue@.len() == 0);
            assert(step_closed(selected@, w, h));
            assert forall|i: int| 0 <= i < tn implies #[trigger] selected@.take(tn)[i] by {
                lemma_nth_node(w, h, i);
                lemma_all_selected(selected@, w, h, nth_node(w, i).0, nth_node(w, i).1);
            }
            lemma_count_true_all(selected@.take(tn));
        }
    }
    // Mark selected nodes, and the cell between two adjacent selected nodes.
    let mut y: usize = 1;
    while y + 1 < height
        invariant
            1 <= y <= height - 1,
            w == width,
            h == height,
            3 <= width <= i32::MAX,
            3 <= height <= i32::MAX,
            width * height <= usize::MAX,
            node_cols == (width - 1) / 2,
            n_slots == max_nodes(w, h),
            selected.len() == n_slots,
            mask.len() == width * height,
            forall|a: int, b: int|
                0 <= a < w && 0 <= b < h ==> #[trigger] mask@[cell_index(w, a, b)] == if on_border(w, h, a, b) {
                    true
                } else if b < y {
                    mark_expected(selected@, w, h, a, b)
                } else {
                    false
                },
        decreases height - y,
    {
        let mut x: usize = 1;
        while x + 1 < width
            invariant
                1 <= x <= width - 1,
                1 <= y < height - 1,
                w == width,
                h == height,
                3 <= width <= i32::MAX,
                3 <= height <= i32::MAX,
                width * height <= usize::MAX,
                node_cols == (width - 1) / 2,
                n_slots == max_nodes(w, h),
                selected.len() == n_slots,
                mask.len() == width * height,
                forall|a: int, b: int|
                    0 <= a < w && 0 <= b < h ==> #[trigger] mask@[cell_index(w, a, b)] == if on_border(w, h, a, b) {
                        true
                    } else if b < y || (b == y && a < x) {
                        mark_expected(selected@, w, h, a, b)
                    } else {
                        false
                    },
            decreases width - x,
        {
            let on = if x % 2 == 1 && y % 2 == 1 {
                proof {
                    lemma_node_slot(w, h, x as int, y as int);
                }
                selected[node_index(x, y, node_cols)]
            } else if x % 2 == 0 && y % 2 == 1 {
                if x + 1 < width - 1 {
                    proof {
                        lemma_node_slot(w, h, x - 1, y as int);
                        lemma_node_slot(w, h, x + 1, y as int);
                    }
                    selected[node_index(x - 1, y, node_cols)] && selected[node_index(x + 1, y, node_cols)]
                } else {
                    false
                }
            } else if x % 2 == 1 && y % 2 == 0 {
                if y + 1 < height - 1 {
                    proof {
                        lemma_node_slot(w, h, x as int, y - 1);
                        lemma_node_slot(w, h, x as int, y + 1);
                    }
                    selected[node_index(x, y - 1, node_cols)] && selected[node_index(x, y + 1, node_cols)]
                } else {
                    false
                }
            } else {
                false
            };
            assert(on == mark_expected(selected@, w, h, x as int, y as int));
            if on {
                proof {
                    lemma_index_in_bounds(x as int, y as int, w, h);
                }
                let ghost mm = mask@;
                mask.set(y * width + x, true);
                proof {
                    assert forall|xx: int, yy: int| 0 <= xx < w && 0 <= yy < h implies #[trigger] mask@[cell_index(w, xx, yy)] == (mm[cell_index(w, xx, yy)] || (xx == x && yy == y)) by {
                        lemma_index_in_bounds(xx, yy, w, h);
                        lemma_index_injective(xx, yy, x as int, y as int, w);
                    }
                }
            }
            x = x + 1;
        }
        y = y + 1;
    }
    proof {
        let tn = node_count(w, h);
        let sm = Seq::new(tn as nat, |i: int| mask@[cell_index(w, nth_node(w, i).0, nth_node(w, i).1)]);
        assert forall|i: int| 0 <= i < tn implies sm[i] == selected@.take(tn)[i] by {
            lemma_nth_node(w, h, i);
        }
        assert(sm =~= selected@.take(tn));
        assert forall|x: int, y: int| on_border(w, h, x, y) implies #[trigger] mask@[cell_index(w, x, y)] by {}
    }
    mask
}

/// What the marking pass puts in interior cell `(a, b)`: a node is marked
/// when selected, the cell between two nodes when both are, and no other.
pub open spec fn mark_expected(sel: Seq<bool>, w: int, h: int, a: int, b: int) -> bool {
    let nc = (w - 1) / 2;
    if a % 2 == 1 && b % 2 == 1 {
        seen(sel, nc, a, b)
    } else if a % 2 == 0 && b % 2 == 1 {
        a + 1 < w - 1 && seen(sel, nc, a - 1, b) && seen(sel, nc, a + 1, b)
    } else if a % 2 == 1 && b % 2 == 0 {
        b + 1 < h - 1 && seen(sel, nc, a, b - 1) && seen(sel, nc, a, b + 1)
    } else {
        false
    }
}

/// Selecting node `(x, y)` and queueing it keeps every frontier node queued
/// and only node slots selected.
proof fn lemma_select_push(sel: Seq<bool>, w: int, h: int, queue: Seq<(usize, usize)>, x: int, y: int)
    requires
        3 <= w <= i32::MAX,
        3 <= h <= i32::MAX,
        sel.len() == max_nodes(w, h),
        frontier_queued(sel, w, h, queue),
        only_node_slots(sel, w, h),
        is_node(w, h, x, y),
    ensures
        frontier_queued(
            sel.update(node_idx(x, y, (w - 1) / 2), true),
            w,
            h,
            queue.push((x as usize, y as usize)),
        ),
        only_node_slots(sel.update(node_idx(x, y, (w - 1) / 2), true), w, h),
{
    let nc = (w - 1) / 2;
    let s2 = sel.update(node_idx(x, y, nc), true);
    let q2 = queue.push((x as usize, y as usize));
    lemma_node_slot(w, h, x, y);
    lemma_node_slot_count(w, h, x, y);
    assert forall|p: int, q: int, a: int, b: int|
        #![trigger seen(s2, nc, p, q), seen(s2, nc, a, b)]
        is_node(w, h, p, q) && is_node(w, h, a, b) && node_step((p, q), (a, b)) && seen(s2, nc, p, q)
            && !seen(s2, nc, a, b) implies q2.contains((p as usize, q as usize)) by {
        lemma_node_slot(w, h, p, q);
        lemma_node_slot(w, h, a, b);
        lemma_node_slot_injective(w, h, p, q, x, y);
        lemma_node_slot_injective(w, h, a, b, x, y);
        if p == x && q == y {
            assert(q2[queue.len() as int] == (x as usize, y as usize));
        } else {
            assert(seen(sel, nc, p, q) && !seen(sel, nc, a, b));
            assert(queue.contains((p as usize, q as usize)));
            let j = choose|j: int| 0 <= j < queue.len() && queue[j] == (p as usize, q as usize);
            assert(q2[j] == queue[j]);
        }
    }
    assert forall|i: int| 0 <= i < s2.len() && #[trigger] s2[i] implies i < node_count(w, h) by {
        if i != node_idx(x, y, nc) {
            assert(sel[i]);
        }
    }
}

/// Dropping from the queue a node whose neighbours are all selected keeps
/// every frontier node queued.
proof fn lemma_drop_saturated(sel: Seq<bool>, w: int, h: int, queue: Seq<(usize, usize)>, idx: int)
    requires
        w <= i32::MAX,
        h <= i32::MAX,
        forall|k: int| 0 <= k < queue.len() ==> is_node(w, h, #[trigger] queue[k].0 as int, queue[k].1 as int),
        frontier_queued(sel, w, h, queue),
        0 <= idx < queue.len(),
        forall|a: int, b: int|
            is_node(w, h, a, b) && node_step((queue[idx].0 as int, queue[idx].1 as int), (a, b))
                ==> seen(sel, (w - 1) / 2, a, b),
    ensures
        frontier_queued(sel, w, h, queue.update(idx, queue.last()).drop_last()),
{
    let nc = (w - 1) / 2;
    let q2 = queue.update(idx, queue.last()).drop_last();
    assert forall|p: int, q: int, a: int, b: int|
        #![trigger seen(sel, nc, p, q), seen(sel, nc, a, b)]
        is_node(w, h, p, q) && is_node(w, h, a, b) && node_step((p, q), (a, b)) && seen(sel, nc, p, q)
            && !seen(sel, nc, a, b) implies q2.contains((p as usize, q as usize)) by {
        assert(queue.contains((p as usize, q as usize)));
        let j = choose|j: int| 0 <= j < queue.len() && queue[j] == (p as usize, q as usize);
        if j == idx {
            assert(node_step((queue[idx].0 as int, queue[idx].1 as int), (a, b)));
        } else if j == queue.len() - 1 {
            assert(q2[idx] == queue[j]);
        } else {
            assert(q2[j] == queue[j]);
        }
    }
}

/// Node `b` is one step (two cells along an axis) from node `a`.
pub open spec fn node_step(a: (int, int), b: (int, int)) -> bool {
    ||| (b.0 == a.0 + 2 && b.1 == a.1)
    ||| (b.0 == a.0 - 2 && b.1 == a.1)
    ||| (b.0 == a.0 && b.1 == a.1 + 2)
    ||| (b.0 == a.0 && b.1 == a.1 - 2)
}

/// Masked nodes `a` and `b` are neighbours joined through a masked cell
/// between them.
pub open spec fn linked(mask: Seq<bool>, w: int, h: int, a: (int, int), b: (int, int)) -> bool {
    &&& is_node(w, h, a.0, a.1)
    &&& is_node(w, h, b.0, b.1)
    &&& node_step(a, b)
    &&& mask[cell_index(w, a.0, a.1)]
    &&& mask[cell_index(w, b.0, b.1)]
    &&& mask[cell_index(w, (a.0 + b.0) / 2, (a.1 + b.1) / 2)]
}

/// A cell position as integers.
pub open spec fn ipos(p: (usize, usize)) -> (int, int) {
    (p.0 as int, p.1 as int)
}

/// `(x, y)` is a node of a `w` x `h` grid whose mask cell is set.
pub open spec fn masked_node(mask: Seq<bool>, w: int, h: int, x: int, y: int) -> bool {
    is_node(w, h, x, y) && mask[cell_index(w, x, y)]
}

/// `p` is linked to one of the first `n` nodes of `s`.
pub open spec fn linked_before(mask: Seq<bool>, w: int, h: int, s: Seq<(usize, usize)>, n: int, p: (usize, usize)) -> bool {
    exists|j: int| 0 <= j < n && #[trigger] linked(mask, w, h, ipos(s[j]), ipos(p))
}

/// `p` is listed in one of the islands `isl`.
pub open spec fn listed(isl: Seq<Vec<(usize, usize)>>, p: (usize, usize)) -> bool {
    exists|i: int, k: int| 0 <= i < isl.len() && 0 <= k < isl[i]@.len() && #[trigger] isl[i]@[k] == p
}

/// The islands are non-empty groups of masked nodes, no node listed twice,
/// each closed under links and held together by them: every node after the
/// first is linked to an earlier node of its island.
pub open spec fn islands_ok(mask: Seq<bool>, w: int, h: int, isl: Seq<Vec<(usize, usize)>>) -> bool {
    &&& forall|i: int| 0 <= i < isl.len() ==> #[trigger] isl[i]@.len() > 0
    &&& forall|i: int, k: int|
        0 <= i < isl.len() && 0 <= k < isl[i]@.len() ==> masked_node(
            mask,
            w,
            h,
            #[trigger] isl[i]@[k].0 as int,
            isl[i]@[k].1 as int,
        )
    &&& forall|i: int, k: int, j: int, l: int|
        #![trigger isl[i]@[k], isl[j]@[l]]
        0 <= i < isl.len() && 0 <= k < isl[i]@.len() && 0 <= j < isl.len() && 0 <= l < isl[j]@.len()
            && (i != j || k != l) ==> isl[i]@[k] != isl[j]@[l]
    &&& forall|i: int, k: int, q: (int, int)|
        0 <= i < isl.len() && 0 <= k < isl[i]@.len() && #[trigger] linked(mask, w, h, ipos(isl[i]@[k]), q)
            ==> exists|l: int| 0 <= l < isl[i]@.len() && ipos(#[trigger] isl[i]@[l]) == q
    &&& forall|i: int, k: int|
        0 <= i < isl.len() && 0 < k < isl[i]@.len() ==> #[trigger] linked_before(mask, w, h, isl[i]@, k, isl[i]@[k])
}

/// `p` comes before `q` in row-major scan order.
pub open spec fn scan_before(p: (usize, usize), q: (usize, usize)) -> bool {
    p.1 < q.1 || (p.1 == q.1 && p.0 < q.0)
}

/// Islands are listed in scan order of their first node, and each island's
/// first node comes before its other nodes.
pub open spec fn islands_in_scan_order(isl: Seq<Vec<(usize, usize)>>) -> bool {
    &&& forall|i: int, j: int|
        0 <= i < j < isl.len() ==> scan_before(#[trigger] isl[i]@[0], #[trigger] isl[j]@[0])
    &&& forall|i: int, k: int|
        0 <= i < isl.len() && 0 < k < isl[i]@.len() ==> scan_before(isl[i]@[0], #[trigger] isl[i]@[k])
}

/// Node `(x, y)` is marked in `visited` (indexed by node slot).
pub open spec fn seen(visited: Seq<bool>, nc: int, x: int, y: int) -> bool {
    visited[node_idx(x, y, nc)]
}

/// State of the breadth-first search that grows `island` from `start`.
spec fn bfs_ok(
    mask: Seq<bool>,
    w: int,
    h: int,
    isl: Seq<Vec<(usize, usize)>>,
    island: Seq<(usize, usize)>,
    queue: Seq<(usize, usize)>,
    start: (usize, usize),
    visited: Seq<bool>,
    nc: int,
) -> bool {
    &&& islands_ok(mask, w, h, isl)
    &&& forall|k: int| 0 <= k < island.len() ==> masked_node(mask, w, h, #[trigger] island[k].0 as int, island[k].1 as int)
    &&& forall|k: int| 0 <= k < queue.len() ==> masked_node(mask, w, h, #[trigger] queue[k].0 as int, queue[k].1 as int)
    &&& forall|k: int| 0 <= k < island.len() ==> !listed(isl, #[trigger] island[k])
    &&& forall|k: int| 0 <= k < queue.len() ==> !listed(isl, #[trigger] queue[k])
    &&& island.no_duplicates()
    &&& queue.no_duplicates()
    &&& forall|k: int, l: int| 0 <= k < island.len() && 0 <= l < queue.len() ==> #[trigger] island[k] != #[trigger] queue[l]
    &&& forall|x: int, y: int|
        is_node(w, h, x, y) ==> (#[trigger] seen(visited, nc, x, y) <==> (listed(isl, (x as usize, y as usize))
            || island.contains((x as usize, y as usize)) || queue.contains((x as usize, y as usize))))
    &&& island.len() > 0 ==> island[0] == start
    &&& island.len() == 0 ==> queue == seq![start]
    &&& forall|k: int| 0 < k < island.len() ==> #[trigger] linked_before(mask, w, h, island, k, island[k])
    &&& island.len() > 0 ==> forall|k: int|
        0 <= k < queue.len() ==> #[trigger] linked_before(mask, w, h, island, island.len() as int, queue[k])
}

/// Every link out of the first `n` island nodes ends at a seen node.
spec fn processed(mask: Seq<bool>, w: int, h: int, island: Seq<(usize, usize)>, n: int, visited: Seq<bool>, nc: int) -> bool {
    forall|k: int, q: (int, int)|
        0 <= k < n && #[trigger] linked(mask, w, h, ipos(island[k]), q) ==> seen(visited, nc, q.0, q.1)
}

/// Which of the four node steps leads from `a` to `b` (east, west, south,
/// north), or 4 when none does.
pub open spec fn node_dir(a: (int, int), b: (int, int)) -> int {
    if b.0 == a.0 + 2 && b.1 == a.1 {
        0
    } else if b.0 == a.0 - 2 && b.1 == a.1 {
        1
    } else if b.0 == a.0 && b.1 == a.1 + 2 {
        2
    } else if b.0 == a.0 && b.1 == a.1 - 2 {
        3
    } else {
        4
    }
}

/// Links are symmetric.
proof fn lemma_linked_symmetric(mask: Seq<bool>, w: int, h: int, a: (int, int), b: (int, int))
    ensures
        linked(mask, w, h, a, b) == linked(mask, w, h, b, a),
{
    assert((a.0 + b.0) / 2 == (b.0 + a.0) / 2);
    assert((a.1 + b.1) / 2 == (b.1 + a.1) / 2);
}

/// Moving the head of the queue to the end of the island keeps the search state.
proof fn lemma_bfs_pop(
    mask: Seq<bool>,
    w: int,
    h: int,
    isl: Seq<Vec<(usize, usize)>>,
    island: Seq<(usize, usize)>,
    queue: Seq<(usize, usize)>,
    start: (usize, usize),
    visited: Seq<bool>,
    nc: int,
)
    requires
        w <= i32::MAX,
        h <= i32::MAX,
        bfs_ok(mask, w, h, isl, island, queue, start, visited, nc),
        queue.len() > 0,
    ensures
        bfs_ok(mask, w, h, isl, island.push(queue[0]), queue.subrange(1, queue.len() as int), start, visited, nc),
        masked_node(mask, w, h, queue[0].0 as int, queue[0].1 as int),
{
    let c = queue[0];
    let i1 = island.push(c);
    let q1 = queue.subrange(1, queue.len() as int);
    assert forall|k: int| 0 <= k < i1.len() implies masked_node(mask, w, h, #[trigger] i1[k].0 as int, i1[k].1 as int) by {
        if k < island.len() {
            assert(i1[k] == island[k]);
        }
    }
    assert forall|k: int| 0 <= k < q1.len() implies masked_node(mask, w, h, #[trigger] q1[k].0 as int, q1[k].1 as int) by {
        assert(q1[k] == queue[k + 1]);
    }
    assert forall|k: int| 0 <= k < i1.len() implies !listed(isl, #[trigger] i1[k]) by {
        if k < island.len() {
            assert(i1[k] == island[k]);
        }
    }
    assert forall|k: int| 0 <= k < q1.len() implies !listed(isl, #[trigger] q1[k]) by {
        assert(q1[k] == queue[k + 1]);
    }
    assert forall|k: int, l: int| 0 <= k < i1.len() && 0 <= l < i1.len() && k != l implies i1[k] != i1[l] by {
        if k < island.len() && l < island.len() {
            assert(i1[k] == island[k] && i1[l] == island[l]);
        } else if k < island.len() {
            assert(i1[k] == island[k]);
            assert(island[k] != queue[0]);
        } else {
            assert(i1[l] == island[l]);
            assert(island[l] != queue[0]);
        }
    }
    assert forall|k: int, l: int| 0 <= k < q1.len() && 0 <= l < q1.len() && k != l implies q1[k] != q1[l] by {
        assert(q1[k] == queue[k + 1] && q1[l] == queue[l + 1]);
    }
    assert forall|k: int, l: int| 0 <= k < i1.len() && 0 <= l < q1.len() implies #[trigger] i1[k] != #[trigger] q1[l] by {
        assert(q1[l] == queue[l + 1]);
        if k < island.len() {
            assert(i1[k] == island[k]);
        } else {
            assert(queue[0] != queue[l + 1]);
        }
    }
    assert forall|x: int, y: int| is_node(w, h, x, y) implies (#[trigger] seen(visited, nc, x, y) <==> (listed(isl, (x as usize, y as usize))
        || i1.contains((x as usize, y as usize)) || q1.contains((x as usize, y as usize)))) by {
        let p = (x as usize, y as usize);
        if island.contains(p) {
            let k = choose|k: int| 0 <= k < island.len() && island[k] == p;
            assert(i1[k] == p);
        }
        if queue.contains(p) {
            let k = choose|k: int| 0 <= k < queue.len() && queue[k] == p;
            if k == 0 {
                assert(i1[island.len() as int] == p);
            } else {
                assert(q1[k - 1] == p);
            }
        }
        if i1.contains(p) {
            let k = choose|k: int| 0 <= k < i1.len() && i1[k] == p;
            if k < island.len() {
                assert(island[k] == p);
            } else {
                assert(queue[0] == p);
            }
        }
        if q1.contains(p) {
            let k = choose|k: int| 0 <= k < q1.len() && q1[k] == p;
            assert(queue[k + 1] == p);
        }
    }
    if island.len() == 0 {
        assert(queue == seq![start]);
        assert(i1[0] == start);
        assert(q1.len() == 0);
    } else {
        assert(i1[0] == island[0]);
    }
    assert forall|k: int| 0 < k < i1.len() implies #[trigger] linked_before(mask, w, h, i1, k, i1[k]) by {
        if k < island.len() {
            assert(linked_before(mask, w, h, island, k, island[k]));
            let j = choose|j: int| 0 <= j < k && #[trigger] linked(mask, w, h, ipos(island[j]), ipos(island[k]));
            assert(i1[j] == island[j] && i1[k] == island[k]);
            assert(linked(mask, w, h, ipos(i1[j]), ipos(i1[k])));
        } else {
            assert(island.len() > 0);
            assert(k == island.len());
            assert(i1[k] == queue[0]);
            assert(linked_before(mask, w, h, island, island.len() as int, queue[0]));
            let j = choose|j: int| 0 <= j < island.len() && #[trigger] linked(mask, w, h, ipos(island[j]), ipos(queue[0]));
            assert(i1[j] == island[j]);
            assert(linked(mask, w, h, ipos(i1[j]), ipos(i1[k])));
        }
    }
    if i1.len() > 0 {
        assert forall|k: int| 0 <= k < q1.len() implies #[trigger] linked_before(mask, w, h, i1, i1.len() as int, q1[k]) by {
            assert(q1[k] == queue[k + 1]);
            assert(island.len() > 0);
            assert(linked_before(mask, w, h, island, island.len() as int, queue[k + 1]));
            let j = choose|j: int| 0 <= j < island.len() && #[trigger] linked(mask, w, h, ipos(island[j]), ipos(queue[k + 1]));
            assert(i1[j] == island[j]);
            assert(linked(mask, w, h, ipos(i1[j]), ipos(q1[k])));
        }
    }
}

/// Marking a new linked node and queueing it keeps the search state.
proof fn lemma_bfs_push(
    mask: Seq<bool>,
    w: int,
    h: int,
    isl: Seq<Vec<(usize, usize)>>,
    island: Seq<(usize, usize)>,
    queue: Seq<(usize, usize)>,
    start: (usize, usize),
    v0: Seq<bool>,
    visited: Seq<bool>,
    nc: int,
    n: (usize, usize),
    d: int,
)
    requires
        w <= i32::MAX,
        h <= i32::MAX,
        3 <= w,
        3 <= h,
        nc == (w - 1) / 2,
        v0.len() == max_nodes(w, h),
        bfs_ok(mask, w, h, isl, island, queue, start, v0, nc),
        island.len() > 0,
        linked(mask, w, h, ipos(island.last()), ipos(n)),
        !seen(v0, nc, n.0 as int, n.1 as int),
        visited == v0.update(node_idx(n.0 as int, n.1 as int, nc), true),
    ensures
        bfs_ok(mask, w, h, isl, island, queue.push(n), start, visited, nc),
        seen(visited, nc, n.0 as int, n.1 as int),
        forall|x: int, y: int| is_node(w, h, x, y) && seen(v0, nc, x, y) ==> #[trigger] seen(visited, nc, x, y),
{
    let q1 = queue.push(n);
    lemma_node_slot(w, h, n.0 as int, n.1 as int);
    assert(!listed(isl, n));
    assert(!island.contains(n));
    assert(!queue.contains(n));
    assert forall|x: int, y: int| is_node(w, h, x, y) && seen(v0, nc, x, y) implies #[trigger] seen(visited, nc, x, y) by {
        lemma_node_slot(w, h, x, y);
    }
    assert forall|k: int| 0 <= k < q1.len() implies masked_node(mask, w, h, #[trigger] q1[k].0 as int, q1[k].1 as int) by {
        if k < queue.len() {
            assert(q1[k] == queue[k]);
        }
    }
    assert forall|k: int| 0 <= k < q1.len() implies !listed(isl, #[trigger] q1[k]) by {
        if k < queue.len() {
            assert(q1[k] == queue[k]);
        }
    }
    assert forall|k: int, l: int| 0 <= k < q1.len() && 0 <= l < q1.len() && k != l implies q1[k] != q1[l] by {
        if k < queue.len() && l < queue.len() {
            assert(q1[k] == queue[k] && q1[l] == queue[l]);
        } else if k < queue.len() {
            assert(q1[k] == queue[k]);
        } else {
            assert(q1[l] == queue[l]);
        }
    }
    assert forall|k: int, l: int| 0 <= k < island.len() && 0 <= l < q1.len() implies #[trigger] island[k] != #[trigger] q1[l] by {
        if l < queue.len() {
            assert(q1[l] == queue[l]);
        }
    }
    assert forall|x: int, y: int| is_node(w, h, x, y) implies (#[trigger] seen(visited, nc, x, y) <==> (listed(isl, (x as usize, y as usize))
        || island.contains((x as usize, y as usize)) || q1.contains((x as usize, y as usize)))) by {
        let p = (x as usize, y as usize);
        lemma_node_slot(w, h, x, y);
        lemma_node_slot_injective(w, h, x, y, n.0 as int, n.1 as int);
        assert(seen(v0, nc, x, y) <==> (listed(isl, p) || island.contains(p) || queue.contains(p)));
        if !(x == n.0 && y == n.1) {
            assert(seen(visited, nc, x, y) == seen(v0, nc, x, y));
        }
        if queue.contains(p) {
            let k = choose|k: int| 0 <= k < queue.len() && queue[k] == p;
            assert(q1[k] == p);
        }
        if q1.contains(p) {
            let k = choose|k: int| 0 <= k < q1.len() && q1[k] == p;
            if k < queue.len() {
                assert(queue[k] == p);
            }
        }
        if x == n.0 && y == n.1 {
            assert(q1[queue.len() as int] == p);
        }
    }
    assert(island[0] == start);
    assert forall|k: int| 0 <= k < q1.len() implies #[trigger] linked_before(mask, w, h, island, island.len() as int, q1[k]) by {
        if k < queue.len() {
            assert(q1[k] == queue[k]);
            assert(linked_before(mask, w, h, island, island.len() as int, queue[k]));
        } else {
            assert(q1[k] == n);
            assert(linked(mask, w, h, ipos(island[island.len() - 1]), ipos(q1[k])));
        }
    }
}

/// Once every step out of the last island node has been looked at, every
/// island node is processed.
proof fn lemma_processed_last(mask: Seq<bool>, w: int, h: int, island: Seq<(usize, usize)>, visited: Seq<bool>, nc: int)
    requires
        island.len() > 0,
        processed(mask, w, h, island, island.len() - 1, visited, nc),
        forall|q: (int, int)|
            #[trigger] linked(mask, w, h, (island.last().0 as int, island.last().1 as int), q) && node_dir(
                (island.last().0 as int, island.last().1 as int),
                q,
            ) < 4 ==> seen(visited, nc, q.0, q.1),
    ensures
        processed(mask, w, h, island, island.len() as int, visited, nc),
{
    let c = island.last();
    assert forall|k: int, q: (int, int)| 0 <= k < island.len() && #[trigger] linked(mask, w, h, ipos(island[k]), q) implies seen(visited, nc, q.0, q.1) by {
        if k == island.len() - 1 {
            assert(island[k] == c);
        }
    }
}

/// A finished search adds a closed, connected island.
proof fn lemma_islands_push(
    mask: Seq<bool>,
    w: int,
    h: int,
    isl0: Seq<Vec<(usize, usize)>>,
    isl: Seq<Vec<(usize, usize)>>,
    island: Seq<(usize, usize)>,
    queue: Seq<(usize, usize)>,
    start: (usize, usize),
    visited: Seq<bool>,
    nc: int,
)
    requires
        w <= i32::MAX,
        h <= i32::MAX,
        bfs_ok(mask, w, h, isl0, island, queue, start, visited, nc),
        processed(mask, w, h, island, island.len() as int, visited, nc),
        queue.len() == 0,
        island.len() > 0 || queue.len() > 0,
        isl.len() == isl0.len() + 1,
        forall|i: int| 0 <= i < isl0.len() ==> #[trigger] isl[i] == isl0[i],
        isl[isl0.len() as int]@ == island,
    ensures
        islands_ok(mask, w, h, isl),
        forall|x: int, y: int|
            is_node(w, h, x, y) ==> (#[trigger] seen(visited, nc, x, y) <==> listed(isl, (x as usize, y as usize))),
{
    let n0 = isl0.len() as int;
    assert forall|i: int| 0 <= i < isl.len() implies #[trigger] isl[i]@.len() > 0 by {
        if i < n0 {
            assert(isl[i] == isl0[i]);
        }
    }
    assert forall|i: int, k: int| 0 <= i < isl.len() && 0 <= k < isl[i]@.len() implies masked_node(mask, w, h, #[trigger] isl[i]@[k].0 as int, isl[i]@[k].1 as int) by {
        if i < n0 {
            assert(isl[i] == isl0[i]);
        }
    }
    // Listed in the new islands: in an old one, or in the new island.
    assert forall|p: (usize, usize)| #[trigger] listed(isl, p) <==> (listed(isl0, p) || island.contains(p)) by {
        if listed(isl, p) {
            let (i, k) = choose|i: int, k: int| 0 <= i < isl.len() && 0 <= k < isl[i]@.len() && #[trigger] isl[i]@[k] == p;
            if i < n0 {
                assert(isl[i] == isl0[i]);
                assert(isl0[i]@[k] == p);
            } else {
                assert(island[k] == p);
            }
        }
        if listed(isl0, p) {
            let (i, k) = choose|i: int, k: int| 0 <= i < isl0.len() && 0 <= k < isl0[i]@.len() && #[trigger] isl0[i]@[k] == p;
            assert(isl[i] == isl0[i]);
            assert(isl[i]@[k] == p);
        }
        if island.contains(p) {
            let k = choose|k: int| 0 <= k < island.len() && island[k] == p;
            assert(isl[n0]@[k] == p);
        }
    }
    assert forall|i: int, k: int, j: int, l: int|
        #![trigger isl[i]@[k], isl[j]@[l]]
        0 <= i < isl.len() && 0 <= k < isl[i]@.len() && 0 <= j < isl.len() && 0 <= l < isl[j]@.len()
            && (i != j || k != l) implies isl[i]@[k] != isl[j]@[l] by {
        if i < n0 && j < n0 {
            assert(isl[i] == isl0[i] && isl[j] == isl0[j]);
        } else if i < n0 {
            assert(isl[i] == isl0[i]);
            assert(listed(isl0, isl0[i]@[k]));
            assert(!listed(isl0, island[l]));
        } else if j < n0 {
            assert(isl[j] == isl0[j]);
            assert(listed(isl0, isl0[j]@[l]));
            assert(!listed(isl0, island[k]));
        } else {
            assert(island[k] != island[l]);
        }
    }
    assert forall|i: int, k: int, q: (int, int)|
        0 <= i < isl.len() && 0 <= k < isl[i]@.len() && #[trigger] linked(mask, w, h, ipos(isl[i]@[k]), q)
            implies exists|l: int| 0 <= l < isl[i]@.len() && ipos(#[trigger] isl[i]@[l]) == q by {
        if i < n0 {
            assert(isl[i] == isl0[i]);
            let l = choose|l: int| 0 <= l < isl0[i]@.len() && ipos(#[trigger] isl0[i]@[l]) == q;
            assert(isl[i]@[l] == isl0[i]@[l]);
        } else {
            assert(isl[i]@[k] == island[k]);
            assert(seen(visited, nc, q.0, q.1));
            let p = (q.0 as usize, q.1 as usize);
            assert(ipos(p) == q);
            if listed(isl0, p) {
                let (j, m) = choose|j: int, m: int| 0 <= j < isl0.len() && 0 <= m < isl0[j]@.len() && #[trigger] isl0[j]@[m] == p;
                lemma_linked_symmetric(mask, w, h, ipos(island[k]), q);
                assert(linked(mask, w, h, ipos(isl0[j]@[m]), ipos(island[k])));
                let l = choose|l: int| 0 <= l < isl0[j]@.len() && ipos(#[trigger] isl0[j]@[l]) == ipos(island[k]);
                assert(isl0[j]@[l] == island[k]);
                assert(listed(isl0, island[k]));
                assert(false);
            }
            assert(island.contains(p));
            let l = choose|l: int| 0 <= l < island.len() && island[l] == p;
            assert(isl[i]@[l] == p);
        }
    }
    assert forall|i: int, k: int|
        0 <= i < isl.len() && 0 < k < isl[i]@.len() implies #[trigger] linked_before(mask, w, h, isl[i]@, k, isl[i]@[k]) by {
        if i < n0 {
            assert(isl[i] == isl0[i]);
            assert(linked_before(mask, w, h, isl0[i]@, k, isl0[i]@[k]));
        } else {
            assert(isl[i]@ == island);
            assert(linked_before(mask, w, h, island, k, island[k]));
        }
    }
    assert forall|x: int, y: int| is_node(w, h, x, y) implies (#[trigger] seen(visited, nc, x, y) <==> listed(isl, (x as usize, y as usize))) by {
        assert(!queue.contains((x as usize, y as usize)));
    }
}

/// Find the connected components (islands) of masked nodes.
///
/// Two nodes are connected when they are neighbours on the node grid and the
/// cell between them is masked too. Islands are listed in scan order of their
/// first node; each island lists its nodes in breadth-first order.
#[verifier::rlimit(50)]
pub fn find_islands(mask: &Vec<bool>, width: usize, height: usize) -> (islands: Vec<Vec<(usize, usize)>>)
    requires
        3 <= width <= i32::MAX,
        3 <= height <= i32::MAX,
        width * height <= usize::MAX,
        mask.len() == width * height,
    ensures
        islands_ok(mask@, width as int, height as int, islands@),
        islands_in_scan_order(islands@),
        forall|x: int, y: int|
            #[trigger] masked_node(mask@, width as int, height as int, x, y) ==> listed(
                islands@,
                (x as usize, y as usize),
            ),
{
    let ghost w = width as int;
    let ghost h = height as int;
    proof {
        lemma_node_slot(w, h, 1, 1);
    }
    let node_cols = (width - 1) / 2;
    let ghost nc = node_cols as int;
    let n_slots = max_node_count(width, height);
    let mut visited: Vec<bool> = vec![false; n_slots];
    let mut cnt: usize = 0;
    assert forall|i: int| 0 <= i < n_slots implies !visited@[i] by {
        assert(cloned(false, visited@[i]));
    }
    proof {
        lemma_count_true_none(visited@);
    }
    let mut islands: Vec<Vec<(usize, usize)>> = Vec::new();
    proof {
        assert forall|x: int, y: int| is_node(w, h, x, y) implies (#[trigger] seen(visited@, nc, x, y) <==> listed(islands@, (x as usize, y as usize))) by {
            lemma_node_slot(w, h, x, y);
        }
    }
    let mut y: usize = 1;
    while y + 1 < height
        invariant
            1 <= y <= height,
            y % 2 == 1,
            w == width,
            h == height,
            nc == node_cols,
            3 <= width <= i32::MAX,
            3 <= height <= i32::MAX,
            width * height <= usize::MAX,
            mask.len() == width * height,
            node_cols == (width - 1) / 2,
            n_slots == max_nodes(w, h),
            visited.len() == n_slots,
            cnt == count_true(visited@),
            islands_ok(mask@, w, h, islands@),
            forall|x: int, y: int|
                is_node(w, h, x, y) ==> (#[trigger] seen(visited@, nc, x, y) <==> listed(islands@, (x as usize, y as usize))),
            forall|a: int, b: int| #[trigger] masked_node(mask@, w, h, a, b) && b < y ==> seen(visited@, nc, a, b),
            islands_in_scan_order(islands@),
            forall|i: int| 0 <= i < islands@.len() ==> (#[trigger] islands@[i])@[0].1 < y,
        decreases height - y,
    {
        let mut x: usize = 1;
        while x + 1 < width
            invariant
                1 <= x <= width,
                x % 2 == 1,
                1 <= y,
                y + 1 < height,
                y % 2 == 1,
                w == width,
                h == height,
                nc == node_cols,
                3 <= width <= i32::MAX,
                3 <= height <= i32::MAX,
                width * height <= usize::MAX,
                mask.len() == width * height,
                node_cols == (width - 1) / 2,
                n_slots == max_nodes(w, h),
                visited.len() == n_slots,
                cnt == count_true(visited@),
                islands_ok(mask@, w, h, islands@),
                forall|x: int, y: int|
                    is_node(w, h, x, y) ==> (#[trigger] seen(visited@, nc, x, y) <==> listed(islands@, (x as usize, y as usize))),
                forall|a: int, b: int|
                    #[trigger] masked_node(mask@, w, h, a, b) && (b < y || (b == y && a < x)) ==> seen(visited@, nc, a, b),
                islands_in_scan_order(islands@),
                forall|i: int| 0 <= i < islands@.len() ==> scan_before((#[trigger] islands@[i])@[0], (x, y)),
            decreases width - x,
        {
            proof {
                lemma_index_in_bounds(x as int, y as int, w, h);
                lemma_node_slot(w, h, x as int, y as int);
            }
            let ni = node_index(x, y, node_cols);
            if mask[y * width + x] && !visited[ni] {
                // Breadth-first search over this island.
                let ghost start = (x, y);
                let ghost isl0 = islands@;
                assert forall|a: int, b: int|
                    #[trigger] masked_node(mask@, w, h, a, b) && (b < y || (b == y && a < x)) implies listed(
                    isl0,
                    (a as usize, b as usize),
                ) by {
                    assert(seen(visited@, nc, a, b));
                }
                let mut island: Vec<(usize, usize)> = Vec::new();
                let mut queue: VecDeque<(usize, usize)> = VecDeque::new();
                proof {
                    lemma_count_true_set(visited@, ni as int);
                    lemma_count_true_bound(visited@.update(ni as int, true));
                }
                let ghost v0 = visited@;
                visited.set(ni, true);
                cnt = cnt + 1;
                queue.push_back((x, y));
                proof {
                    assert(is_node(w, h, x as int, y as int));
                    assert(seen(v0, nc, x as int, y as int) == v0[ni as int]);
                    assert(!listed(isl0, (x, y)));
                    assert(queue@ == seq![(x, y)]);
                    assert forall|a: int, b: int| is_node(w, h, a, b) implies (#[trigger] seen(visited@, nc, a, b) <==> (listed(isl0, (a as usize, b as usize))
                        || island@.contains((a as usize, b as usize)) || queue@.contains((a as usize, b as usize)))) by {
                        lemma_node_slot(w, h, a, b);
                        lemma_node_slot_injective(w, h, a, b, x as int, y as int);
                        if a == x && b == y {
                            assert(queue@[0] == (x, y));
                        }
                        assert(seen(v0, nc, a, b) <==> listed(isl0, (a as usize, b as usize)));
                    }
                    assert(bfs_ok(mask@, w, h, isl0, island@, queue@, start, visited@, nc));
                }
                while queue.len() > 0
                    invariant
                        w == width,
                        h == height,
                        nc == node_cols,
                        3 <= width <= i32::MAX,
                        3 <= height <= i32::MAX,
                        width * height <= usize::MAX,
                        mask.len() == width * height,
                        node_cols == (width - 1) / 2,
                        n_slots == max_nodes(w, h),
                        visited.len() == n_slots,
                        cnt == count_true(visited@),
                        cnt <= n_slots,
                        islands@ == isl0,
                        bfs_ok(mask@, w, h, isl0, island@, queue@, start, visited@, nc),
                        processed(mask@, w, h, island@, island@.len() as int, visited@, nc),
                        is_node(w, h, x as int, y as int),
                        seen(visited@, nc, x as int, y as int),
                        forall|a: int, b: int|
                            #[trigger] masked_node(mask@, w, h, a, b) && (b < y || (b == y && a < x)) ==> seen(visited@, nc, a, b),
                        island@.len() > 0 || queue@.len() > 0,
                    decreases 2 * (n_slots - cnt) + queue@.len(),
                {
                    let ghost q0 = queue@;
                    let ghost i0 = island@;
                    let (cx, cy) = queue.pop_front().unwrap();
                    assert(q0[0] == (cx, cy));
                    island.push((cx, cy));
                    proof {
                        assert(queue@ == q0.subrange(1, q0.len() as int));
                        assert(island@ == i0.push((cx, cy)));
                        lemma_bfs_pop(mask@, w, h, isl0, i0, q0, start, visited@, nc);
                    }
                    let dirs = dfs_dirs();
                    let ghost m0 = 2 * (n_slots - cnt) + queue@.len();
                    let mut d: usize = 0;
                    while d < 4
                        invariant
                            0 <= d <= 4,
                            dirs@.len() == 4,
                            forall|e: int| 0 <= e < 4 ==> #[trigger] dirs@[e] == (node_dx(e) as i32, node_dy(e) as i32),
                            masked_node(mask@, w, h, cx as int, cy as int),
                            island@.len() > 0,
                            island@.last() == (cx, cy),
                            w == width,
                            h == height,
                            nc == node_cols,
                            3 <= width <= i32::MAX,
                            3 <= height <= i32::MAX,
                            width * height <= usize::MAX,
                            mask.len() == width * height,
                            node_cols == (width - 1) / 2,
                            n_slots == max_nodes(w, h),
                            visited.len() == n_slots,
                            cnt == count_true(visited@),
                            cnt <= n_slots,
                            2 * (n_slots - cnt) + queue@.len() <= m0,
                            islands@ == isl0,
                            bfs_ok(mask@, w, h, isl0, island@, queue@, start, visited@, nc),
                            processed(mask@, w, h, island@, island@.len() - 1, visited@, nc),
                            forall|q: (int, int)|
                                #[trigger] linked(mask@, w, h, (cx as int, cy as int), q) && node_dir((cx as int, cy as int), q) < d
                                    ==> seen(visited@, nc, q.0, q.1),
                            is_node(w, h, x as int, y as int),
                            seen(visited@, nc, x as int, y as int),
                            forall|a: int, b: int|
                                #[trigger] masked_node(mask@, w, h, a, b) && (b < y || (b == y && a < x)) ==> seen(visited@, nc, a, b),
                        decreases 4 - d,
                    {
                        let (dx, dy) = dirs[d];
                        if let Some((nux, nuy)) = node_neighbor(cx, cy, dx, dy, width, height) {
                            proof {
                                lemma_index_in_bounds(nux as int, nuy as int, w, h);
                            }
                            if mask[nuy * width + nux] {
                                // The cell between the two nodes must be masked too.
                                let bx = (cx as i32 + dx / 2) as usize;
                                let by = (cy as i32 + dy / 2) as usize;
                                proof {
                                    lemma_index_in_bounds(bx as int, by as int, w, h);
                                    lemma_node_slot(w, h, nux as int, nuy as int);
                                }
                                if mask[by * width + bx] {
                                    let nni = node_index(nux, nuy, node_cols);
                                    assert(linked(mask@, w, h, (cx as int, cy as int), (nux as int, nuy as int)));
                                    if !visited[nni] {
                                        proof {
                                            lemma_count_true_set(visited@, nni as int);
                                            lemma_count_true_bound(visited@.update(nni as int, true));
                                        }
                                        let ghost vb = visited@;
                                        let ghost qb = queue@;
                                        visited.set(nni, true);
                                        cnt = cnt + 1;
                                        queue.push_back((nux, nuy));
                                        proof {
                                            lemma_bfs_push(mask@, w, h, isl0, island@, qb, start, vb, visited@, nc, (nux, nuy), d as int);
                                        }
                                    }
                                }
                            }
                        }
                        proof {
                            assert forall|q: (int, int)|
                                #[trigger] linked(mask@, w, h, (cx as int, cy as int), q) && node_dir((cx as int, cy as int), q) < d + 1
                                    implies seen(visited@, nc, q.0, q.1) by {
                                lemma_node_slot(w, h, q.0, q.1);
                            }
                        }
                        d = d + 1;
                    }
                    proof {
                        lemma_processed_last(mask@, w, h, island@, visited@, nc);
                    }
                }
                let ghost isq = island@;
                let ghost qq = queue@;
                islands.push(island);
                proof {
                    lemma_islands_push(mask@, w, h, isl0, islands@, isq, qq, start, visited@, nc);
                    assert(isq[0] == (x, y));
                    assert forall|k: int| 0 < k < isq.len() implies scan_before((x, y), #[trigger] isq[k]) by {
                        assert(masked_node(mask@, w, h, isq[k].0 as int, isq[k].1 as int));
                        assert(!listed(isl0, isq[k]));
                        assert(isq[k] != isq[0]);
                    }
                    assert forall|i: int, j: int|
                        0 <= i < j < islands@.len() implies scan_before(#[trigger] islands@[i]@[0], #[trigger] islands@[j]@[0]) by {
                        if j < isl0.len() {
                            assert(islands@[i] == isl0[i] && islands@[j] == isl0[j]);
                        } else {
                            assert(islands@[i] == isl0[i]);
                            assert(islands@[j]@ == isq);
                        }
                    }
                    assert forall|i: int, k: int|
                        0 <= i < islands@.len() && 0 < k < islands@[i]@.len() implies scan_before(islands@[i]@[0], #[trigger] islands@[i]@[k]) by {
                        if i < isl0.len() {
                            assert(islands@[i] == isl0[i]);
                        } else {
                            assert(islands@[i]@ == isq);
                        }
                    }
                    assert forall|i: int| 0 <= i < islands@.len() implies scan_before((#[trigger] islands@[i])@[0], (x, y)) || islands@[i]@[0] == (x, y) by {
                        if i < isl0.len() {
                            assert(islands@[i] == isl0[i]);
                        } else {
                            assert(islands@[i]@ == isq);
                        }
                    }
                }
            }
            proof {
                assert forall|a: int, b: int|
                    #[trigger] masked_node(mask@, w, h, a, b) && (b < y || (b == y && a < x + 2)) implies seen(visited@, nc, a, b) by {
                    if b == y && a == x {
                    } else if b == y && a == x + 1 {
                        assert(a % 2 == 0);
                    }
                }
            }
            x = x + 2;
        }
        proof {
            assert forall|a: int, b: int| #[trigger] masked_node(mask@, w, h, a, b) && b < y + 2 implies seen(visited@, nc, a, b) by {
                if b == y + 1 {
                    assert(b % 2 == 0);
                } else if b == y {
                    assert(a <= w - 2);
                }
            }
        }
        y = y + 2;
    }
    proof {
        assert forall|x: int, y: int| #[trigger] masked_node(mask@, w, h, x, y) implies listed(islands@, (x as usize, y as usize)) by {
            assert(y <= h - 2);
        }
    }
    islands
}

} // verus!
