//! Reachability of a generated floor: a flood fill from the spawn corner and
//! every stair, walking through walkable tiles and (auto-opening) doors.

use vstd::prelude::*;
use std::collections::VecDeque;
use crate::grid::{cell_index, count_true, lemma_count_true_bound, lemma_count_true_set, lemma_count_true_none, lemma_index_in_bounds, lemma_index_injective};
use crate::map::TileMap;
use crate::nobiscuit_map::NobiscuitMap;
use crate::tiles::{TileType, TILE_EMPTY, TILE_GOAL, TILE_STAIRS_UP, TILE_STAIRS_DOWN, TILE_WALL, TILE_DOOR_FUSUMA, TILE_DOOR_KITCHEN, TILE_DOOR_TOILET, TILE_DOOR_GENKAN, is_passable_tile, is_walkable_tile};

verus! {

/// Whether a flood fill may enter `(x, y)`.
pub open spec fn passable_at(m: &NobiscuitMap, x: int, y: int) -> bool {
    match m.spec_get(x, y) {
        Some(t) => is_passable_tile(t),
        None => false,
    }
}

/// Whether the player can stand on `(x, y)`.
pub open spec fn walkable_at(m: &NobiscuitMap, x: int, y: int) -> bool {
    match m.spec_get(x, y) {
        Some(t) => is_walkable_tile(t),
        None => false,
    }
}

/// Whether `(x, y)` holds a staircase.
pub open spec fn stairs_at(m: &NobiscuitMap, x: int, y: int) -> bool {
    match m.spec_get(x, y) {
        Some(t) => t == TILE_STAIRS_UP || t == TILE_STAIRS_DOWN,
        None => false,
    }
}

/// Where a flood fill starts: the spawn corner `(1, 1)` when passable, and every stair.
pub open spec fn is_seed(m: &NobiscuitMap, x: int, y: int) -> bool {
    (x == 1 && y == 1 && passable_at(m, 1, 1)) || stairs_at(m, x, y)
}

/// `b` is one of the four orthogonal neighbours of `a`.
pub open spec fn adjacent(a: (int, int), b: (int, int)) -> bool {
    ||| (b.0 == a.0 + 1 && b.1 == a.1)
    ||| (b.0 == a.0 - 1 && b.1 == a.1)
    ||| (b.0 == a.0 && b.1 == a.1 + 1)
    ||| (b.0 == a.0 && b.1 == a.1 - 1)
}

/// A walk from a seed through passable cells, one orthogonal step at a time.
pub open spec fn is_walk(m: &NobiscuitMap, p: Seq<(int, int)>) -> bool {
    &&& p.len() > 0
    &&& is_seed(m, p[0].0, p[0].1)
    &&& forall|i: int| 0 <= i < p.len() ==> passable_at(m, #[trigger] p[i].0, p[i].1)
    &&& forall|i: int| 0 <= i < p.len() - 1 ==> adjacent(#[trigger] p[i], p[i + 1])
}

/// Some walk ends at `(x, y)`.
pub open spec fn reachable(m: &NobiscuitMap, x: int, y: int) -> bool {
    exists|p: Seq<(int, int)>| is_walk(m, p) && p.last() == (x, y)
}

/// Every walkable cell is reachable from the spawn corner or a stair.
pub open spec fn fully_connected(m: &NobiscuitMap) -> bool {
    forall|x: int, y: int| walkable_at(m, x, y) ==> #[trigger] reachable(m, x, y)
}

/// Column step of direction `d` (east, west, south, north).
pub open spec fn dir_dx(d: int) -> int {
    if d == 0 {
        1
    } else if d == 1 {
        -1
    } else {
        0
    }
}

/// Row step of direction `d` (east, west, south, north).
pub open spec fn dir_dy(d: int) -> int {
    if d == 2 {
        1
    } else if d == 3 {
        -1
    } else {
        0
    }
}

/// The four orthogonal steps, in the order east, west, south, north.
pub fn dir4(d: usize) -> (r: (i32, i32))
    requires
        d < 4,
    ensures
        r.0 == dir_dx(d as int),
        r.1 == dir_dy(d as int),
{
    if d == 0 {
        (1, 0)
    } else if d == 1 {
        (-1, 0)
    } else if d == 2 {
        (0, 1)
    } else {
        (0, -1)
    }
}

/// Every passable neighbour of `(a, b)` is marked in `vis`.
pub open spec fn closed_at(m: &NobiscuitMap, vis: Seq<bool>, w: int, a: int, b: int) -> bool {
    forall|e: int|
        0 <= e < 4 && passable_at(m, a + dir_dx(e), b + dir_dy(e)) ==> #[trigger] vis[cell_index(
            w,
            a + dir_dx(e),
            b + dir_dy(e),
        )]
}

/// Return true if `tile` can be walked through: walkable tiles and the four
/// door tiles (doors open automatically in play).
pub fn is_passable(tile: Option<TileType>) -> (r: bool)
    ensures
        r == match tile {
            Some(t) => is_passable_tile(t),
            None => false,
        },
{
    match tile {
        Some(t) => t == TILE_EMPTY || t == TILE_GOAL || t == TILE_STAIRS_UP || t == TILE_STAIRS_DOWN
            || t == TILE_DOOR_FUSUMA || t == TILE_DOOR_KITCHEN || t == TILE_DOOR_TOILET || t
            == TILE_DOOR_GENKAN,
        None => false,
    }
}

pub proof fn lemma_single_walk(m: &NobiscuitMap, x: int, y: int)
    requires
        is_seed(m, x, y),
    ensures
        reachable(m, x, y),
{
    let p = seq![(x, y)];
    assert(is_walk(m, p));
    assert(p.last() == (x, y));
}

pub proof fn lemma_extend_walk(m: &NobiscuitMap, x: int, y: int, nx: int, ny: int)
    requires
        reachable(m, x, y),
        passable_at(m, nx, ny),
        adjacent((x, y), (nx, ny)),
    ensures
        reachable(m, nx, ny),
{
    let p = choose|p: Seq<(int, int)>| is_walk(m, p) && p.last() == (x, y);
    let q = p.push((nx, ny));
    assert forall|i: int| 0 <= i < q.len() implies passable_at(m, #[trigger] q[i].0, q[i].1) by {
        if i < p.len() {
            assert(q[i] == p[i]);
        }
    }
    assert forall|i: int| 0 <= i < q.len() - 1 implies adjacent(#[trigger] q[i], q[i + 1]) by {
        if i < p.len() - 1 {
            assert(q[i] == p[i] && q[i + 1] == p[i + 1]);
        } else {
            assert(q[i] == (x, y));
        }
    }
    assert(is_walk(m, q));
    assert(q.last() == (nx, ny));
}

proof fn lemma_walk_marked(m: &NobiscuitMap, vis: Seq<bool>, w: int, h: int, p: Seq<(int, int)>, i: int)
    requires
        m.spec_width() == w,
        m.spec_height() == h,
        vis.len() == w * h,
        forall|a: int, b: int|
            0 <= a < w && 0 <= b < h && is_seed(m, a, b) ==> #[trigger] vis[cell_index(w, a, b)],
        forall|a: int, b: int|
            0 <= a < w && 0 <= b < h && #[trigger] vis[cell_index(w, a, b)] ==> closed_at(
                m,
                vis,
                w,
                a,
                b,
            ),
        is_walk(m, p),
        0 <= i < p.len(),
    ensures
        vis[cell_index(w, p[i].0, p[i].1)],
    decreases i,
{
    assert(passable_at(m, p[i].0, p[i].1));
    m.lemma_bounds(p[i].0, p[i].1);
    if i > 0 {
        lemma_walk_marked(m, vis, w, h, p, i - 1);
        assert(passable_at(m, p[i - 1].0, p[i - 1].1));
        m.lemma_bounds(p[i - 1].0, p[i - 1].1);
        assert(adjacent(p[i - 1], p[i]));
        assert(closed_at(m, vis, w, p[i - 1].0, p[i - 1].1));
        let a = p[i - 1];
        let b = p[i];
        if b.0 == a.0 + 1 {
            assert(passable_at(m, a.0 + dir_dx(0), a.1 + dir_dy(0)));
        } else if b.0 == a.0 - 1 {
            assert(passable_at(m, a.0 + dir_dx(1), a.1 + dir_dy(1)));
        } else if b.1 == a.1 + 1 {
            assert(passable_at(m, a.0 + dir_dx(2), a.1 + dir_dy(2)));
        } else {
            assert(passable_at(m, a.0 + dir_dx(3), a.1 + dir_dy(3)));
        }
    }
}

/// Every marked in-bounds cell is reachable.
spec fn marks_reachable(m: &NobiscuitMap, vis: Seq<bool>, w: int, h: int) -> bool {
    forall|a: int, b: int|
        0 <= a < w && 0 <= b < h && #[trigger] vis[cell_index(w, a, b)] ==> reachable(m, a, b)
}

/// The queue holds distinct, in-bounds, marked cells.
spec fn queue_ok(q: Seq<(usize, usize)>, vis: Seq<bool>, w: int, h: int) -> bool {
    &&& q.no_duplicates()
    &&& forall|k: int|
        0 <= k < q.len() ==> #[trigger] q[k].0 < w && q[k].1 < h && vis[cell_index(
            w,
            q[k].0 as int,
            q[k].1 as int,
        )]
}

/// Every marked cell other than `skip` is still queued or has all its passable neighbours marked.
spec fn frontier_ok(
    m: &NobiscuitMap,
    vis: Seq<bool>,
    q: Seq<(usize, usize)>,
    w: int,
    h: int,
    skip: Option<(int, int)>,
) -> bool {
    forall|a: int, b: int|
        0 <= a < w && 0 <= b < h && #[trigger] vis[cell_index(w, a, b)] && skip != Some((a, b))
            ==> (q.contains((a as usize, b as usize)) || closed_at(m, vis, w, a, b))
}

/// Every in-bounds seed is marked.
spec fn seeds_marked(m: &NobiscuitMap, vis: Seq<bool>, w: int, h: int) -> bool {
    forall|a: int, b: int|
        0 <= a < w && 0 <= b < h && is_seed(m, a, b) ==> #[trigger] vis[cell_index(w, a, b)]
}

/// Marking one cell keeps every other mark.
proof fn lemma_mark(old_vis: Seq<bool>, vis: Seq<bool>, w: int, h: int, x: int, y: int)
    requires
        0 <= x < w,
        0 <= y < h,
        old_vis.len() == w * h,
        vis == old_vis.update(cell_index(w, x, y), true),
    ensures
        vis.len() == w * h,
        forall|a: int, b: int|
            0 <= a < w && 0 <= b < h ==> #[trigger] vis[cell_index(w, a, b)] == (old_vis[cell_index(
                w,
                a,
                b,
            )] || (a == x && b == y)),
{
    lemma_index_in_bounds(x, y, w, h);
    assert forall|a: int, b: int| 0 <= a < w && 0 <= b < h implies #[trigger] vis[cell_index(w, a, b)] == (old_vis[cell_index(w, a, b)] || (a == x && b == y)) by {
        lemma_index_in_bounds(a, b, w, h);
        lemma_index_injective(a, b, x, y, w);
    }
}

/// Marking an unmarked cell and queueing it keeps the queue well formed.
proof fn lemma_push(
    old_vis: Seq<bool>,
    vis: Seq<bool>,
    old_q: Seq<(usize, usize)>,
    q: Seq<(usize, usize)>,
    w: int,
    h: int,
    x: usize,
    y: usize,
)
    requires
        x < w <= usize::MAX,
        y < h <= usize::MAX,
        old_vis.len() == w * h,
        !old_vis[cell_index(w, x as int, y as int)],
        vis == old_vis.update(cell_index(w, x as int, y as int), true),
        q == old_q.push((x, y)),
        queue_ok(old_q, old_vis, w, h),
    ensures
        queue_ok(q, vis, w, h),
        forall|a: int, b: int|
            0 <= a < w && 0 <= b < h ==> (#[trigger] q.contains((a as usize, b as usize)) <==> (
            old_q.contains((a as usize, b as usize)) || (a == x && b == y))),
{
    lemma_index_in_bounds(x as int, y as int, w, h);
    lemma_mark(old_vis, vis, w, h, x as int, y as int);
    assert forall|k: int| 0 <= k < q.len() implies #[trigger] q[k].0 < w && q[k].1 < h && vis[cell_index(w, q[k].0 as int, q[k].1 as int)] by {
        if k < old_q.len() {
            assert(q[k] == old_q[k]);
            assert(old_q[k].0 < w && old_vis[cell_index(w, old_q[k].0 as int, old_q[k].1 as int)]);
        } else {
            assert(q[k] == (x, y));
        }
        assert(vis[cell_index(w, q[k].0 as int, q[k].1 as int)]);
    }
    assert forall|i: int, j: int| 0 <= i < q.len() && 0 <= j < q.len() && i != j implies q[i] != q[j] by {
        if i < old_q.len() && j < old_q.len() {
            assert(q[i] == old_q[i] && q[j] == old_q[j]);
        } else if i < old_q.len() {
            assert(q[i] == old_q[i]);
            assert(old_vis[cell_index(w, old_q[i].0 as int, old_q[i].1 as int)]);
        } else if j < old_q.len() {
            assert(q[j] == old_q[j]);
            assert(old_vis[cell_index(w, old_q[j].0 as int, old_q[j].1 as int)]);
        }
    }
    assert forall|a: int, b: int| 0 <= a < w && 0 <= b < h implies (#[trigger] q.contains((a as usize, b as usize)) <==> (old_q.contains((a as usize, b as usize)) || (a == x && b == y))) by {
        if q.contains((a as usize, b as usize)) {
            let k = choose|k: int| 0 <= k < q.len() && q[k] == (a as usize, b as usize);
            if k < old_q.len() {
                assert(old_q[k] == q[k]);
            } else {
                assert(q[k] == (x, y));
                assert(a as usize == x && b as usize == y);
            }
        }
        if old_q.contains((a as usize, b as usize)) {
            let k = choose|k: int| 0 <= k < old_q.len() && old_q[k] == (a as usize, b as usize);
            assert(q[k] == old_q[k]);
        }
        if a == x && b == y {
            assert(q[old_q.len() as int] == (x, y));
            assert((a as usize, b as usize) == (x, y));
            assert(q.contains((a as usize, b as usize)));
        }
    }
}

/// Marking more cells keeps a cell closed.
proof fn lemma_closed_monotone(m: &NobiscuitMap, old_vis: Seq<bool>, vis: Seq<bool>, w: int, h: int, a: int, b: int)
    requires
        m.spec_width() == w,
        m.spec_height() == h,
        closed_at(m, old_vis, w, a, b),
        forall|c: int, d: int|
            0 <= c < w && 0 <= d < h && #[trigger] old_vis[cell_index(w, c, d)] ==> vis[cell_index(w, c, d)],
    ensures
        closed_at(m, vis, w, a, b),
{
    assert forall|e: int|
        0 <= e < 4 && passable_at(m, a + dir_dx(e), b + dir_dy(e)) implies #[trigger] vis[cell_index(w, a + dir_dx(e), b + dir_dy(e))] by {
        m.lemma_bounds(a + dir_dx(e), b + dir_dy(e));
        assert(old_vis[cell_index(w, a + dir_dx(e), b + dir_dy(e))]);
    }
}

/// One step of the expansion: neighbour `(nx, ny)` of the cell being expanded
/// is marked and queued.
proof fn lemma_expand_step(
    m: &NobiscuitMap,
    old_vis: Seq<bool>,
    vis: Seq<bool>,
    old_q: Seq<(usize, usize)>,
    q: Seq<(usize, usize)>,
    w: int,
    h: int,
    x: int,
    y: int,
    nx: usize,
    ny: usize,
)
    requires
        m.spec_width() == w,
        m.spec_height() == h,
        nx < w <= usize::MAX,
        ny < h <= usize::MAX,
        old_vis.len() == w * h,
        !old_vis[cell_index(w, nx as int, ny as int)],
        vis == old_vis.update(cell_index(w, nx as int, ny as int), true),
        q == old_q.push((nx, ny)),
        queue_ok(old_q, old_vis, w, h),
        marks_reachable(m, old_vis, w, h),
        reachable(m, nx as int, ny as int),
        frontier_ok(m, old_vis, old_q, w, h, Some((x, y))),
        seeds_marked(m, old_vis, w, h),
    ensures
        queue_ok(q, vis, w, h),
        marks_reachable(m, vis, w, h),
        frontier_ok(m, vis, q, w, h, Some((x, y))),
        seeds_marked(m, vis, w, h),
        forall|c: int, d: int|
            0 <= c < w && 0 <= d < h && #[trigger] old_vis[cell_index(w, c, d)] ==> vis[cell_index(w, c, d)],
        forall|a: int, b: int|
            0 <= a < w && 0 <= b < h ==> (#[trigger] q.contains((a as usize, b as usize)) <==> (
            old_q.contains((a as usize, b as usize)) || (a == nx && b == ny))),
{
    lemma_mark(old_vis, vis, w, h, nx as int, ny as int);
    lemma_push(old_vis, vis, old_q, q, w, h, nx, ny);
    assert forall|a: int, b: int|
        0 <= a < w && 0 <= b < h && #[trigger] vis[cell_index(w, a, b)] && Some((x, y)) != Some((a, b))
            implies (q.contains((a as usize, b as usize)) || closed_at(m, vis, w, a, b)) by {
        if !(a == nx && b == ny) && !old_q.contains((a as usize, b as usize)) {
            lemma_closed_monotone(m, old_vis, vis, w, h, a, b);
        }
    }
}

/// Flood fill from the spawn corner (when passable) and every stair,
/// marking the cells that can be reached.
pub fn reachable_cells(map: &NobiscuitMap, width: usize, height: usize) -> (vis: Vec<bool>)
    requires
        map.wf(),
        map.spec_width() == width,
        map.spec_height() == height,
        width <= i32::MAX,
        height <= i32::MAX,
    ensures
        vis.len() == width * height,
        forall|x: int, y: int|
            0 <= x < width && 0 <= y < height ==> (#[trigger] vis@[cell_index(width as int, x, y)]
                <==> reachable(map, x, y)),
{
    let ghost w = width as int;
    let ghost h = height as int;
    proof {
        map.lemma_wf_size();
    }
    let n = width * height;
    let mut visited: Vec<bool> = vec![false; n];
    assert forall|i: int| 0 <= i < n implies !visited@[i] by {
        assert(cloned(false, visited@[i]));
    }
    let mut q: VecDeque<(usize, usize)> = VecDeque::new();
    let ghost mut cnt: nat = 0;
    proof {
        lemma_count_true_none(visited@);
        lemma_count_true_bound(visited@);
        assert forall|a: int, b: int| 0 <= a < w && 0 <= b < h implies !#[trigger] visited@[cell_index(w, a, b)] by {
            lemma_index_in_bounds(a, b, w, h);
        }
    }
    if is_passable(map.get(1, 1)) {
        proof {
            map.lemma_bounds(1, 1);
            lemma_index_in_bounds(1, 1, w, h);
            lemma_count_true_set(visited@, cell_index(w, 1, 1));
            lemma_single_walk(map, 1, 1);
        }
        let idx = 1 * width + 1;
        let ghost vis0 = visited@;
        let ghost q0 = q@;
        visited.set(idx, true);
        q.push_back((1, 1));
        proof {
            cnt = cnt + 1;
            lemma_count_true_bound(visited@);
            lemma_push(vis0, visited@, q0, q@, w, h, 1, 1);
            lemma_mark(vis0, visited@, w, h, 1, 1);
        }
    }
    proof {
        assert forall|a: int, b: int|
            0 <= a < w && 0 <= b < h && #[trigger] visited@[cell_index(w, a, b)] implies reachable(map, a, b) && q@.contains((a as usize, b as usize)) by {
        }
    }
    let mut y: usize = 0;
    while y < height
        invariant
            0 <= y <= height,
            w == width,
            h == height,
            map.wf(),
            width <= i32::MAX,
            height <= i32::MAX,
            map.spec_width() == width,
            map.spec_height() == height,
            n == width * height,
            visited.len() == n,
            cnt == count_true(visited@),
            q@.len() == cnt,
            queue_ok(q@, visited@, w, h),
            forall|a: int, b: int|
                0 <= a < w && 0 <= b < h && #[trigger] visited@[cell_index(w, a, b)] ==> reachable(
                    map,
                    a,
                    b,
                ) && q@.contains((a as usize, b as usize)),
            passable_at(map, 1, 1) ==> visited@[cell_index(w, 1, 1)],
            forall|a: int, b: int|
                0 <= a < w && 0 <= b < y && stairs_at(map, a, b) ==> #[trigger] visited@[cell_index(
                    w,
                    a,
                    b,
                )],
        decreases height - y,
    {
        let mut x: usize = 0;
        while x < width
            invariant
                0 <= x <= width,
                0 <= y < height,
                w == width,
                h == height,
                map.wf(),
                width <= i32::MAX,
                height <= i32::MAX,
                map.spec_width() == width,
                map.spec_height() == height,
                n == width * height,
                visited.len() == n,
                cnt == count_true(visited@),
                q@.len() == cnt,
                queue_ok(q@, visited@, w, h),
                forall|a: int, b: int|
                    0 <= a < w && 0 <= b < h && #[trigger] visited@[cell_index(w, a, b)] ==> reachable(
                        map,
                        a,
                        b,
                    ) && q@.contains((a as usize, b as usize)),
                passable_at(map, 1, 1) ==> visited@[cell_index(w, 1, 1)],
                forall|a: int, b: int|
                    0 <= a < w && 0 <= b < y && stairs_at(map, a, b) ==> #[trigger] visited@[cell_index(
                        w,
                        a,
                        b,
                    )],
                forall|a: int|
                    0 <= a < x && stairs_at(map, a, y as int) ==> #[trigger] visited@[cell_index(
                        w,
                        a,
                        y as int,
                    )],
            decreases width - x,
        {
            let t = map.get(x as i32, y as i32);
            if t == Some(TILE_STAIRS_UP) || t == Some(TILE_STAIRS_DOWN) {
                proof {
                    lemma_index_in_bounds(x as int, y as int, w, h);
                }
                let idx = y * width + x;
                if !visited[idx] {
                    proof {
                        lemma_count_true_set(visited@, idx as int);
                        lemma_single_walk(map, x as int, y as int);
                    }
                    let ghost old_vis = visited@;
                    let ghost old_q = q@;
                    visited.set(idx, true);
                    q.push_back((x, y));
                    proof {
                        cnt = cnt + 1;
                        lemma_push(old_vis, visited@, old_q, q@, w, h, x, y);
                        lemma_mark(old_vis, visited@, w, h, x as int, y as int);
                    }
                }
            }
            x = x + 1;
        }
        y = y + 1;
    }
    proof {
        lemma_count_true_bound(visited@);
        assert forall|a: int, b: int|
            0 <= a < w && 0 <= b < h && #[trigger] visited@[cell_index(w, a, b)] && None::<(int, int)> != Some((a, b)) implies (q@.contains((a as usize, b as usize)) || closed_at(map, visited@, w, a, b)) by {
        }
        assert(frontier_ok(map, visited@, q@, w, h, None));
        assert(marks_reachable(map, visited@, w, h));
        assert forall|a: int, b: int| 0 <= a < w && 0 <= b < h && is_seed(map, a, b) implies #[trigger] visited@[cell_index(w, a, b)] by {
            if !(a == 1 && b == 1 && passable_at(map, 1, 1)) {
                assert(stairs_at(map, a, b));
            }
        }
    }
    // Breadth-first expansion.
    while q.len() > 0
        invariant
            w == width,
            h == height,
            map.wf(),
            width <= i32::MAX,
            height <= i32::MAX,
            map.spec_width() == width,
            map.spec_height() == height,
            n == width * height,
            visited.len() == n,
            cnt == count_true(visited@),
            cnt <= n,
            queue_ok(q@, visited@, w, h),
            marks_reachable(map, visited@, w, h),
            frontier_ok(map, visited@, q@, w, h, None),
            seeds_marked(map, visited@, w, h),
        decreases 2 * (n - cnt) + q@.len(),
    {
        let ghost q0 = q@;
        let ghost m0 = 2 * (n - cnt) + q0.len();
        let (x, y) = q.pop_front().unwrap();
        proof {
            assert(q0[0] == (x, y));
            assert forall|k: int| 0 <= k < q@.len() implies q@[k] == q0[k + 1] by {}
            assert(!q@.contains((x, y))) by {
                if q@.contains((x, y)) {
                    let k = choose|k: int| 0 <= k < q@.len() && q@[k] == (x, y);
                    assert(q0[k + 1] == q0[0]);
                }
            }
            assert(q@.no_duplicates()) by {
                assert forall|i: int, j: int| 0 <= i < q@.len() && 0 <= j < q@.len() && i != j implies q@[i] != q@[j] by {
                    assert(q@[i] == q0[i + 1] && q@[j] == q0[j + 1]);
                }
            }
            assert forall|k: int| 0 <= k < q@.len() implies #[trigger] q@[k].0 < w && q@[k].1 < h && visited@[cell_index(w, q@[k].0 as int, q@[k].1 as int)] by {
                assert(q@[k] == q0[k + 1]);
            }
            assert forall|a: int, b: int|
                0 <= a < w && 0 <= b < h && #[trigger] visited@[cell_index(w, a, b)] && Some((x as int, y as int)) != Some((a, b))
                    implies (q@.contains((a as usize, b as usize)) || closed_at(map, visited@, w, a, b)) by {
                if q0.contains((a as usize, b as usize)) {
                    let k = choose|k: int| 0 <= k < q0.len() && q0[k] == (a as usize, b as usize);
                    assert(k != 0);
                    assert(q@[k - 1] == q0[k]);
                }
            }
        }
        let mut d: usize = 0;
        while d < 4
            invariant
                0 <= d <= 4,
                x < width,
                y < height,
                w == width,
                h == height,
                map.wf(),
                width <= i32::MAX,
                height <= i32::MAX,
                map.spec_width() == width,
                map.spec_height() == height,
                n == width * height,
                visited.len() == n,
                cnt == count_true(visited@),
                cnt <= n,
                2 * (n - cnt) + q@.len() < m0,
                !q@.contains((x, y)),
                visited@[cell_index(w, x as int, y as int)],
                queue_ok(q@, visited@, w, h),
                marks_reachable(map, visited@, w, h),
                frontier_ok(map, visited@, q@, w, h, Some((x as int, y as int))),
                seeds_marked(map, visited@, w, h),
                forall|e: int|
                    0 <= e < d && passable_at(map, x + dir_dx(e), y + dir_dy(e)) ==> #[trigger] visited@[cell_index(
                        w,
                        x + dir_dx(e),
                        y + dir_dy(e),
                    )],
            decreases 4 - d,
        {
            let (dx, dy) = dir4(d);
            let nx = x as i32 + dx;
            let ny = y as i32 + dy;
            proof {
                map.lemma_bounds(nx as int, ny as int);
            }
            if !(nx < 0 || ny < 0 || nx >= width as i32 || ny >= height as i32) {
                proof {
                    lemma_index_in_bounds(nx as int, ny as int, w, h);
                }
                let idx = ny as usize * width + nx as usize;
                if !visited[idx] && is_passable(map.get(nx, ny)) {
                    proof {
                        lemma_count_true_set(visited@, idx as int);
                        assert(marks_reachable(map, visited@, w, h));
                        assert(visited@[cell_index(w, x as int, y as int)]);
                        lemma_extend_walk(map, x as int, y as int, nx as int, ny as int);
                    }
                    let ghost old_vis = visited@;
                    let ghost old_q = q@;
                    visited.set(idx, true);
                    q.push_back((nx as usize, ny as usize));
                    proof {
                        cnt = cnt + 1;
                        lemma_count_true_bound(visited@);
                        lemma_expand_step(map, old_vis, visited@, old_q, q@, w, h, x as int, y as int, nx as usize, ny as usize);
                        assert forall|e: int|
                            0 <= e <= d && passable_at(map, x + dir_dx(e), y + dir_dy(e)) implies #[trigger] visited@[cell_index(w, x + dir_dx(e), y + dir_dy(e))] by {
                            if e < d {
                                map.lemma_bounds(x + dir_dx(e), y + dir_dy(e));
                                assert(old_vis[cell_index(w, x + dir_dx(e), y + dir_dy(e))]);
                            }
                        }
                    }
                }
            }
            d = d + 1;
        }
        proof {
            assert(closed_at(map, visited@, w, x as int, y as int));
            assert forall|a: int, b: int|
                0 <= a < w && 0 <= b < h && #[trigger] visited@[cell_index(w, a, b)] && None::<(int, int)> != Some((a, b))
                    implies (q@.contains((a as usize, b as usize)) || closed_at(map, visited@, w, a, b)) by {
                if !(a == x && b == y) {
                    assert(Some((x as int, y as int)) != Some((a, b)));
                }
            }
        }
    }
    proof {
        assert forall|a: int, b: int|
            0 <= a < w && 0 <= b < h && #[trigger] visited@[cell_index(w, a, b)] implies closed_at(map, visited@, w, a, b) by {
            assert(None::<(int, int)> != Some((a, b)));
        }
        assert forall|x: int, y: int|
            0 <= x < width && 0 <= y < height implies (#[trigger] visited@[cell_index(width as int, x, y)]
                <==> reachable(map, x, y)) by {
            if reachable(map, x, y) {
                let p = choose|p: Seq<(int, int)>| is_walk(map, p) && p.last() == (x, y);
                lemma_walk_marked(map, visited@, w, h, p, p.len() - 1);
            }
        }
    }
    visited
}

/// Verify that every walkable tile (EMPTY / GOAL / stairs) is reachable from the
/// spawn corner or a stair. Doors are treated as passable (auto-opened in play).
pub fn verify_connectivity(map: &NobiscuitMap, width: usize, height: usize) -> (r: bool)
    requires
        map.wf(),
        map.spec_width() == width,
        map.spec_height() == height,
        width <= i32::MAX,
        height <= i32::MAX,
    ensures
        r == fully_connected(map),
{
    let visited = reachable_cells(map, width, height);
    let mut y: usize = 0;
    while y < height
        invariant
            0 <= y <= height,
            map.wf(),
            map.spec_width() == width,
            map.spec_height() == height,
            width <= i32::MAX,
            height <= i32::MAX,
            visited.len() == width * height,
            forall|x: int, yy: int|
                0 <= x < width && 0 <= yy < height ==> (#[trigger] visited@[cell_index(
                    width as int,
                    x,
                    yy,
                )] <==> reachable(map, x, yy)),
            forall|a: int, b: int|
                0 <= a < width && 0 <= b < y && walkable_at(map, a, b) ==> #[trigger] reachable(
                    map,
                    a,
                    b,
                ),
        decreases height - y,
    {
        let mut x: usize = 0;
        while x < width
            invariant
                0 <= x <= width,
                0 <= y < height,
                map.wf(),
                map.spec_width() == width,
                map.spec_height() == height,
                width <= i32::MAX,
                height <= i32::MAX,
                visited.len() == width * height,
                forall|x: int, yy: int|
                    0 <= x < width && 0 <= yy < height ==> (#[trigger] visited@[cell_index(
                        width as int,
                        x,
                        yy,
                    )] <==> reachable(map, x, yy)),
                forall|a: int, b: int|
                    0 <= a < width && 0 <= b < y && walkable_at(map, a, b) ==> #[trigger] reachable(
                        map,
                        a,
                        b,
                    ),
                forall|a: int|
                    0 <= a < x && walkable_at(map, a, y as int) ==> #[trigger] reachable(
                        map,
                        a,
                        y as int,
                    ),
            decreases width - x,
        {
            let t = map.get(x as i32, y as i32);
            let walkable = t == Some(TILE_EMPTY) || t == Some(TILE_GOAL) || t == Some(TILE_STAIRS_UP)
                || t == Some(TILE_STAIRS_DOWN);
            proof {
                lemma_index_in_bounds(x as int, y as int, width as int, height as int);
            }
            assert(visited@[cell_index(width as int, x as int, y as int)] == visited@[y * width + x]);
            assert(walkable == walkable_at(map, x as int, y as int));
            if walkable && !visited[y * width + x] {
                assert(!reachable(map, x as int, y as int));
                return false;
            }
            x = x + 1;
        }
        y = y + 1;
    }
    assert forall|x: int, y: int| walkable_at(map, x, y) implies #[trigger] reachable(map, x, y) by {
        map.lemma_bounds(x, y);
    }
    true
}

/// The cells that `wall_off_unreachable` turns into walls.
pub open spec fn walled_off(m: &NobiscuitMap, x: int, y: int) -> bool {
    &&& 1 <= x < m.spec_width() - 1
    &&& 1 <= y < m.spec_height() - 1
    &&& m.cell(x, y) == TILE_EMPTY
    &&& !reachable(m, x, y)
}

/// Every cell of a walk is itself reachable.
proof fn lemma_walk_prefix(m: &NobiscuitMap, p: Seq<(int, int)>, i: int)
    requires
        is_walk(m, p),
        0 <= i < p.len(),
    ensures
        reachable(m, p[i].0, p[i].1),
{
    let q = p.subrange(0, i + 1);
    assert forall|k: int| 0 <= k < q.len() implies passable_at(m, #[trigger] q[k].0, q[k].1) by {
        assert(q[k] == p[k]);
    }
    assert forall|k: int| 0 <= k < q.len() - 1 implies adjacent(#[trigger] q[k], q[k + 1]) by {
        assert(q[k] == p[k] && q[k + 1] == p[k + 1]);
    }
    assert(is_walk(m, q));
    assert(q.last() == p[i]);
}

/// Walling off unreachable cells keeps every reachable cell reachable.
proof fn lemma_wall_off_keeps_reachable(old_m: &NobiscuitMap, m: &NobiscuitMap, x: int, y: int)
    requires
        m.spec_width() == old_m.spec_width(),
        m.spec_height() == old_m.spec_height(),
        forall|a: int, b: int|
            old_m.in_bounds(a, b) ==> #[trigger] m.cell(a, b) == if walled_off(old_m, a, b) {
                TILE_WALL
            } else {
                old_m.cell(a, b)
            },
        reachable(old_m, x, y),
    ensures
        reachable(m, x, y),
{
    let p = choose|p: Seq<(int, int)>| is_walk(old_m, p) && p.last() == (x, y);
    assert forall|i: int| 0 <= i < p.len() implies passable_at(m, #[trigger] p[i].0, p[i].1) by {
        lemma_walk_prefix(old_m, p, i);
        assert(passable_at(old_m, p[i].0, p[i].1));
        old_m.lemma_bounds(p[i].0, p[i].1);
        assert(m.cell(p[i].0, p[i].1) == old_m.cell(p[i].0, p[i].1));
    }
    old_m.lemma_bounds(p[0].0, p[0].1);
    old_m.lemma_bounds(1, 1);
    if old_m.in_bounds(1, 1) {
        assert(m.cell(1, 1) == old_m.cell(1, 1) || walled_off(old_m, 1, 1));
        if passable_at(old_m, 1, 1) {
            lemma_single_walk(old_m, 1, 1);
        }
    }
    if old_m.in_bounds(p[0].0, p[0].1) {
        lemma_walk_prefix(old_m, p, 0);
        assert(m.cell(p[0].0, p[0].1) == old_m.cell(p[0].0, p[0].1));
    }
    assert(is_seed(m, p[0].0, p[0].1));
    assert(is_walk(m, p));
}

/// Fallback repair: wall off every unreachable EMPTY cell inside the outer
/// ring so no items spawn where the player cannot reach them.
pub fn wall_off_unreachable(map: &mut NobiscuitMap, width: usize, height: usize)
    requires
        old(map).wf(),
        old(map).spec_width() == width,
        old(map).spec_height() == height,
        1 <= width <= i32::MAX,
        1 <= height <= i32::MAX,
    ensures
        final(map).wf(),
        final(map).spec_width() == width,
        final(map).spec_height() == height,
        forall|a: int, b: int|
            old(map).in_bounds(a, b) ==> #[trigger] final(map).cell(a, b) == if walled_off(
                old(map),
                a,
                b,
            ) {
                TILE_WALL
            } else {
                old(map).cell(a, b)
            },
        (forall|a: int, b: int|
            walkable_at(old(map), a, b) && !reachable(old(map), a, b) ==> #[trigger] walled_off(
                old(map),
                a,
                b,
            )) ==> fully_connected(final(map)),
{
    let visited = reachable_cells(map, width, height);
    let ghost m0 = *map;
    let mut y: usize = 1;
    while y < height - 1
        invariant
            1 <= y <= height - 1 || (height == 1 && y == 1),
            map.wf(),
            map.spec_width() == width,
            map.spec_height() == height,
            1 <= width <= i32::MAX,
            1 <= height <= i32::MAX,
            m0.wf(),
            m0.spec_width() == width,
            m0.spec_height() == height,
            visited.len() == width * height,
            forall|x: int, yy: int|
                0 <= x < width && 0 <= yy < height ==> (#[trigger] visited@[cell_index(
                    width as int,
                    x,
                    yy,
                )] <==> reachable(&m0, x, yy)),
            forall|a: int, b: int|
                m0.in_bounds(a, b) ==> #[trigger] map.cell(a, b) == if walled_off(&m0, a, b) && b
                    < y {
                    TILE_WALL
                } else {
                    m0.cell(a, b)
                },
        decreases height - y,
    {
        let mut x: usize = 1;
        while x < width - 1
            invariant
                1 <= x <= width - 1 || (width == 1 && x == 1),
                1 <= y < height - 1,
                map.wf(),
                map.spec_width() == width,
                map.spec_height() == height,
                1 <= width <= i32::MAX,
                1 <= height <= i32::MAX,
                m0.wf(),
                m0.spec_width() == width,
                m0.spec_height() == height,
                visited.len() == width * height,
                forall|x: int, yy: int|
                    0 <= x < width && 0 <= yy < height ==> (#[trigger] visited@[cell_index(
                        width as int,
                        x,
                        yy,
                    )] <==> reachable(&m0, x, yy)),
                forall|a: int, b: int|
                    m0.in_bounds(a, b) ==> #[trigger] map.cell(a, b) == if walled_off(&m0, a, b) && (b
                        < y || (b == y && a < x)) {
                        TILE_WALL
                    } else {
                        m0.cell(a, b)
                    },
            decreases width - x,
        {
            proof {
                lemma_index_in_bounds(x as int, y as int, width as int, height as int);
            }
            assert(visited@[cell_index(width as int, x as int, y as int)] == visited@[y * width + x]);
            assert(map.cell(x as int, y as int) == m0.cell(x as int, y as int));
            if map.get(x as i32, y as i32) == Some(TILE_EMPTY) && !visited[y * width + x] {
                assert(walled_off(&m0, x as int, y as int));
                map.set(x, y, TILE_WALL);
            } else {
                assert(!walled_off(&m0, x as int, y as int));
            }
            x = x + 1;
        }
        y = y + 1;
    }
    proof {
        assert forall|a: int, b: int| old(map).in_bounds(a, b) implies #[trigger] map.cell(a, b) == if walled_off(old(map), a, b) { TILE_WALL } else { old(map).cell(a, b) } by {
        }
        if forall|a: int, b: int|
            walkable_at(old(map), a, b) && !reachable(old(map), a, b) ==> #[trigger] walled_off(old(map), a, b) {
            assert forall|x: int, y: int| walkable_at(map, x, y) implies #[trigger] reachable(map, x, y) by {
                map.lemma_bounds(x, y);
                assert(map.cell(x, y) == old(map).cell(x, y));
                assert(walkable_at(old(map), x, y));
                lemma_wall_off_keeps_reachable(old(map), map, x, y);
            }
        }
    }
}

} // verus!
