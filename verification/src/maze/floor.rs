//! Floor layouts with stairs: the maze without its goal, plus stairs on every island.

use vstd::prelude::*;
use crate::grid::{lemma_index_decode, lemma_index_in_bounds};
use crate::map::TileMap;
use crate::maze::{Room, room_inside, in_room, interior, generate_maze, border_unwalkable, no_goal, maze_made};
use crate::maze::bsp::in_some_room;
use crate::maze::mask::{find_islands, is_node, lemma_shuffled_from, islands_ok, masked_node, listed};
use crate::nobiscuit_map::NobiscuitMap;
use crate::rng::shuffle;
use crate::tiles::{TileType, TILE_EMPTY, TILE_VOID, TILE_GOAL, TILE_STAIRS_UP, TILE_STAIRS_DOWN, is_walkable_tile};
use rand::rngs::StdRng;

verus! {

/// Player spawn position (grid coordinates), excluded from stair placement.
pub fn player_start() -> (p: (usize, usize))
    ensures
        p == (1usize, 1usize),
{
    (1, 1)
}

/// Island cells that are EMPTY on `m` and not listed in `exclude`.
pub open spec fn empty_not_excluded(m: NobiscuitMap, exclude: Seq<(usize, usize)>) -> spec_fn((usize, usize)) -> bool {
    |p: (usize, usize)| m.spec_get(p.0 as int, p.1 as int) == Some(TILE_EMPTY) && !exclude.contains(p)
}

/// Whether `p` is one of `v`.
fn contains_cell(v: &Vec<(usize, usize)>, p: (usize, usize)) -> (r: bool)
    ensures
        r == v@.contains(p),
{
    let mut i: usize = 0;
    while i < v.len()
        invariant
            0 <= i <= v@.len(),
            forall|j: int| 0 <= j < i ==> v@[j] != p,
        decreases v@.len() - i,
    {
        if v[i].0 == p.0 && v[i].1 == p.1 {
            return true;
        }
        i = i + 1;
    }
    false
}

/// Collect the EMPTY cells of an island, in island order, skipping `exclude`.
pub fn collect_island_empties(
    map: &NobiscuitMap,
    island: &Vec<(usize, usize)>,
    exclude: &Vec<(usize, usize)>,
) -> (empties: Vec<(usize, usize)>)
    requires
        map.wf(),
        map.spec_width() <= i32::MAX,
        map.spec_height() <= i32::MAX,
        forall|k: int| 0 <= k < island@.len() ==> #[trigger] island@[k].0 <= i32::MAX && island@[k].1 <= i32::MAX,
    ensures
        empties@ == island@.filter(empty_not_excluded(*map, exclude@)),
{
    let ghost pred = empty_not_excluded(*map, exclude@);
    let mut empties: Vec<(usize, usize)> = Vec::new();
    let mut k: usize = 0;
    while k < island.len()
        invariant
            0 <= k <= island@.len(),
            map.wf(),
            pred == empty_not_excluded(*map, exclude@),
            forall|j: int| 0 <= j < island@.len() ==> #[trigger] island@[j].0 <= i32::MAX && island@[j].1 <= i32::MAX,
            empties@ == island@.take(k as int).filter(pred),
        decreases island@.len() - k,
    {
        let (x, y) = island[k];
        assert(island@[k as int].0 <= i32::MAX);
        let keep = map.get(x as i32, y as i32) == Some(TILE_EMPTY) && !contains_cell(exclude, (x, y));
        assert(keep == pred(island@[k as int]));
        if keep {
            empties.push((x, y));
        }
        proof {
            assert(island@.take(k + 1).drop_last() =~= island@.take(k as int));
            assert(island@.take(k + 1).last() == island@[k as int]);
            reveal_with_fuel(Seq::<_>::filter, 1);
        }
        k = k + 1;
    }
    assert(island@.take(island@.len() as int) =~= island@);
    empties
}

/// Whether `(x, y)` lies inside any room's interior.
pub fn is_in_room(rooms: &Vec<Room>, x: usize, y: usize) -> (r: bool)
    ensures
        r == exists|i: int| 0 <= i < rooms@.len() && #[trigger] in_room(rooms@[i], x as int, y as int),
{
    let mut i: usize = 0;
    while i < rooms.len()
        invariant
            0 <= i <= rooms@.len(),
            forall|j: int| 0 <= j < i ==> !#[trigger] in_room(rooms@[j], x as int, y as int),
        decreases rooms@.len() - i,
    {
        let r = &rooms[i];
        if x >= r.x && x - r.x < r.w && y >= r.y && y - r.y < r.h {
            assert(in_room(rooms@[i as int], x as int, y as int));
            return true;
        }
        i = i + 1;
    }
    false
}

/// Cells of `m` that differ from `m0` are EMPTY interior cells of `m0`, other
/// than the spawn corner, that became stairs up (only when `up`) or stairs
/// down (only when `down`).
pub open spec fn stairs_added(m0: &NobiscuitMap, m: &NobiscuitMap, up: bool, down: bool) -> bool {
    &&& m.wf()
    &&& m.spec_width() == m0.spec_width()
    &&& m.spec_height() == m0.spec_height()
    &&& forall|a: int, b: int|
        m0.in_bounds(a, b) ==> (#[trigger] m.cell(a, b) == m0.cell(a, b) || (interior(
            m0.spec_width() as int,
            m0.spec_height() as int,
            a,
            b,
        ) && !(a == 1 && b == 1) && m0.cell(a, b) == TILE_EMPTY && ((up && m.cell(a, b) == TILE_STAIRS_UP)
            || (down && m.cell(a, b) == TILE_STAIRS_DOWN))))
}

/// Node `k` of `island` is EMPTY on `m` and not listed in `exclude`.
pub open spec fn stair_spot(m: &NobiscuitMap, island: Seq<(usize, usize)>, exclude: Seq<(usize, usize)>, k: int) -> bool {
    &&& 0 <= k < island.len()
    &&& m.cell(island[k].0 as int, island[k].1 as int) == TILE_EMPTY
    &&& !exclude.contains(island[k])
}

/// The island has a staircase `t`, or no EMPTY cell other than the spawn.
pub open spec fn island_served(m: &NobiscuitMap, island: Seq<(usize, usize)>, t: TileType) -> bool {
    ||| exists|k: int| 0 <= k < island.len() && #[trigger] m.cell(island[k].0 as int, island[k].1 as int) == t
    ||| forall|k: int|
        0 <= k < island.len() ==> island[k] == (1usize, 1usize) || #[trigger] m.cell(
            island[k].0 as int,
            island[k].1 as int,
        ) != TILE_EMPTY
}

/// Only EMPTY cells other than the spawn change from `m` to `m2`.
pub open spec fn only_free_cells_changed(m: &NobiscuitMap, m2: &NobiscuitMap) -> bool {
    forall|a: int, b: int|
        m.in_bounds(a, b) && #[trigger] m2.cell(a, b) != m.cell(a, b) ==> m.cell(a, b) == TILE_EMPTY && !(a == 1
            && b == 1)
}

/// Changing only free cells keeps an island served with a staircase kind.
proof fn lemma_served_kept(m: &NobiscuitMap, m2: &NobiscuitMap, island: Seq<(usize, usize)>, t: TileType)
    requires
        island_served(m, island, t),
        only_free_cells_changed(m, m2),
        t != TILE_EMPTY,
        forall|k: int| 0 <= k < island.len() ==> m.in_bounds(#[trigger] island[k].0 as int, island[k].1 as int),
    ensures
        island_served(m2, island, t),
{
    if exists|k: int| 0 <= k < island.len() && #[trigger] m.cell(island[k].0 as int, island[k].1 as int) == t {
        let k = choose|k: int| 0 <= k < island.len() && #[trigger] m.cell(island[k].0 as int, island[k].1 as int) == t;
        assert(m.in_bounds(island[k].0 as int, island[k].1 as int));
        assert(m2.cell(island[k].0 as int, island[k].1 as int) == t);
    } else {
        assert forall|k: int| 0 <= k < island.len() implies island[k] == (1usize, 1usize) || #[trigger] m2.cell(
            island[k].0 as int,
            island[k].1 as int,
        ) != TILE_EMPTY by {
            assert(m.in_bounds(island[k].0 as int, island[k].1 as int));
            assert(island[k] == (1usize, 1usize) || m.cell(island[k].0 as int, island[k].1 as int) != TILE_EMPTY);
        }
    }
}

/// Put a staircase of kind `stairs` on one island: on a random EMPTY corridor
/// cell (not inside a room, not the spawn corner, not in `exclude`), or on a
/// random EMPTY room cell when the island has no corridor cell.
fn place_island_stairs(
    map: &mut NobiscuitMap,
    island: &Vec<(usize, usize)>,
    exclude: &Vec<(usize, usize)>,
    rooms: &Vec<Room>,
    stairs: TileType,
    width: usize,
    height: usize,
    rng: &mut StdRng,
    Ghost(m0): Ghost<NobiscuitMap>,
    Ghost(up): Ghost<bool>,
    Ghost(down): Ghost<bool>,
)
    requires
        stairs_added(&m0, old(map), up, down),
        (up && stairs == TILE_STAIRS_UP) || (down && stairs == TILE_STAIRS_DOWN),
        exclude@.contains((1usize, 1usize)),
        m0.spec_width() == width,
        m0.spec_height() == height,
        3 <= width <= i32::MAX,
        3 <= height <= i32::MAX,
        forall|k: int| 0 <= k < island@.len() ==> is_node(width as int, height as int, #[trigger] island@[k].0 as int, island@[k].1 as int),
    ensures
        stairs_added(&m0, final(map), up, down),
        forall|a: int, b: int|
            m0.in_bounds(a, b) && #[trigger] final(map).cell(a, b) != old(map).cell(a, b) ==> old(map).cell(a, b)
                == TILE_EMPTY && !exclude@.contains((a as usize, b as usize)) && final(map).cell(a, b) == stairs
                && island@.contains((a as usize, b as usize)),
        (exists|k: int| stair_spot(old(map), island@, exclude@, k)) ==> exists|k: int|
            0 <= k < island@.len() && #[trigger] final(map).cell(island@[k].0 as int, island@[k].1 as int) == stairs,
        forall|a: int, b: int, c: int, d: int|
            m0.in_bounds(a, b) && m0.in_bounds(c, d) && #[trigger] final(map).cell(a, b) != old(map).cell(a, b)
                && #[trigger] final(map).cell(c, d) != old(map).cell(c, d) ==> a == c && b == d,
        (exists|k: int| #[trigger] stair_spot(old(map), island@, exclude@, k) && !in_some_room(rooms@, island@[k].0 as int, island@[k].1 as int))
            ==> forall|a: int, b: int|
            m0.in_bounds(a, b) && #[trigger] final(map).cell(a, b) != old(map).cell(a, b) ==> !in_some_room(rooms@, a, b),
{
    broadcast use vstd::seq_lib::group_filter_ensures;

    let ghost pred = empty_not_excluded(*map, exclude@);
    let ghost mb = *map;
    let all = collect_island_empties(map, island, exclude);
    proof {
        if exists|k: int| stair_spot(&mb, island@, exclude@, k) {
            let k = choose|k: int| stair_spot(&mb, island@, exclude@, k);
            assert(is_node(width as int, height as int, island@[k].0 as int, island@[k].1 as int));
            assert(pred(island@[k]));
            island@.lemma_filter_contains(pred, k);
            assert(all@.len() > 0);
        }
        if exists|k: int| #[trigger] stair_spot(&mb, island@, exclude@, k) && !in_some_room(rooms@, island@[k].0 as int, island@[k].1 as int) {
            let k = choose|k: int| #[trigger] stair_spot(&mb, island@, exclude@, k) && !in_some_room(rooms@, island@[k].0 as int, island@[k].1 as int);
            assert(is_node(width as int, height as int, island@[k].0 as int, island@[k].1 as int));
            assert(pred(island@[k]));
            island@.lemma_filter_contains(pred, k);
            let i = choose|i: int| 0 <= i < all@.len() && all@[i] == island@[k];
            assert(!in_some_room(rooms@, all@[i].0 as int, all@[i].1 as int));
        }
    }
    let mut empties: Vec<(usize, usize)> = Vec::new();
    let mut k: usize = 0;
    while k < all.len()
        invariant
            0 <= k <= all@.len(),
            forall|j: int| 0 <= j < empties@.len() ==> #[trigger] all@.contains(empties@[j]),
            forall|j: int| 0 <= j < empties@.len() ==> !in_some_room(rooms@, #[trigger] empties@[j].0 as int, empties@[j].1 as int),
            (exists|j: int| 0 <= j < k && !in_some_room(rooms@, #[trigger] all@[j].0 as int, all@[j].1 as int)) ==> empties@.len() > 0,
        decreases all@.len() - k,
    {
        let (x, y) = all[k];
        if !is_in_room(rooms, x, y) {
            let ghost e0 = empties@;
            empties.push((x, y));
            assert forall|j: int| 0 <= j < empties@.len() implies #[trigger] all@.contains(empties@[j]) by {
                if j < e0.len() {
                    assert(empties@[j] == e0[j]);
                } else {
                    assert(all@[k as int] == (x, y));
                }
            }
            assert forall|j: int| 0 <= j < empties@.len() implies !in_some_room(rooms@, #[trigger] empties@[j].0 as int, empties@[j].1 as int) by {
                if j < e0.len() {
                    assert(empties@[j] == e0[j]);
                }
            }
        } else {
            assert(in_some_room(rooms@, all@[k as int].0 as int, all@[k as int].1 as int));
        }
        k = k + 1;
    }
    let mut chosen = if empties.len() == 0 { all } else { empties };
    assert(forall|j: int| 0 <= j < chosen@.len() ==> #[trigger] all@.contains(chosen@[j])) by {
        if chosen@ == all@ {
            assert forall|j: int| 0 <= j < chosen@.len() implies #[trigger] all@.contains(chosen@[j]) by {
                assert(all@[j] == chosen@[j]);
            }
        }
    }
    let ghost c0 = chosen@;
    shuffle(&mut chosen, rng);
    if chosen.len() > 0 {
        let (x, y) = chosen[0];
        proof {
            lemma_shuffled_from(c0, chosen@, 0);
            let j = choose|j: int| 0 <= j < c0.len() && c0[j] == chosen@[0];
            assert(all@.contains(c0[j]));
            let i = choose|i: int| 0 <= i < all@.len() && all@[i] == c0[j];
            assert(pred(all@[i]));
            island@.lemma_filter_contains_rev(pred, all@[i]);
            let t = choose|t: int| 0 <= t < island@.len() && island@[t] == all@[i];
            assert(is_node(width as int, height as int, island@[t].0 as int, island@[t].1 as int));
            assert(map.in_bounds(x as int, y as int));
            assert(map.cell(x as int, y as int) == TILE_EMPTY);
            assert(!(x == 1 && y == 1));
            assert(!exclude@.contains((x, y)));
            assert(island@.contains((x, y)));
        }
        map.set(x, y, stairs);
        proof {
            let t = choose|t: int| 0 <= t < island@.len() && island@[t] == (x, y);
            assert(map.cell(island@[t].0 as int, island@[t].1 as int) == stairs);
            if empties@.len() > 0 {
                lemma_shuffled_from(c0, chosen@, 0);
                let j = choose|j: int| 0 <= j < c0.len() && c0[j] == chosen@[0];
                assert(c0 == empties@);
                assert(!in_some_room(rooms@, c0[j].0 as int, c0[j].1 as int));
            }
        }
    }
}

/// Each island of `isl` holds tile `t` on at most one of its nodes.
pub open spec fn stairs_once(m: &NobiscuitMap, isl: Seq<Vec<(usize, usize)>>, t: TileType) -> bool {
    forall|i: int, k1: int, k2: int|
        #![trigger m.cell(isl[i]@[k1].0 as int, isl[i]@[k1].1 as int), m.cell(isl[i]@[k2].0 as int, isl[i]@[k2].1 as int)]
        0 <= i < isl.len() && 0 <= k1 < isl[i]@.len() && 0 <= k2 < isl[i]@.len() && m.cell(isl[i]@[k1].0 as int, isl[i]@[k1].1 as int)
            == t && m.cell(isl[i]@[k2].0 as int, isl[i]@[k2].1 as int) == t ==> k1 == k2
}

/// No island of `isl` from index `j` on holds tile `t` on a node.
pub open spec fn none_from(m: &NobiscuitMap, isl: Seq<Vec<(usize, usize)>>, j: int, t: TileType) -> bool {
    forall|i: int, k: int|
        j <= i < isl.len() && 0 <= k < isl[i]@.len() ==> #[trigger] m.cell(isl[i]@[k].0 as int, isl[i]@[k].1 as int) != t
}

/// The islands of the map (every masked node listed in one) each hold at most
/// one stair down and at most one stair up among their nodes.
pub open spec fn stairs_once_per_island(m: &NobiscuitMap) -> bool {
    exists|isl: Seq<Vec<(usize, usize)>>|
        #[trigger] islands_ok(void_mask(m), m.spec_width() as int, m.spec_height() as int, isl) && (forall|x: int, y: int|
            #[trigger] masked_node(void_mask(m), m.spec_width() as int, m.spec_height() as int, x, y) ==> listed(
                isl,
                (x as usize, y as usize),
            )) && stairs_once(m, isl, TILE_STAIRS_DOWN) && stairs_once(m, isl, TILE_STAIRS_UP)
}

/// No island holding `t` gives each island at most one `t`.
proof fn lemma_none_once(m: &NobiscuitMap, isl: Seq<Vec<(usize, usize)>>, t: TileType)
    requires
        none_from(m, isl, 0, t),
    ensures
        stairs_once(m, isl, t),
{
}

/// Putting `t` on at most one node, of island `j`, keeps `t` on at most one
/// node per island when no island from `j` on held it.
proof fn lemma_once_step(
    mb: &NobiscuitMap,
    m: &NobiscuitMap,
    isl: Seq<Vec<(usize, usize)>>,
    mask: Seq<bool>,
    j: int,
    t: TileType,
    w: int,
    h: int,
)
    requires
        islands_ok(mask, w, h, isl),
        0 <= j < isl.len(),
        mb.spec_width() == w,
        mb.spec_height() == h,
        forall|jj: int, kk: int|
            0 <= jj < isl.len() && 0 <= kk < isl[jj]@.len() ==> is_node(w, h, #[trigger] isl[jj]@[kk].0 as int, isl[jj]@[kk].1 as int),
        forall|a: int, b: int|
            mb.in_bounds(a, b) && #[trigger] m.cell(a, b) != mb.cell(a, b) ==> m.cell(a, b) == t && isl[j]@.contains((a as usize, b as usize)),
        forall|a: int, b: int, c: int, d: int|
            mb.in_bounds(a, b) && mb.in_bounds(c, d) && #[trigger] m.cell(a, b) != mb.cell(a, b) && #[trigger] m.cell(c, d) != mb.cell(c, d)
                ==> a == c && b == d,
        stairs_once(mb, isl, t),
        none_from(mb, isl, j, t),
    ensures
        stairs_once(m, isl, t),
        none_from(m, isl, j + 1, t),
{
    assert forall|i: int, k1: int, k2: int|
        #![trigger m.cell(isl[i]@[k1].0 as int, isl[i]@[k1].1 as int), m.cell(isl[i]@[k2].0 as int, isl[i]@[k2].1 as int)]
        0 <= i < isl.len() && 0 <= k1 < isl[i]@.len() && 0 <= k2 < isl[i]@.len() && m.cell(isl[i]@[k1].0 as int, isl[i]@[k1].1 as int)
            == t && m.cell(isl[i]@[k2].0 as int, isl[i]@[k2].1 as int) == t implies k1 == k2 by {
        let p1 = isl[i]@[k1];
        let p2 = isl[i]@[k2];
        assert(is_node(w, h, p1.0 as int, p1.1 as int));
        assert(is_node(w, h, p2.0 as int, p2.1 as int));
        let c1 = m.cell(p1.0 as int, p1.1 as int) != mb.cell(p1.0 as int, p1.1 as int);
        let c2 = m.cell(p2.0 as int, p2.1 as int) != mb.cell(p2.0 as int, p2.1 as int);
        if c1 {
            let l = choose|l: int| 0 <= l < isl[j]@.len() && isl[j]@[l] == (p1.0 as usize, p1.1 as usize);
            assert(isl[j]@[l] == isl[i]@[k1]);
            assert(i == j && l == k1);
        }
        if c2 {
            let l = choose|l: int| 0 <= l < isl[j]@.len() && isl[j]@[l] == (p2.0 as usize, p2.1 as usize);
            assert(isl[j]@[l] == isl[i]@[k2]);
            assert(i == j && l == k2);
        }
        if c1 && !c2 {
            assert(mb.cell(p2.0 as int, p2.1 as int) == t);
        } else if !c1 && c2 {
            assert(mb.cell(p1.0 as int, p1.1 as int) == t);
        } else if c1 && c2 {
            assert(p1 == p2);
        } else {
            assert(mb.cell(p1.0 as int, p1.1 as int) == t && mb.cell(p2.0 as int, p2.1 as int) == t);
        }
    }
    assert forall|i: int, k: int|
        j + 1 <= i < isl.len() && 0 <= k < isl[i]@.len() implies #[trigger] m.cell(isl[i]@[k].0 as int, isl[i]@[k].1 as int) != t by {
        let p = isl[i]@[k];
        assert(is_node(w, h, p.0 as int, p.1 as int));
        if m.cell(p.0 as int, p.1 as int) != mb.cell(p.0 as int, p.1 as int) {
            let l = choose|l: int| 0 <= l < isl[j]@.len() && isl[j]@[l] == (p.0 as usize, p.1 as usize);
            assert(isl[j]@[l] == isl[i]@[k]);
        }
    }
}

/// Changing only cells into `t` keeps every other tile `t2` where it was.
proof fn lemma_once_other(mb: &NobiscuitMap, m: &NobiscuitMap, isl: Seq<Vec<(usize, usize)>>, t: TileType, t2: TileType, j: int, w: int, h: int)
    requires
        t != t2,
        0 <= j,
        mb.spec_width() == w,
        mb.spec_height() == h,
        forall|jj: int, kk: int|
            0 <= jj < isl.len() && 0 <= kk < isl[jj]@.len() ==> is_node(w, h, #[trigger] isl[jj]@[kk].0 as int, isl[jj]@[kk].1 as int),
        forall|a: int, b: int| mb.in_bounds(a, b) && #[trigger] m.cell(a, b) != mb.cell(a, b) ==> m.cell(a, b) == t,
    ensures
        stairs_once(mb, isl, t2) ==> stairs_once(m, isl, t2),
        none_from(mb, isl, j, t2) ==> none_from(m, isl, j, t2),
{
    assert forall|i: int, k: int|
        0 <= i < isl.len() && 0 <= k < isl[i]@.len() && #[trigger] m.cell(isl[i]@[k].0 as int, isl[i]@[k].1 as int) == t2 implies
        mb.cell(isl[i]@[k].0 as int, isl[i]@[k].1 as int) == t2 by {
        assert(is_node(w, h, isl[i]@[k].0 as int, isl[i]@[k].1 as int));
    }
    if none_from(mb, isl, j, t2) {
        assert forall|i: int, k: int|
            j <= i < isl.len() && 0 <= k < isl[i]@.len() implies #[trigger] m.cell(isl[i]@[k].0 as int, isl[i]@[k].1 as int) != t2 by {
            assert(mb.cell(isl[i]@[k].0 as int, isl[i]@[k].1 as int) != t2);
            if m.cell(isl[i]@[k].0 as int, isl[i]@[k].1 as int) == t2 {
                assert(mb.cell(isl[i]@[k].0 as int, isl[i]@[k].1 as int) == t2);
            }
        }
    }
}

/// Placing the stairs of island `j` keeps islands `0..j` served and serves
/// island `j`, changing only free cells.
proof fn lemma_stairs_step(
    mb: &NobiscuitMap,
    m: &NobiscuitMap,
    isl: Seq<Vec<(usize, usize)>>,
    j: int,
    exclude: Seq<(usize, usize)>,
    t: TileType,
    w: int,
    h: int,
)
    requires
        0 <= j < isl.len(),
        t != TILE_EMPTY,
        mb.spec_width() == w,
        mb.spec_height() == h,
        forall|jj: int, kk: int|
            0 <= jj < isl.len() && 0 <= kk < isl[jj]@.len() ==> is_node(w, h, #[trigger] isl[jj]@[kk].0 as int, isl[jj]@[kk].1 as int),
        exclude.contains((1usize, 1usize)),
        forall|e: int| 0 <= e < exclude.len() ==> #[trigger] exclude[e] == (1usize, 1usize) || mb.cell(exclude[e].0 as int, exclude[e].1 as int) != TILE_EMPTY,
        forall|a: int, b: int|
            mb.in_bounds(a, b) && #[trigger] m.cell(a, b) != mb.cell(a, b) ==> mb.cell(a, b) == TILE_EMPTY
                && !exclude.contains((a as usize, b as usize)) && m.cell(a, b) == t,
        (exists|k: int| stair_spot(mb, isl[j]@, exclude, k)) ==> exists|k: int|
            0 <= k < isl[j]@.len() && #[trigger] m.cell(isl[j]@[k].0 as int, isl[j]@[k].1 as int) == t,
        forall|jj: int| 0 <= jj < j ==> island_served(mb, #[trigger] isl[jj]@, t),
    ensures
        only_free_cells_changed(mb, m),
        forall|jj: int| 0 <= jj <= j ==> island_served(m, #[trigger] isl[jj]@, t),
{
    assert forall|a: int, b: int| mb.in_bounds(a, b) && #[trigger] m.cell(a, b) != mb.cell(a, b) implies mb.cell(a, b) == TILE_EMPTY && !(a == 1 && b == 1) by {
        if a == 1 && b == 1 {
            assert(exclude.contains((a as usize, b as usize)));
        }
    }
    assert forall|jj: int| 0 <= jj <= j implies island_served(m, #[trigger] isl[jj]@, t) by {
        assert forall|k: int| 0 <= k < isl[jj]@.len() implies mb.in_bounds(#[trigger] isl[jj]@[k].0 as int, isl[jj]@[k].1 as int) by {
            assert(is_node(w, h, isl[jj]@[k].0 as int, isl[jj]@[k].1 as int));
        }
        if jj < j {
            lemma_served_kept(mb, m, isl[jj]@, t);
        } else if !(exists|k: int| stair_spot(mb, isl[j]@, exclude, k)) {
            let s = isl[j]@;
            assert forall|k: int| 0 <= k < s.len() implies s[k] == (1usize, 1usize) || #[trigger] m.cell(s[k].0 as int, s[k].1 as int) != TILE_EMPTY by {
                assert(!stair_spot(mb, s, exclude, k));
                assert(mb.in_bounds(s[k].0 as int, s[k].1 as int));
                if exclude.contains(s[k]) {
                    let e = choose|e: int| 0 <= e < exclude.len() && exclude[e] == s[k];
                    assert(exclude[e] == (1usize, 1usize) || mb.cell(exclude[e].0 as int, exclude[e].1 as int) != TILE_EMPTY);
                }
            }
        }
    }
}

/// Which cells of `m` are not VOID, in row-major order.
pub open spec fn void_mask(m: &NobiscuitMap) -> Seq<bool> {
    let w = m.spec_width() as int;
    Seq::new((w * m.spec_height()) as nat, |i: int| m.cell(i % w, i / w) != TILE_VOID)
}

/// The islands of `m` (its non-VOID nodes, grouped by the cells that join
/// them) can be listed so that each has stairs down when `down` and stairs up
/// when `up`, unless it has no EMPTY cell other than the spawn.
pub open spec fn islands_have_stairs(m: &NobiscuitMap, up: bool, down: bool) -> bool {
    let w = m.spec_width() as int;
    let h = m.spec_height() as int;
    exists|isl: Seq<Vec<(usize, usize)>>|
        #[trigger] islands_ok(void_mask(m), w, h, isl) && (forall|x: int, y: int|
            #[trigger] masked_node(void_mask(m), w, h, x, y) ==> listed(isl, (x as usize, y as usize)))
            && forall|i: int|
            0 <= i < isl.len() ==> (down ==> island_served(m, #[trigger] isl[i]@, TILE_STAIRS_DOWN)) && (up
                ==> island_served(m, isl[i]@, TILE_STAIRS_UP))
}

/// Changing only free cells, into anything but VOID, keeps every island's
/// stairs.
pub proof fn lemma_island_stairs_kept(m0: &NobiscuitMap, m: &NobiscuitMap, up: bool, down: bool)
    requires
        islands_have_stairs(m0, up, down),
        m.spec_width() == m0.spec_width(),
        m.spec_height() == m0.spec_height(),
        only_free_cells_changed(m0, m),
        forall|a: int, b: int| m0.in_bounds(a, b) ==> (#[trigger] m.cell(a, b) == TILE_VOID) == (m0.cell(a, b) == TILE_VOID),
    ensures
        islands_have_stairs(m, up, down),
{
    let w = m0.spec_width() as int;
    let h = m0.spec_height() as int;
    assert forall|i: int| 0 <= i < w * h implies #[trigger] void_mask(m)[i] == void_mask(m0)[i] by {
        lemma_index_decode(i, w);
        assert(i / w < h) by (nonlinear_arith)
            requires
                0 <= i < w * h,
                w > 0,
        ;
        assert(m0.in_bounds(i % w, i / w));
    }
    assert(void_mask(m) =~= void_mask(m0));
    let isl = choose|isl: Seq<Vec<(usize, usize)>>|
        #[trigger] islands_ok(void_mask(m0), w, h, isl) && (forall|x: int, y: int|
            #[trigger] masked_node(void_mask(m0), w, h, x, y) ==> listed(isl, (x as usize, y as usize)))
            && forall|i: int|
            0 <= i < isl.len() ==> (down ==> island_served(m0, #[trigger] isl[i]@, TILE_STAIRS_DOWN)) && (up
                ==> island_served(m0, isl[i]@, TILE_STAIRS_UP));
    assert forall|i: int| 0 <= i < isl.len() implies (down ==> island_served(m, #[trigger] isl[i]@, TILE_STAIRS_DOWN)) && (up
        ==> island_served(m, isl[i]@, TILE_STAIRS_UP)) by {
        assert forall|k: int| 0 <= k < isl[i]@.len() implies m0.in_bounds(#[trigger] isl[i]@[k].0 as int, isl[i]@[k].1 as int) by {
            assert(masked_node(void_mask(m0), w, h, isl[i]@[k].0 as int, isl[i]@[k].1 as int));
        }
        if down {
            lemma_served_kept(m0, m, isl[i]@, TILE_STAIRS_DOWN);
        }
        if up {
            lemma_served_kept(m0, m, isl[i]@, TILE_STAIRS_UP);
        }
    }
    assert(islands_ok(void_mask(m), w, h, isl));
}

/// `m` is floor `floor_index` of `total_floors`, built from the maze `g` with
/// its `rooms`: the goal of `g` becomes EMPTY (giving `m0`), then stairs go on
/// EMPTY cells of `m0` other than the spawn corner (up ones only below the
/// top floor, down ones only above the ground floor).
pub open spec fn floor_from_maze(
    g: &NobiscuitMap,
    rooms: Seq<Room>,
    m0: &NobiscuitMap,
    m: &NobiscuitMap,
    w: int,
    h: int,
    floor_index: int,
    total_floors: int,
) -> bool {
    &&& maze_made(g, w, h, rooms)
    &&& m0.wf()
    &&& m0.spec_width() == w
    &&& m0.spec_height() == h
    &&& forall|a: int, b: int|
        m0.in_bounds(a, b) ==> #[trigger] m0.cell(a, b) == if g.cell(a, b) == TILE_GOAL {
            TILE_EMPTY
        } else {
            g.cell(a, b)
        }
    &&& stairs_added(m0, m, floor_index < total_floors - 1, floor_index > 0)
}

/// `m` is a layout that `build_floor_layout` makes for floor `floor_index`
/// of `total_floors` on a `w` x `h` map.
pub open spec fn floor_layout(m: &NobiscuitMap, w: int, h: int, floor_index: int, total_floors: int) -> bool {
    exists|g: NobiscuitMap, rooms: Seq<Room>, m0: NobiscuitMap|
        #[trigger] floor_from_maze(&g, rooms, &m0, m, w, h, floor_index, total_floors)
}

/// Build one non-top floor: the maze without its goal (the goal lives on the
/// top floor), stairs down on every island above the ground floor, and stairs
/// up on every island below the top floor (an island without a free cell
/// other than the spawn gets none). The result is a floor of
/// `floor_from_maze`: a maze that `generate_maze` builds, its goal cleared,
/// stairs added.
#[verifier::rlimit(50)]
pub fn build_floor_layout(
    width: usize,
    height: usize,
    floor_index: usize,
    total_floors: usize,
    rng: &mut StdRng,
) -> (map: NobiscuitMap)
    requires
        width % 2 == 1,
        height % 2 == 1,
        3 <= width <= i32::MAX,
        3 <= height <= i32::MAX,
        width * height <= usize::MAX,
        total_floors >= 1,
    ensures
        map.wf(),
        map.spec_width() == width,
        map.spec_height() == height,
        border_unwalkable(&map),
        no_goal(&map),
        map.cell(1, 1) == TILE_EMPTY,
        forall|a: int, b: int|
            map.in_bounds(a, b) ==> (#[trigger] map.cell(a, b) == TILE_STAIRS_DOWN ==> floor_index > 0)
                && (map.cell(a, b) == TILE_STAIRS_UP ==> floor_index < total_floors - 1),
        islands_have_stairs(&map, floor_index < total_floors - 1, floor_index > 0),
        stairs_once_per_island(&map),
        floor_layout(&map, width as int, height as int, floor_index as int, total_floors as int),
{
    let ghost w = width as int;
    let ghost h = height as int;
    let (mut map, rooms) = generate_maze(width, height, rng);
    // Remove the goal: it only lives on the top floor.
    let ghost g0 = map;
    let mut y: usize = 0;
    while y < height
        invariant
            0 <= y <= height,
            map.wf(),
            map.spec_width() == width,
            map.spec_height() == height,
            g0.spec_width() == width,
            g0.spec_height() == height,
            3 <= width <= i32::MAX,
            3 <= height <= i32::MAX,
            forall|a: int, b: int|
                map.in_bounds(a, b) ==> #[trigger] map.cell(a, b) == if g0.cell(a, b) == TILE_GOAL && b < y { TILE_EMPTY } else { g0.cell(a, b) },
        decreases height - y,
    {
        let mut x: usize = 0;
        while x < width
            invariant
                0 <= x <= width,
                y < height,
                map.wf(),
                map.spec_width() == width,
                map.spec_height() == height,
                g0.spec_width() == width,
                g0.spec_height() == height,
                3 <= width <= i32::MAX,
                3 <= height <= i32::MAX,
                forall|a: int, b: int|
                    map.in_bounds(a, b) ==> #[trigger] map.cell(a, b) == if g0.cell(a, b) == TILE_GOAL && (b < y || (b == y && a < x)) { TILE_EMPTY } else { g0.cell(a, b) },
            decreases width - x,
        {
            if map.get(x as i32, y as i32) == Some(TILE_GOAL) {
                map.set(x, y, TILE_EMPTY);
            }
            x = x + 1;
        }
        y = y + 1;
    }
    assert(no_goal(&map));
    assert forall|a: int, b: int| map.in_bounds(a, b) && !interior(w, h, a, b) implies !is_walkable_tile(#[trigger] map.cell(a, b)) by {
        assert(g0.cell(a, b) != TILE_GOAL) by {
            assert(!is_walkable_tile(g0.cell(a, b)));
        }
    }
    assert(map.cell(1, 1) == TILE_EMPTY);
    // Rebuild the mask from the map: every cell that is not VOID.
    let n = width * height;
    let mut mask: Vec<bool> = Vec::new();
    let mut i: usize = 0;
    while i < n
        invariant
            0 <= i <= n,
            n == width * height,
            mask@.len() == i,
            forall|k: int| 0 <= k < i ==> #[trigger] mask@[k] == (map.cell(k % (width as int), k / (width as int)) != TILE_VOID),
            map.wf(),
            map.spec_width() == width,
            map.spec_height() == height,
            3 <= width <= i32::MAX,
            3 <= height <= i32::MAX,
        decreases n - i,
    {
        assert(i / width < height) by (nonlinear_arith)
            requires
                i < width * height,
                width > 0,
        ;
        let x = i % width;
        let y = i / width;
        let ghost mk = mask@;
        mask.push(map.get(x as i32, y as i32) != Some(TILE_VOID));
        assert forall|k: int| 0 <= k < i + 1 implies #[trigger] mask@[k] == (map.cell(k % (width as int), k / (width as int)) != TILE_VOID) by {
            if k < i {
                assert(mask@[k] == mk[k]);
            }
        }
        i = i + 1;
    }
    // Islands, for stair placement.
    let islands = find_islands(&mask, width, height);
    let ghost m0 = map;
    assert(mask@ =~= void_mask(&m0));
    let ghost up = floor_index < total_floors - 1;
    let ghost down = floor_index > 0;
    assert(stairs_added(&m0, &map, up, down));
    assert forall|i: int, k: int|
        0 <= i < islands@.len() && 0 <= k < islands@[i]@.len() implies !crate::maze::is_stairs_tile(
        #[trigger] m0.cell(islands@[i]@[k].0 as int, islands@[i]@[k].1 as int)) by {
        assert(is_node(w, h, islands@[i]@[k].0 as int, islands@[i]@[k].1 as int));
        assert(g0.cell(islands@[i]@[k].0 as int, islands@[i]@[k].1 as int) != TILE_STAIRS_UP);
    }
    assert(none_from(&map, islands@, 0, TILE_STAIRS_DOWN));
    assert(none_from(&map, islands@, 0, TILE_STAIRS_UP));
    proof {
        lemma_none_once(&map, islands@, TILE_STAIRS_DOWN);
    }
    let start = player_start();
    // Stairs down (not on the ground floor).
    if floor_index > 0 {
        let mut j: usize = 0;
        while j < islands.len()
            invariant
                0 <= j <= islands@.len(),
                stairs_added(&m0, &map, up, down),
                down,
                m0.spec_width() == width,
                m0.spec_height() == height,
                3 <= width <= i32::MAX,
                3 <= height <= i32::MAX,
                start == (1usize, 1usize),
                forall|jj: int, kk: int|
                    0 <= jj < islands@.len() && 0 <= kk < islands@[jj]@.len() ==> is_node(w, h, #[trigger] islands@[jj]@[kk].0 as int, islands@[jj]@[kk].1 as int),
                w == width,
                h == height,
                islands_ok(mask@, w, h, islands@),
                forall|jj: int| 0 <= jj < j ==> island_served(&map, #[trigger] islands@[jj]@, TILE_STAIRS_DOWN),
                stairs_once(&map, islands@, TILE_STAIRS_DOWN),
                none_from(&map, islands@, j as int, TILE_STAIRS_DOWN),
                none_from(&map, islands@, 0, TILE_STAIRS_UP),
            decreases islands@.len() - j,
        {
            let exclude = vec![start];
            assert(exclude@[0] == (1usize, 1usize));
            assert(exclude@ == seq![(1usize, 1usize)]);
            assert forall|k: int| 0 <= k < islands@[j as int]@.len() implies is_node(w, h, #[trigger] islands@[j as int]@[k].0 as int, islands@[j as int]@[k].1 as int) by {}
            let ghost mb = map;
            place_island_stairs(&mut map, &islands[j], &exclude, &rooms, TILE_STAIRS_DOWN, width, height, rng, Ghost(m0), Ghost(up), Ghost(down));
            proof {
                lemma_stairs_step(&mb, &map, islands@, j as int, exclude@, TILE_STAIRS_DOWN, w, h);
                lemma_once_step(&mb, &map, islands@, mask@, j as int, TILE_STAIRS_DOWN, w, h);
                lemma_once_other(&mb, &map, islands@, TILE_STAIRS_DOWN, TILE_STAIRS_UP, 0, w, h);
            }
            j = j + 1;
        }
    }
    assert(down ==> forall|jj: int| 0 <= jj < islands@.len() ==> island_served(&map, #[trigger] islands@[jj]@, TILE_STAIRS_DOWN));
    assert(stairs_once(&map, islands@, TILE_STAIRS_DOWN));
    assert(none_from(&map, islands@, 0, TILE_STAIRS_UP));
    proof {
        lemma_none_once(&map, islands@, TILE_STAIRS_UP);
    }
    // Stairs up (not on the top floor).
    if floor_index < total_floors - 1 {
        let mut j: usize = 0;
        while j < islands.len()
            invariant
                0 <= j <= islands@.len(),
                stairs_added(&m0, &map, up, down),
                up,
                m0.spec_width() == width,
                m0.spec_height() == height,
                3 <= width <= i32::MAX,
                3 <= height <= i32::MAX,
                start == (1usize, 1usize),
                forall|jj: int, kk: int|
                    0 <= jj < islands@.len() && 0 <= kk < islands@[jj]@.len() ==> is_node(w, h, #[trigger] islands@[jj]@[kk].0 as int, islands@[jj]@[kk].1 as int),
                w == width,
                h == height,
                down ==> forall|jj: int| 0 <= jj < islands@.len() ==> island_served(&map, #[trigger] islands@[jj]@, TILE_STAIRS_DOWN),
                stairs_once(&map, islands@, TILE_STAIRS_DOWN),
                stairs_once(&map, islands@, TILE_STAIRS_UP),
                none_from(&map, islands@, j as int, TILE_STAIRS_UP),
                islands_ok(mask@, w, h, islands@),
                forall|jj: int| 0 <= jj < j ==> island_served(&map, #[trigger] islands@[jj]@, TILE_STAIRS_UP),
            decreases islands@.len() - j,
        {
            let island = &islands[j];
            // Exclude the spawn corner and this island's stairs down.
            let mut exclude = vec![start];
            assert(exclude@[0] == (1usize, 1usize));
            let mut k: usize = 0;
            while k < island.len()
                invariant
                    0 <= k <= island@.len(),
                    exclude@.len() >= 1,
                    exclude@[0] == (1usize, 1usize),
                    island == &islands@[j as int],
                    j < islands@.len(),
                    forall|jj: int, kk: int|
                        0 <= jj < islands@.len() && 0 <= kk < islands@[jj]@.len() ==> is_node(w, h, #[trigger] islands@[jj]@[kk].0 as int, islands@[jj]@[kk].1 as int),
                    map.wf(),
                    map.spec_width() == width,
                    map.spec_height() == height,
                    w == width,
                    h == height,
                    3 <= width <= i32::MAX,
                    3 <= height <= i32::MAX,
                    forall|e: int| 0 <= e < exclude@.len() ==> #[trigger] exclude@[e] == (1usize, 1usize) || map.cell(exclude@[e].0 as int, exclude@[e].1 as int) != TILE_EMPTY,
                decreases island@.len() - k,
            {
                let (nx, ny) = island[k];
                assert(is_node(w, h, islands@[j as int]@[k as int].0 as int, islands@[j as int]@[k as int].1 as int));
                if map.get(nx as i32, ny as i32) == Some(TILE_STAIRS_DOWN) {
                    let ghost ex0 = exclude@;
                    exclude.push((nx, ny));
                    assert forall|e: int| 0 <= e < exclude@.len() implies #[trigger] exclude@[e] == (1usize, 1usize) || map.cell(exclude@[e].0 as int, exclude@[e].1 as int) != TILE_EMPTY by {
                        if e < ex0.len() {
                            assert(exclude@[e] == ex0[e]);
                        }
                    }
                }
                k = k + 1;
            }
            assert(exclude@.contains((1usize, 1usize))) by {
                assert(exclude@[0] == (1usize, 1usize));
            }
            assert forall|k: int| 0 <= k < island@.len() implies is_node(w, h, #[trigger] island@[k].0 as int, island@[k].1 as int) by {
                assert(island@[k] == islands@[j as int]@[k]);
            }
            let ghost mb = map;
            place_island_stairs(&mut map, island, &exclude, &rooms, TILE_STAIRS_UP, width, height, rng, Ghost(m0), Ghost(up), Ghost(down));
            proof {
                lemma_stairs_step(&mb, &map, islands@, j as int, exclude@, TILE_STAIRS_UP, w, h);
                lemma_once_step(&mb, &map, islands@, mask@, j as int, TILE_STAIRS_UP, w, h);
                lemma_once_other(&mb, &map, islands@, TILE_STAIRS_UP, TILE_STAIRS_DOWN, 0, w, h);
                if down {
                    assert forall|jj: int| 0 <= jj < islands@.len() implies island_served(&map, #[trigger] islands@[jj]@, TILE_STAIRS_DOWN) by {
                        assert forall|k: int| 0 <= k < islands@[jj]@.len() implies mb.in_bounds(#[trigger] islands@[jj]@[k].0 as int, islands@[jj]@[k].1 as int) by {
                            assert(is_node(w, h, islands@[jj]@[k].0 as int, islands@[jj]@[k].1 as int));
                        }
                        lemma_served_kept(&mb, &map, islands@[jj]@, TILE_STAIRS_DOWN);
                    }
                }
            }
            j = j + 1;
        }
    }
    proof {
        assert forall|a: int, b: int| map.in_bounds(a, b) && !interior(w, h, a, b) implies !is_walkable_tile(#[trigger] map.cell(a, b)) by {
            assert(map.cell(a, b) == m0.cell(a, b));
        }
        assert forall|a: int, b: int| map.in_bounds(a, b) implies #[trigger] map.cell(a, b) != TILE_GOAL by {
            assert(m0.cell(a, b) != TILE_GOAL);
        }
        assert(map.cell(1, 1) == m0.cell(1, 1));
        assert forall|i: int| 0 <= i < w * h implies #[trigger] void_mask(&map)[i] == mask@[i] by {
            lemma_index_decode(i, w);
            assert(i / w < h) by (nonlinear_arith)
                requires
                    0 <= i < w * h,
                    w > 0,
            ;
            assert(map.in_bounds(i % w, i / w));
        }
        assert(void_mask(&map) =~= mask@);
        assert(islands_ok(void_mask(&map), w, h, islands@));
        assert(stairs_once(&map, islands@, TILE_STAIRS_DOWN) && stairs_once(&map, islands@, TILE_STAIRS_UP));
        assert(stairs_once_per_island(&map));
        assert(floor_from_maze(&g0, rooms@, &m0, &map, w, h, floor_index as int, total_floors as int));
        assert forall|a: int, b: int| map.in_bounds(a, b) implies (#[trigger] map.cell(a, b) == TILE_STAIRS_DOWN ==> floor_index > 0)
            && (map.cell(a, b) == TILE_STAIRS_UP ==> floor_index < total_floors - 1) by {
            assert(!crate::maze::is_stairs_tile(m0.cell(a, b)));
        }
    }
    map
}

} // verus!
