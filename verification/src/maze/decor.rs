//! Typed doors, windows and shoji on the walls of a carved layout, and sealing
//! of VOID cells that a player could see.

use vstd::prelude::*;
use crate::grid::lemma_index_in_bounds;
use crate::map::TileMap;
use crate::maze::{Room, room_inside, in_room, interior};
use crate::maze::mask::lemma_shuffled_from;
use crate::maze::reach::{dir4, dir_dx, dir_dy};
use crate::nobiscuit_map::NobiscuitMap;
use crate::rng::{gen_ratio, shuffle};
use crate::game::scan_before;
use crate::maze::connect::{side_geom, side_len};
use crate::tiles::{TileType, TILE_EMPTY, TILE_WALL, TILE_VOID, TILE_GOAL, TILE_WINDOW, TILE_SHOJI, TILE_DOOR_FUSUMA, TILE_DOOR_KITCHEN, TILE_DOOR_TOILET, TILE_DOOR_GENKAN, is_door_tile, is_walkable_tile};
use rand::rngs::StdRng;

verus! {

/// `m` differs from `m0` only by walls that became tiles satisfying `f`.
pub open spec fn walls_changed(m0: &NobiscuitMap, m: &NobiscuitMap, f: spec_fn(TileType) -> bool) -> bool {
    &&& m.wf()
    &&& m.spec_width() == m0.spec_width()
    &&& m.spec_height() == m0.spec_height()
    &&& forall|a: int, b: int|
        m0.in_bounds(a, b) ==> (#[trigger] m.cell(a, b) == m0.cell(a, b) || (m0.cell(a, b)
            == TILE_WALL && f(m.cell(a, b))))
}

/// Squared distance between a room's centre and `(gx, gy)`.
fn room_center_dist2(r: &Room, gx: usize, gy: usize) -> (d: u64)
    requires
        r.x + r.w / 2 <= i32::MAX,
        r.y + r.h / 2 <= i32::MAX,
        gx <= i32::MAX,
        gy <= i32::MAX,
    ensures
        d == (r.x + r.w / 2 - gx) * (r.x + r.w / 2 - gx) + (r.y + r.h / 2 - gy) * (r.y + r.h / 2 - gy),
{
    let cx = r.x + r.w / 2;
    let cy = r.y + r.h / 2;
    let dx: u64 = if cx >= gx { (cx - gx) as u64 } else { (gx - cx) as u64 };
    let dy: u64 = if cy >= gy { (cy - gy) as u64 } else { (gy - cy) as u64 };
    assert(dx * dx <= 0x4000_0000_0000_0000) by (nonlinear_arith)
        requires
            dx <= 0x8000_0000,
    ;
    assert(dy * dy <= 0x4000_0000_0000_0000) by (nonlinear_arith)
        requires
            dy <= 0x8000_0000,
    ;
    assert(dx * dx == (cx - gx) * (cx - gx)) by (nonlinear_arith)
        requires
            dx == cx - gx || dx == gx - cx,
    ;
    assert(dy * dy == (cy - gy) * (cy - gy)) by (nonlinear_arith)
        requires
            dy == cy - gy || dy == gy - cy,
    ;
    dx * dx + dy * dy
}

/// Turn the wall at `(x, y)` into `door`; any other tile is left alone.
fn place_door_tile(map: &mut NobiscuitMap, x: usize, y: usize, door: TileType, Ghost(m0): Ghost<NobiscuitMap>)
    requires
        walls_changed(&m0, old(map), |t: TileType| is_door_tile(t)),
        is_door_tile(door),
        x <= i32::MAX,
        y <= i32::MAX,
    ensures
        walls_changed(&m0, final(map), |t: TileType| is_door_tile(t)),
        m0.in_bounds(x as int, y as int) ==> final(map).cell(x as int, y as int) == if old(map).cell(x as int, y as int) == TILE_WALL {
            door
        } else {
            old(map).cell(x as int, y as int)
        },
        forall|a: int, b: int|
            m0.in_bounds(a, b) && (a != x || b != y) ==> #[trigger] final(map).cell(a, b) == old(map).cell(a, b),
{
    if map.get(x as i32, y as i32) == Some(TILE_WALL) {
        map.set(x, y, door);
    }
}

/// All cells of `v` lie in a `w` x `h` grid.
pub open spec fn cells_in(v: Seq<(usize, usize)>, w: int, h: int) -> bool {
    forall|k: int| 0 <= k < v.len() ==> #[trigger] v[k].0 < w && v[k].1 < h
}

/// `(a, b)` lies on the one-cell ring of walls around `r`.
pub open spec fn on_room_ring(r: Room, a: int, b: int) -> bool {
    &&& r.x - 1 <= a <= r.x + r.w
    &&& r.y - 1 <= b <= r.y + r.h
    &&& !in_room(r, a, b)
}

/// All cells of `v` lie on the ring around `r`.
pub open spec fn ring_cells(v: Seq<(usize, usize)>, r: Room) -> bool {
    forall|k: int| 0 <= k < v.len() ==> on_room_ring(r, #[trigger] v[k].0 as int, v[k].1 as int)
}

proof fn lemma_push_wall(v: Seq<(usize, usize)>, c: (usize, usize), m: &NobiscuitMap)
    requires
        walls_at(v, m),
        m.cell(c.0 as int, c.1 as int) == TILE_WALL,
    ensures
        walls_at(v.push(c), m),
{
    assert forall|k: int| 0 <= k < v.push(c).len() implies #[trigger] m.cell(v.push(c)[k].0 as int, v.push(c)[k].1 as int) == TILE_WALL by {
        if k < v.len() {
            assert(v.push(c)[k] == v[k]);
        }
    }
}

proof fn lemma_push_ring(v: Seq<(usize, usize)>, c: (usize, usize), r: Room)
    requires
        ring_cells(v, r),
        on_room_ring(r, c.0 as int, c.1 as int),
    ensures
        ring_cells(v.push(c), r),
{
    assert forall|k: int| 0 <= k < v.push(c).len() implies on_room_ring(r, #[trigger] v.push(c)[k].0 as int, v.push(c)[k].1 as int) by {
        if k < v.len() {
            assert(v.push(c)[k] == v[k]);
        }
    }
}

/// `(x, y)` holds the last goal of `m` in row-major order.
pub open spec fn is_last_goal(m: &NobiscuitMap, x: int, y: int) -> bool {
    &&& m.in_bounds(x, y)
    &&& m.cell(x, y) == TILE_GOAL
    &&& forall|a: int, b: int| m.in_bounds(a, b) && scan_before(x, y, a, b) ==> #[trigger] m.cell(a, b) != TILE_GOAL
}

/// The last goal of `m` in row-major order, if it has one.
pub open spec fn goal_of(m: &NobiscuitMap) -> Option<(int, int)> {
    if exists|x: int, y: int| is_last_goal(m, x, y) {
        let (x, y) = choose|x: int, y: int| is_last_goal(m, x, y);
        Some((x, y))
    } else {
        None
    }
}

/// Squared distance from the centre of `r` to `(gx, gy)`.
pub open spec fn room_dist2(r: Room, gx: int, gy: int) -> int {
    (r.x + r.w / 2 - gx) * (r.x + r.w / 2 - gx) + (r.y + r.h / 2 - gy) * (r.y + r.h / 2 - gy)
}

/// Room `i` is the first of the rooms closest to `(gx, gy)`.
pub open spec fn nearest_room(rooms: Seq<Room>, gx: int, gy: int, i: int) -> bool {
    &&& 0 <= i < rooms.len()
    &&& forall|j: int| 0 <= j < rooms.len() ==> room_dist2(#[trigger] rooms[j], gx, gy) >= room_dist2(rooms[i], gx, gy)
    &&& forall|j: int| 0 <= j < i ==> room_dist2(#[trigger] rooms[j], gx, gy) > room_dist2(rooms[i], gx, gy)
}

/// The door a room gets: genkan for the room closest to the goal, otherwise
/// by area (9 or more fusuma, 6 or more kitchen, smaller toilet).
pub open spec fn room_door_kind(rooms: Seq<Room>, goal: Option<(int, int)>, i: int) -> TileType {
    let genkan = match goal {
        Some((gx, gy)) => nearest_room(rooms, gx, gy, i),
        None => false,
    };
    if genkan {
        TILE_DOOR_GENKAN
    } else if rooms[i].w * rooms[i].h >= 9 {
        TILE_DOOR_FUSUMA
    } else if rooms[i].w * rooms[i].h >= 6 {
        TILE_DOOR_KITCHEN
    } else {
        TILE_DOOR_TOILET
    }
}

/// Tile `t` at `(a, b)` is the door of one of the first `n` rooms, on the
/// ring around it.
pub open spec fn door_of_room(rooms: Seq<Room>, n: int, goal: Option<(int, int)>, t: TileType, a: int, b: int) -> bool {
    exists|i: int| 0 <= i < n && #[trigger] on_room_ring(rooms[i], a, b) && t == room_door_kind(rooms, goal, i)
}

proof fn lemma_push_cell(v: Seq<(usize, usize)>, c: (usize, usize), w: int, h: int)
    requires
        cells_in(v, w, h),
        c.0 < w,
        c.1 < h,
    ensures
        cells_in(v.push(c), w, h),
{
    assert forall|k: int| 0 <= k < v.push(c).len() implies #[trigger] v.push(c)[k].0 < w && v.push(c)[k].1 < h by {
        if k < v.len() {
            assert(v.push(c)[k] == v[k]);
        }
    }
}

/// The wall of step `t` along side `s` of `r`, listed when it is a wall
/// with an EMPTY cell beyond it.
pub open spec fn side_spot_seq(m: &NobiscuitMap, r: Room, s: int, t: int) -> Seq<(usize, usize)> {
    let g = side_geom(r, s, t);
    if m.cell(g.0, g.1) == TILE_WALL && m.cell(g.2, g.3) == TILE_EMPTY {
        seq![(g.0 as usize, g.1 as usize)]
    } else {
        seq![]
    }
}

/// Door spots along the first `n` steps of side `s` of `r`.
pub open spec fn side_spots(m: &NobiscuitMap, r: Room, s: int, n: int) -> Seq<(usize, usize)>
    decreases n,
{
    if n <= 0 {
        seq![]
    } else {
        side_spots(m, r, s, n - 1) + side_spot_seq(m, r, s, n - 1)
    }
}

/// Door spots of the first `s` sides of `r` (top, bottom, left, right).
pub open spec fn room_spots(m: &NobiscuitMap, r: Room, s: int) -> Seq<(usize, usize)>
    decreases s,
{
    if s <= 0 {
        seq![]
    } else {
        room_spots(m, r, s - 1) + side_spots(
            m,
            r,
            s - 1,
            side_len(r, s - 1, m.spec_width() as int, m.spec_height() as int),
        )
    }
}

/// Every cell of `v` is a wall of `m`.
pub open spec fn walls_at(v: Seq<(usize, usize)>, m: &NobiscuitMap) -> bool {
    forall|k: int| 0 <= k < v.len() ==> #[trigger] m.cell(v[k].0 as int, v[k].1 as int) == TILE_WALL
}

/// Some wall on the ring around `r` has an EMPTY cell beside it outside `r`:
/// a place where a door could go.
pub open spec fn has_door_spot(m: &NobiscuitMap, r: Room) -> bool {
    exists|a: int, b: int| #[trigger] on_room_ring(r, a, b) && fallback_spot(m, r, a, b)
}

/// Some cell on the ring around `r` is a door.
pub open spec fn ring_has_door(m: &NobiscuitMap, r: Room) -> bool {
    exists|a: int, b: int| #[trigger] on_room_ring(r, a, b) && m.in_bounds(a, b) && is_door_tile(m.cell(a, b))
}

/// Changing only walls keeps a door on the ring.
proof fn lemma_ring_door_kept(m1: &NobiscuitMap, m2: &NobiscuitMap, r: Room)
    requires
        ring_has_door(m1, r),
        m2.spec_width() == m1.spec_width(),
        m2.spec_height() == m1.spec_height(),
        forall|a: int, b: int| m1.in_bounds(a, b) && #[trigger] m2.cell(a, b) != m1.cell(a, b) ==> m1.cell(a, b) == TILE_WALL,
    ensures
        ring_has_door(m2, r),
{
    let (a, b) = choose|a: int, b: int| #[trigger] on_room_ring(r, a, b) && m1.in_bounds(a, b) && is_door_tile(m1.cell(a, b));
    assert(m2.cell(a, b) == m1.cell(a, b));
    assert(on_room_ring(r, a, b));
}

/// A fallback spot in row `y` makes the row's list non-empty.
proof fn lemma_fallback_row_nonempty(m: &NobiscuitMap, r: Room, y: int, n: int, k: int)
    requires
        0 <= k < n,
        fallback_spot(m, r, r.x - 1 + k, y),
    ensures
        fallback_row(m, r, y, n).len() > 0,
    decreases n,
{
    if k < n - 1 {
        lemma_fallback_row_nonempty(m, r, y, n - 1, k);
    }
}

/// A non-empty row makes the list of all rows non-empty.
proof fn lemma_fallback_rows_nonempty(m: &NobiscuitMap, r: Room, n: int, j: int)
    requires
        0 <= j < n,
        fallback_row(m, r, r.y - 1 + j, r.w + 2).len() > 0,
    ensures
        fallback_rows(m, r, n).len() > 0,
    decreases n,
{
    if j < n - 1 {
        lemma_fallback_rows_nonempty(m, r, n - 1, j);
    }
}

/// Walls on the four sides of `room` whose outward neighbour is EMPTY
/// (top, bottom, left, right, each side in order).
fn side_candidates(map: &NobiscuitMap, room: &Room, width: usize, height: usize) -> (c: Vec<(usize, usize)>)
    requires
        map.wf(),
        map.spec_width() == width,
        map.spec_height() == height,
        3 <= width <= i32::MAX,
        3 <= height <= i32::MAX,
        room_inside(*room, width as int, height as int),
    ensures
        cells_in(c@, width as int, height as int),
        ring_cells(c@, *room),
        walls_at(c@, map),
        c@ == room_spots(map, *room, 4),
{
    let mut candidates: Vec<(usize, usize)> = Vec::new();
    assert(candidates@ =~= room_spots(map, *room, 0));
    // Top edge: wall at (x, ry - 1), corridor at (x, ry - 2).
    if room.y >= 2 {
        let mut dx: usize = 0;
        while dx < room.w
            invariant
                0 <= dx <= room.w,
                room_inside(*room, width as int, height as int),
                room.y >= 2,
                map.wf(),
                map.spec_width() == width,
                map.spec_height() == height,
                3 <= width <= i32::MAX,
                3 <= height <= i32::MAX,
                cells_in(candidates@, width as int, height as int),
                ring_cells(candidates@, *room),
                walls_at(candidates@, map),
                candidates@ == room_spots(map, *room, 0) + side_spots(map, *room, 0, dx as int),
            decreases room.w - dx,
        {
            let x = room.x + dx;
            let wy = room.y - 1;
            if map.get(x as i32, wy as i32) == Some(TILE_WALL) && map.get(x as i32, (wy - 1) as i32) == Some(TILE_EMPTY) {
                proof { lemma_push_cell(candidates@, (x, wy), width as int, height as int); lemma_push_ring(candidates@, (x, wy), *room); lemma_push_wall(candidates@, (x, wy), map); }
                candidates.push((x, wy));
            }
            assert(candidates@ =~= room_spots(map, *room, 0) + side_spots(map, *room, 0, dx as int + 1)) by {
                assert(side_spots(map, *room, 0, dx as int + 1) == side_spots(map, *room, 0, dx as int) + side_spot_seq(map, *room, 0, dx as int));
            }
            dx = dx + 1;
        }
    }
    assert(candidates@ =~= room_spots(map, *room, 1)) by {
        assert(room_spots(map, *room, 1) == room_spots(map, *room, 0) + side_spots(map, *room, 0, side_len(*room, 0, width as int, height as int)));
    }
    // Bottom edge: wall at (x, ry + rh), corridor at (x, ry + rh + 1).
    if room.y + room.h + 1 < height {
        let mut dx: usize = 0;
        while dx < room.w
            invariant
                0 <= dx <= room.w,
                room_inside(*room, width as int, height as int),
                room.y + room.h + 1 < height,
                map.wf(),
                map.spec_width() == width,
                map.spec_height() == height,
                3 <= width <= i32::MAX,
                3 <= height <= i32::MAX,
                cells_in(candidates@, width as int, height as int),
                ring_cells(candidates@, *room),
                walls_at(candidates@, map),
                candidates@ == room_spots(map, *room, 1) + side_spots(map, *room, 1, dx as int),
            decreases room.w - dx,
        {
            let x = room.x + dx;
            let wy = room.y + room.h;
            if map.get(x as i32, wy as i32) == Some(TILE_WALL) && map.get(x as i32, (wy + 1) as i32) == Some(TILE_EMPTY) {
                proof { lemma_push_cell(candidates@, (x, wy), width as int, height as int); lemma_push_ring(candidates@, (x, wy), *room); lemma_push_wall(candidates@, (x, wy), map); }
                candidates.push((x, wy));
            }
            assert(candidates@ =~= room_spots(map, *room, 1) + side_spots(map, *room, 1, dx as int + 1)) by {
                assert(side_spots(map, *room, 1, dx as int + 1) == side_spots(map, *room, 1, dx as int) + side_spot_seq(map, *room, 1, dx as int));
            }
            dx = dx + 1;
        }
    }
    assert(candidates@ =~= room_spots(map, *room, 2)) by {
        assert(room_spots(map, *room, 2) == room_spots(map, *room, 1) + side_spots(map, *room, 1, side_len(*room, 1, width as int, height as int)));
    }
    // Left edge: wall at (rx - 1, y), corridor at (rx - 2, y).
    if room.x >= 2 {
        let mut dy: usize = 0;
        while dy < room.h
            invariant
                0 <= dy <= room.h,
                room_inside(*room, width as int, height as int),
                room.x >= 2,
                map.wf(),
                map.spec_width() == width,
                map.spec_height() == height,
                3 <= width <= i32::MAX,
                3 <= height <= i32::MAX,
                cells_in(candidates@, width as int, height as int),
                ring_cells(candidates@, *room),
                walls_at(candidates@, map),
                candidates@ == room_spots(map, *room, 2) + side_spots(map, *room, 2, dy as int),
            decreases room.h - dy,
        {
            let y = room.y + dy;
            let wx = room.x - 1;
            if map.get(wx as i32, y as i32) == Some(TILE_WALL) && map.get((wx - 1) as i32, y as i32) == Some(TILE_EMPTY) {
                proof { lemma_push_cell(candidates@, (wx, y), width as int, height as int); lemma_push_ring(candidates@, (wx, y), *room); lemma_push_wall(candidates@, (wx, y), map); }
                candidates.push((wx, y));
            }
            assert(candidates@ =~= room_spots(map, *room, 2) + side_spots(map, *room, 2, dy as int + 1)) by {
                assert(side_spots(map, *room, 2, dy as int + 1) == side_spots(map, *room, 2, dy as int) + side_spot_seq(map, *room, 2, dy as int));
            }
            dy = dy + 1;
        }
    }
    assert(candidates@ =~= room_spots(map, *room, 3)) by {
        assert(room_spots(map, *room, 3) == room_spots(map, *room, 2) + side_spots(map, *room, 2, side_len(*room, 2, width as int, height as int)));
    }
    // Right edge: wall at (rx + rw, y), corridor at (rx + rw + 1, y).
    if room.x + room.w + 1 < width {
        let mut dy: usize = 0;
        while dy < room.h
            invariant
                0 <= dy <= room.h,
                room_inside(*room, width as int, height as int),
                room.x + room.w + 1 < width,
                map.wf(),
                map.spec_width() == width,
                map.spec_height() == height,
                3 <= width <= i32::MAX,
                3 <= height <= i32::MAX,
                cells_in(candidates@, width as int, height as int),
                ring_cells(candidates@, *room),
                walls_at(candidates@, map),
                candidates@ == room_spots(map, *room, 3) + side_spots(map, *room, 3, dy as int),
            decreases room.h - dy,
        {
            let y = room.y + dy;
            let wx = room.x + room.w;
            if map.get(wx as i32, y as i32) == Some(TILE_WALL) && map.get((wx + 1) as i32, y as i32) == Some(TILE_EMPTY) {
                proof { lemma_push_cell(candidates@, (wx, y), width as int, height as int); lemma_push_ring(candidates@, (wx, y), *room); lemma_push_wall(candidates@, (wx, y), map); }
                candidates.push((wx, y));
            }
            assert(candidates@ =~= room_spots(map, *room, 3) + side_spots(map, *room, 3, dy as int + 1)) by {
                assert(side_spots(map, *room, 3, dy as int + 1) == side_spots(map, *room, 3, dy as int) + side_spot_seq(map, *room, 3, dy as int));
            }
            dy = dy + 1;
        }
    }
    assert(candidates@ =~= room_spots(map, *room, 4)) by {
        assert(room_spots(map, *room, 4) == room_spots(map, *room, 3) + side_spots(map, *room, 3, side_len(*room, 3, width as int, height as int)));
    }
    candidates
}

/// The cell next to `(a, b)` in direction `d` lies outside `r` and is EMPTY.
pub open spec fn outward_empty_at(m: &NobiscuitMap, r: Room, a: int, b: int, d: int) -> bool {
    !in_room(r, a + dir_dx(d), b + dir_dy(d)) && m.spec_get(a + dir_dx(d), b + dir_dy(d)) == Some(TILE_EMPTY)
}

/// A wall outside `r` with an EMPTY cell outside `r` next to it.
pub open spec fn fallback_spot(m: &NobiscuitMap, r: Room, a: int, b: int) -> bool {
    &&& !in_room(r, a, b)
    &&& m.spec_get(a, b) == Some(TILE_WALL)
    &&& exists|d: int| 0 <= d < 4 && #[trigger] outward_empty_at(m, r, a, b, d)
}

/// Fallback spots among the first `n` cells of row `y` of the box around `r`.
pub open spec fn fallback_row(m: &NobiscuitMap, r: Room, y: int, n: int) -> Seq<(usize, usize)>
    decreases n,
{
    if n <= 0 {
        seq![]
    } else {
        let x = r.x - 1 + n - 1;
        fallback_row(m, r, y, n - 1) + if fallback_spot(m, r, x, y) {
            seq![(x as usize, y as usize)]
        } else {
            seq![]
        }
    }
}

/// Fallback spots of the first `n` rows of the box around `r`, row by row.
pub open spec fn fallback_rows(m: &NobiscuitMap, r: Room, n: int) -> Seq<(usize, usize)>
    decreases n,
{
    if n <= 0 {
        seq![]
    } else {
        fallback_rows(m, r, n - 1) + fallback_row(m, r, r.y - 1 + n - 1, r.w + 2)
    }
}

/// Walls of the ring around `room` with an EMPTY neighbour outside the room
/// (never toward VOID): the fallback when no side faces a corridor.
fn fallback_candidates(map: &NobiscuitMap, room: &Room, width: usize, height: usize) -> (c: Vec<(usize, usize)>)
    requires
        map.wf(),
        map.spec_width() == width,
        map.spec_height() == height,
        3 <= width <= i32::MAX,
        3 <= height <= i32::MAX,
        room_inside(*room, width as int, height as int),
    ensures
        cells_in(c@, width as int, height as int),
        ring_cells(c@, *room),
        walls_at(c@, map),
        c@ == fallback_rows(map, *room, room.h + 2),
{
    let mut fallback: Vec<(usize, usize)> = Vec::new();
    let bx0 = room.x - 1;
    let by0 = room.y - 1;
    let bx1 = room.x + room.w;
    let by1 = room.y + room.h;
    let mut fy = by0;
    while fy <= by1
        invariant
            by0 <= fy <= by1 + 1,
            bx0 == room.x - 1,
            by0 == room.y - 1,
            bx1 == room.x + room.w,
            by1 == room.y + room.h,
            room_inside(*room, width as int, height as int),
            map.wf(),
            map.spec_width() == width,
            map.spec_height() == height,
            3 <= width <= i32::MAX,
            3 <= height <= i32::MAX,
            cells_in(fallback@, width as int, height as int),
            ring_cells(fallback@, *room),
            walls_at(fallback@, map),
            fallback@ == fallback_rows(map, *room, fy - by0),
        decreases by1 + 1 - fy,
    {
        let mut fx = bx0;
        while fx <= bx1
            invariant
                bx0 <= fx <= bx1 + 1,
                by0 <= fy <= by1,
                bx0 == room.x - 1,
                by0 == room.y - 1,
                bx1 == room.x + room.w,
                by1 == room.y + room.h,
                room_inside(*room, width as int, height as int),
                map.wf(),
                map.spec_width() == width,
                map.spec_height() == height,
                3 <= width <= i32::MAX,
                3 <= height <= i32::MAX,
                cells_in(fallback@, width as int, height as int),
                ring_cells(fallback@, *room),
                walls_at(fallback@, map),
                fallback@ == fallback_rows(map, *room, fy - by0) + fallback_row(map, *room, fy as int, fx - bx0),
            decreases bx1 + 1 - fx,
        {
            let ghost fb0 = fallback@;
            let in_interior = fx >= room.x && fx < room.x + room.w && fy >= room.y && fy < room.y + room.h;
            if !in_interior && map.get(fx as i32, fy as i32) == Some(TILE_WALL) {
                // Only break walls whose outward neighbour is EMPTY.
                let mut outward_empty = false;
                let mut d: usize = 0;
                while d < 4
                    invariant
                        0 <= d <= 4,
                        fx <= width - 1,
                        fy <= height - 1,
                        room_inside(*room, width as int, height as int),
                        map.wf(),
                        map.spec_width() == width,
                        map.spec_height() == height,
                        width <= i32::MAX,
                        height <= i32::MAX,
                        outward_empty == exists|e: int| 0 <= e < d && #[trigger] outward_empty_at(map, *room, fx as int, fy as int, e),
                    decreases 4 - d,
                {
                    let (dx, dy) = dir4(d);
                    let ox = fx as i32 + dx;
                    let oy = fy as i32 + dy;
                    let inside = ox >= room.x as i32 && ox < (room.x + room.w) as i32 && oy >= room.y as i32
                        && oy < (room.y + room.h) as i32;
                    if !inside && map.get(ox, oy) == Some(TILE_EMPTY) {
                        outward_empty = true;
                    }
                    assert(outward_empty_at(map, *room, fx as int, fy as int, d as int) == (!inside && map.spec_get(ox as int, oy as int) == Some(TILE_EMPTY)));
                    d = d + 1;
                }
                if outward_empty {
                    proof { lemma_push_cell(fallback@, (fx, fy), width as int, height as int); lemma_push_ring(fallback@, (fx, fy), *room); lemma_push_wall(fallback@, (fx, fy), map); }
                    fallback.push((fx, fy));
                }
            }
            assert(fallback_row(map, *room, fy as int, fx - bx0 + 1) == fallback_row(map, *room, fy as int, fx - bx0) + if fallback_spot(map, *room, fx as int, fy as int) {
                seq![(fx, fy)]
            } else {
                seq![]
            });
            assert(fallback@ =~= fallback_rows(map, *room, fy - by0) + fallback_row(map, *room, fy as int, fx - bx0 + 1));
            fx = fx + 1;
        }
        assert(fallback@ =~= fallback_rows(map, *room, fy - by0 + 1));
        fy = fy + 1;
    }
    fallback
}

/// Room `i` has a door spot (a wall on its ring with an EMPTY cell beside it
/// outside the room) that lies on the ring of no earlier room.
pub open spec fn own_door_spot(m: &NobiscuitMap, rooms: Seq<Room>, i: int) -> bool {
    exists|a: int, b: int|
        #[trigger] on_room_ring(rooms[i], a, b) && fallback_spot(m, rooms[i], a, b) && forall|j: int|
            0 <= j < i ==> !on_room_ring(#[trigger] rooms[j], a, b)
}

/// `placed` lists the doors laid from `m0` to `m`, in room order, for rooms
/// below `n`: each entry `(x, y, i)` is a wall of `m0` on the ring of room `i`
/// that now holds room `i`'s own door kind; a room owns at most two entries;
/// and every changed cell is listed.
pub open spec fn doors_listed(
    m0: &NobiscuitMap,
    m: &NobiscuitMap,
    rooms: Seq<Room>,
    goal: Option<(int, int)>,
    placed: Seq<(int, int, int)>,
    n: int,
) -> bool {
    &&& forall|k: int|
        0 <= k < placed.len() ==> 0 <= #[trigger] placed[k].2 < n && on_room_ring(rooms[placed[k].2], placed[k].0, placed[k].1)
            && m0.in_bounds(placed[k].0, placed[k].1) && m0.cell(placed[k].0, placed[k].1) == TILE_WALL
            && m.cell(placed[k].0, placed[k].1) == room_door_kind(rooms, goal, placed[k].2)
    &&& forall|k: int, j: int| 0 <= k < j < placed.len() ==> #[trigger] placed[k].2 <= #[trigger] placed[j].2
    &&& forall|k: int, j: int| 0 <= k && j == k + 2 && j < placed.len() ==> #[trigger] placed[k].2 < #[trigger] placed[j].2
    &&& forall|a: int, b: int|
        m0.in_bounds(a, b) && #[trigger] m.cell(a, b) != m0.cell(a, b) ==> exists|k: int|
            0 <= k < placed.len() && #[trigger] placed[k].0 == a && placed[k].1 == b
}

/// Each room below `n` that has an own door spot owns an entry of `placed`.
pub open spec fn spots_served(m0: &NobiscuitMap, rooms: Seq<Room>, placed: Seq<(int, int, int)>, n: int) -> bool {
    forall|i: int|
        0 <= i < n && #[trigger] own_door_spot(m0, rooms, i) ==> exists|k: int| 0 <= k < placed.len() && #[trigger] placed[k].2 == i
}

/// Laying one more door for room `i` on a wall keeps the list exact.
proof fn lemma_door_push(
    m0: &NobiscuitMap,
    before: &NobiscuitMap,
    m: &NobiscuitMap,
    rooms: Seq<Room>,
    goal: Option<(int, int)>,
    placed: Seq<(int, int, int)>,
    x: int,
    y: int,
    i: int,
)
    requires
        doors_listed(m0, before, rooms, goal, placed, i + 1),
        forall|k: int| 0 <= k < placed.len() ==> #[trigger] placed[k].2 <= i,
        placed.len() < 2 || placed[placed.len() - 2].2 < i,
        0 <= i < rooms.len(),
        m0.in_bounds(x, y),
        walls_changed(m0, before, |t: TileType| is_door_tile(t)),
        m.spec_width() == m0.spec_width(),
        m.spec_height() == m0.spec_height(),
        before.cell(x, y) == TILE_WALL,
        m.cell(x, y) == room_door_kind(rooms, goal, i),
        on_room_ring(rooms[i], x, y),
        forall|a: int, b: int| m0.in_bounds(a, b) && (a != x || b != y) ==> #[trigger] m.cell(a, b) == before.cell(a, b),
    ensures
        doors_listed(m0, m, rooms, goal, placed.push((x, y, i)), i + 1),
{
    let p = placed.push((x, y, i));
    assert(p[placed.len() as int] == (x, y, i));
    assert(m0.cell(x, y) == TILE_WALL);
    assert forall|k: int| 0 <= k < p.len() implies 0 <= #[trigger] p[k].2 < i + 1 && on_room_ring(rooms[p[k].2], p[k].0, p[k].1)
        && m0.in_bounds(p[k].0, p[k].1) && m0.cell(p[k].0, p[k].1) == TILE_WALL
        && m.cell(p[k].0, p[k].1) == room_door_kind(rooms, goal, p[k].2) by {
        if k < placed.len() {
            assert(p[k] == placed[k]);
            if placed[k].0 == x && placed[k].1 == y {
                assert(before.cell(x, y) == room_door_kind(rooms, goal, placed[k].2));
            }
        }
    }
    assert forall|k: int, j: int| 0 <= k < j < p.len() implies #[trigger] p[k].2 <= #[trigger] p[j].2 by {
        assert(p[k] == placed[k]);
        if j < placed.len() {
            assert(p[j] == placed[j]);
        }
    }
    assert forall|k: int, j: int| 0 <= k && j == k + 2 && j < p.len() implies #[trigger] p[k].2 < #[trigger] p[j].2 by {
        assert(p[k] == placed[k]);
        if j < placed.len() {
            assert(p[j] == placed[j]);
        }
    }
    assert forall|a: int, b: int|
        m0.in_bounds(a, b) && #[trigger] m.cell(a, b) != m0.cell(a, b) implies exists|k: int|
            0 <= k < p.len() && #[trigger] p[k].0 == a && p[k].1 == b by {
        if a == x && b == y {
            assert(p[placed.len() as int].0 == a);
        } else {
            assert(m.cell(a, b) == before.cell(a, b));
            let k = choose|k: int| 0 <= k < placed.len() && #[trigger] placed[k].0 == a && placed[k].1 == b;
            assert(p[k] == placed[k]);
        }
    }
}

/// A map that agrees with `before` everywhere keeps its door list.
proof fn lemma_door_same(
    m0: &NobiscuitMap,
    before: &NobiscuitMap,
    m: &NobiscuitMap,
    rooms: Seq<Room>,
    goal: Option<(int, int)>,
    placed: Seq<(int, int, int)>,
    n: int,
)
    requires
        doors_listed(m0, before, rooms, goal, placed, n),
        forall|a: int, b: int| m0.in_bounds(a, b) ==> #[trigger] m.cell(a, b) == before.cell(a, b),
    ensures
        doors_listed(m0, m, rooms, goal, placed, n),
{
    assert forall|k: int| 0 <= k < placed.len() implies 0 <= #[trigger] placed[k].2 < n && on_room_ring(rooms[placed[k].2], placed[k].0, placed[k].1)
        && m0.in_bounds(placed[k].0, placed[k].1) && m0.cell(placed[k].0, placed[k].1) == TILE_WALL
        && m.cell(placed[k].0, placed[k].1) == room_door_kind(rooms, goal, placed[k].2) by {
        assert(0 <= placed[k].2 < n);
        assert(m0.in_bounds(placed[k].0, placed[k].1));
        assert(m.cell(placed[k].0, placed[k].1) == before.cell(placed[k].0, placed[k].1));
    }
    assert forall|a: int, b: int|
        m0.in_bounds(a, b) && #[trigger] m.cell(a, b) != m0.cell(a, b) implies exists|k: int|
            0 <= k < placed.len() && #[trigger] placed[k].0 == a && placed[k].1 == b by {
        assert(before.cell(a, b) == m.cell(a, b));
    }
}

/// `placed` lists the doors laid from `m0` to `m` for all of `rooms`, and every
/// room with an own door spot owns an entry.
pub open spec fn doors_laid(
    m0: &NobiscuitMap,
    m: &NobiscuitMap,
    rooms: Seq<Room>,
    goal: Option<(int, int)>,
    placed: Seq<(int, int, int)>,
) -> bool {
    doors_listed(m0, m, rooms, goal, placed, rooms.len() as int) && spots_served(m0, rooms, placed, rooms.len() as int)
}

/// Place typed doors on each room's walls.
///
/// Each room gets one door (two with probability 0.3 when it has two or more
/// candidates). The room closest to the goal gets a genkan door; otherwise the
/// type follows the room's area: 9 or more fusuma, 6 or more kitchen, smaller
/// toilet. Only walls change, and only into doors; every new door carries the
/// kind of the room it was opened for, no room opens more than two, and a
/// room with a door spot that no earlier room's ring shares opens at least
/// one. A room whose every spot was taken by an earlier room's door may get
/// none of its own.
#[verifier::rlimit(50)]
pub fn place_doors(map: &mut NobiscuitMap, rooms: &Vec<Room>, width: usize, height: usize, rng: &mut StdRng)
    requires
        old(map).wf(),
        old(map).spec_width() == width,
        old(map).spec_height() == height,
        3 <= width <= i32::MAX,
        3 <= height <= i32::MAX,
        forall|i: int| 0 <= i < rooms@.len() ==> room_inside(#[trigger] rooms@[i], width as int, height as int),
    ensures
        walls_changed(old(map), final(map), |t: TileType| is_door_tile(t)),
        forall|a: int, b: int|
            old(map).in_bounds(a, b) && #[trigger] final(map).cell(a, b) != old(map).cell(a, b) ==> door_of_room(
                rooms@,
                rooms@.len() as int,
                goal_of(old(map)),
                final(map).cell(a, b),
                a,
                b,
            ),
        forall|i: int|
            0 <= i < rooms@.len() && has_door_spot(old(map), #[trigger] rooms@[i]) ==> ring_has_door(final(map), rooms@[i]),
        exists|placed: Seq<(int, int, int)>| #[trigger] doors_laid(old(map), final(map), rooms@, goal_of(old(map)), placed),
{
    let ghost m0 = *map;
    if rooms.len() == 0 {
        assert(doors_laid(&m0, map, rooms@, goal_of(&m0), Seq::empty()));
        return;
    }
    // Goal position (the last one in scan order) for the genkan door.
    let mut goal_pos: Option<(usize, usize)> = None;
    let mut y: usize = 0;
    while y < height
        invariant
            0 <= y <= height,
            map.wf(),
            map.spec_width() == width,
            map.spec_height() == height,
            height <= i32::MAX,
            width <= i32::MAX,
            *map == m0,
            match goal_pos {
                Some((gx, gy)) => gx < width && gy < height && m0.cell(gx as int, gy as int) == TILE_GOAL
                    && scan_before(gx as int, gy as int, 0, y as int) && forall|a: int, b: int|
                    m0.in_bounds(a, b) && scan_before(gx as int, gy as int, a, b) && scan_before(a, b, 0, y as int)
                        ==> #[trigger] m0.cell(a, b) != TILE_GOAL,
                None => forall|a: int, b: int|
                    m0.in_bounds(a, b) && scan_before(a, b, 0, y as int) ==> #[trigger] m0.cell(a, b) != TILE_GOAL,
            },
        decreases height - y,
    {
        let mut x: usize = 0;
        while x < width
            invariant
                0 <= x <= width,
                y < height,
                map.wf(),
                map.spec_width() == width,
                map.spec_height() == height,
                height <= i32::MAX,
                width <= i32::MAX,
                *map == m0,
                match goal_pos {
                    Some((gx, gy)) => gx < width && gy < height && m0.cell(gx as int, gy as int) == TILE_GOAL
                        && scan_before(gx as int, gy as int, x as int, y as int) && forall|a: int, b: int|
                        m0.in_bounds(a, b) && scan_before(gx as int, gy as int, a, b) && scan_before(a, b, x as int, y as int)
                            ==> #[trigger] m0.cell(a, b) != TILE_GOAL,
                    None => forall|a: int, b: int|
                        m0.in_bounds(a, b) && scan_before(a, b, x as int, y as int) ==> #[trigger] m0.cell(a, b) != TILE_GOAL,
                },
            decreases width - x,
        {
            if map.get(x as i32, y as i32) == Some(TILE_GOAL) {
                goal_pos = Some((x, y));
            }
            x = x + 1;
        }
        y = y + 1;
    }
    // Room closest to the goal (first one on ties) gets the genkan door.
    let genkan_room_idx: Option<usize> = match goal_pos {
        Some((gx, gy)) => {
            assert(room_inside(rooms@[0], width as int, height as int));
            let mut best: usize = 0;
            let mut best_d = room_center_dist2(&rooms[0], gx, gy);
            let mut i: usize = 1;
            while i < rooms.len()
                invariant
                    1 <= i <= rooms@.len(),
                    best < i,
                    best_d == room_dist2(rooms@[best as int], gx as int, gy as int),
                    forall|j: int| 0 <= j < i ==> room_dist2(#[trigger] rooms@[j], gx as int, gy as int) >= best_d,
                    forall|j: int| 0 <= j < best ==> room_dist2(#[trigger] rooms@[j], gx as int, gy as int) > best_d,
                    gx < width,
                    gy < height,
                    width <= i32::MAX,
                    height <= i32::MAX,
                    forall|j: int| 0 <= j < rooms@.len() ==> room_inside(#[trigger] rooms@[j], width as int, height as int),
                decreases rooms@.len() - i,
            {
                assert(room_inside(rooms@[i as int], width as int, height as int));
                let d = room_center_dist2(&rooms[i], gx, gy);
                if d < best_d {
                    best = i;
                    best_d = d;
                }
                i = i + 1;
            }
            assert(nearest_room(rooms@, gx as int, gy as int, best as int));
            Some(best)
        },
        None => None,
    };
    let ghost goal = goal_of(&m0);
    proof {
        match goal_pos {
            Some((gx, gy)) => {
                assert(is_last_goal(&m0, gx as int, gy as int));
                let (x2, y2) = choose|x: int, y: int| is_last_goal(&m0, x, y);
                if x2 != gx || y2 != gy {
                    if scan_before(gx as int, gy as int, x2, y2) {
                        assert(m0.cell(x2, y2) != TILE_GOAL);
                    } else {
                        assert(m0.cell(gx as int, gy as int) != TILE_GOAL);
                    }
                }
                assert(goal == Some((gx as int, gy as int)));
            },
            None => {
                assert(!exists|x: int, y: int| is_last_goal(&m0, x, y));
            },
        }
    }
    let ghost mut placed: Seq<(int, int, int)> = Seq::empty();
    let mut room_idx: usize = 0;
    while room_idx < rooms.len()
        invariant
            0 <= room_idx <= rooms@.len(),
            m0.spec_width() == width,
            m0.spec_height() == height,
            3 <= width <= i32::MAX,
            3 <= height <= i32::MAX,
            forall|i: int| 0 <= i < rooms@.len() ==> room_inside(#[trigger] rooms@[i], width as int, height as int),
            walls_changed(&m0, map, |t: TileType| is_door_tile(t)),
            goal == goal_of(&m0),
            match genkan_room_idx {
                Some(r) => match goal {
                    Some((gx, gy)) => nearest_room(rooms@, gx, gy, r as int),
                    None => false,
                },
                None => goal is None,
            },
            forall|a: int, b: int|
                m0.in_bounds(a, b) && #[trigger] map.cell(a, b) != m0.cell(a, b) ==> door_of_room(
                    rooms@,
                    room_idx as int,
                    goal,
                    map.cell(a, b),
                    a,
                    b,
                ),
            forall|j: int| 0 <= j < room_idx && has_door_spot(&m0, #[trigger] rooms@[j]) ==> ring_has_door(map, rooms@[j]),
            doors_listed(&m0, map, rooms@, goal, placed, room_idx as int),
            spots_served(&m0, rooms@, placed, room_idx as int),
        decreases rooms@.len() - room_idx,
    {
        let room = &rooms[room_idx];
        assert(room_inside(rooms@[room_idx as int], width as int, height as int));
        proof {
            assert forall|a: int, b: int|
                m0.in_bounds(a, b) && #[trigger] map.cell(a, b) != m0.cell(a, b) implies door_of_room(
                rooms@,
                room_idx + 1,
                goal,
                map.cell(a, b),
                a,
                b,
            ) by {
                let i = choose|i: int|
                    0 <= i < room_idx && #[trigger] on_room_ring(rooms@[i], a, b) && map.cell(a, b)
                        == room_door_kind(rooms@, goal, i);
            }
        }
        let ghost mstart = *map;
        let ghost rm = rooms@[room_idx as int];
        let ghost pstart = placed.len();
        let ghost pl0 = placed;
        proof {
            if own_door_spot(&m0, rooms@, room_idx as int) {
                let (a, b) = choose|a: int, b: int|
                    #[trigger] on_room_ring(rooms@[room_idx as int], a, b) && fallback_spot(&m0, rooms@[room_idx as int], a, b) && forall|j: int|
                        0 <= j < room_idx ==> !on_room_ring(#[trigger] rooms@[j], a, b);
                if mstart.cell(a, b) != m0.cell(a, b) {
                    let k = choose|k: int| 0 <= k < placed.len() && #[trigger] placed[k].0 == a && placed[k].1 == b;
                    assert(on_room_ring(rooms@[placed[k].2], a, b));
                }
                let d = choose|d: int| 0 <= d < 4 && #[trigger] outward_empty_at(&m0, rm, a, b, d);
                assert(mstart.cell(a + dir_dx(d), b + dir_dy(d)) == m0.cell(a + dir_dx(d), b + dir_dy(d)));
                assert(outward_empty_at(&mstart, rm, a, b, d));
                assert(on_room_ring(rm, a, b) && fallback_spot(&mstart, rm, a, b));
                assert(has_door_spot(&mstart, rm));
            }
        }
        proof {
            if has_door_spot(&m0, rm) && !ring_has_door(&mstart, rm) {
                let (a, b) = choose|a: int, b: int| #[trigger] on_room_ring(rm, a, b) && fallback_spot(&m0, rm, a, b);
                let d = choose|d: int| 0 <= d < 4 && #[trigger] outward_empty_at(&m0, rm, a, b, d);
                if mstart.cell(a, b) != m0.cell(a, b) {
                    assert(on_room_ring(rm, a, b));
                }
                assert(mstart.cell(a + dir_dx(d), b + dir_dy(d)) == m0.cell(a + dir_dx(d), b + dir_dy(d)));
                assert(outward_empty_at(&mstart, rm, a, b, d));
                assert(on_room_ring(rm, a, b) && fallback_spot(&mstart, rm, a, b));
            }
        }
        let mut candidates = side_candidates(map, room, width, height);
        let mut skip = false;
        if candidates.len() == 0 {
            // No corridor-facing wall: force-open a wall whose far side is EMPTY.
            let mut fallback = fallback_candidates(map, room, width, height);
            proof {
                if has_door_spot(&mstart, rm) {
                    let (a, b) = choose|a: int, b: int| #[trigger] on_room_ring(rm, a, b) && fallback_spot(&mstart, rm, a, b);
                    lemma_fallback_row_nonempty(&mstart, rm, b, rm.w + 2, a - rm.x + 1);
                    lemma_fallback_rows_nonempty(&mstart, rm, rm.h + 2, b - rm.y + 1);
                }
            }
            if fallback.len() == 0 {
                skip = true;
            } else {
                let ghost f0 = fallback@;
                shuffle(&mut fallback, rng);
                proof {
                    lemma_shuffled_from(f0, fallback@, 0);
                    let j = choose|j: int| 0 <= j < f0.len() && f0[j] == fallback@[0];
                    assert(f0[j].0 < width && f0[j].1 < height) by {
                        assert(cells_in(f0, width as int, height as int));
                        assert(0 <= j < f0.len());
                    }
                    lemma_push_cell(candidates@, fallback@[0], width as int, height as int);
                    assert(mstart.cell(f0[j].0 as int, f0[j].1 as int) == TILE_WALL);
                    lemma_push_wall(candidates@, fallback@[0], &mstart);
                }
                candidates.push(fallback[0]);
            }
        }
        assert(has_door_spot(&m0, rm) ==> ring_has_door(&mstart, rm) || (!skip && candidates@.len() > 0));
        assert(walls_at(candidates@, &mstart));
        assert(has_door_spot(&mstart, rm) ==> !skip && candidates@.len() > 0);
        if !skip {
            let ghost c0 = candidates@;
            shuffle(&mut candidates, rng);
            // Door type from the room's role and size.
            assert(room.w * room.h <= width * height) by (nonlinear_arith)
                requires
                    room.w <= width,
                    room.h <= height,
            ;
            proof {
                map.lemma_wf_size();
            }
            let area = room.w * room.h;
            let is_genkan = genkan_room_idx == Some(room_idx);
            let door_type = if is_genkan {
                TILE_DOOR_GENKAN
            } else if area >= 9 {
                TILE_DOOR_FUSUMA
            } else if area >= 6 {
                TILE_DOOR_KITCHEN
            } else {
                TILE_DOOR_TOILET
            };
            proof {
                match goal {
                    Some((gx, gy)) => {
                        if let Some(r) = genkan_room_idx {
                            assert(nearest_room(rooms@, gx, gy, r as int));
                            if nearest_room(rooms@, gx, gy, room_idx as int) && r != room_idx {
                                assert(room_dist2(rooms@[r as int], gx, gy) >= room_dist2(rooms@[room_idx as int], gx, gy));
                                assert(room_dist2(rooms@[room_idx as int], gx, gy) >= room_dist2(rooms@[r as int], gx, gy));
                            }
                        }
                    },
                    None => {},
                }
                assert(door_type == room_door_kind(rooms@, goal, room_idx as int));
            }
            assert forall|kk: int| 0 <= kk < placed.len() implies 0 <= #[trigger] placed[kk].2 < room_idx + 1 by {}
            assert(doors_listed(&m0, map, rooms@, goal, placed, room_idx + 1));
            // One or two doors; never overwrite doors that are already open.
            let num_doors: usize = if candidates.len() >= 2 && gen_ratio(rng, 3, 10) { 2 } else { 1 };
            let mut k: usize = 0;
            while k < num_doors && k < candidates.len()
                invariant
                    0 <= k <= candidates@.len(),
                    candidates@.to_multiset() == c0.to_multiset(),
                    cells_in(c0, width as int, height as int),
                    is_door_tile(door_type),
                    m0.spec_width() == width,
                    m0.spec_height() == height,
                    width <= i32::MAX,
                    height <= i32::MAX,
                    walls_changed(&m0, map, |t: TileType| is_door_tile(t)),
                    ring_cells(c0, rooms@[room_idx as int]),
                    room_idx < rooms@.len(),
                    door_type == room_door_kind(rooms@, goal, room_idx as int),
                    forall|a: int, b: int|
                        m0.in_bounds(a, b) && #[trigger] map.cell(a, b) != m0.cell(a, b) ==> door_of_room(
                            rooms@,
                            room_idx + 1,
                            goal,
                            map.cell(a, b),
                            a,
                            b,
                        ),
                    num_doors >= 1,
                    rm == rooms@[room_idx as int],
                    k == 0 ==> *map == mstart,
                    walls_at(c0, &mstart),
                    mstart.spec_width() == width,
                    mstart.spec_height() == height,
                    forall|j: int| 0 <= j < room_idx && has_door_spot(&m0, #[trigger] rooms@[j]) ==> ring_has_door(map, rooms@[j]),
                    ring_has_door(&mstart, rm) ==> ring_has_door(map, rm),
                    k > 0 ==> ring_has_door(map, rm),
                    num_doors <= 2,
                    goal == goal_of(&m0),
                    doors_listed(&m0, map, rooms@, goal, placed, room_idx + 1),
                    spots_served(&m0, rooms@, placed, room_idx as int),
                    pl0.len() == pstart,
                    pstart <= placed.len() <= pstart + k,
                    forall|kk: int| 0 <= kk < pstart ==> #[trigger] placed[kk] == pl0[kk],
                    forall|kk: int| 0 <= kk < pstart ==> #[trigger] pl0[kk].2 < room_idx,
                    forall|kk: int| pstart <= kk < placed.len() ==> #[trigger] placed[kk].2 == room_idx,
                    k > 0 ==> placed.len() > pstart,
                decreases candidates@.len() - k,
            {
                let (x, y) = candidates[k];
                proof {
                    lemma_shuffled_from(c0, candidates@, k as int);
                    let j = choose|j: int| 0 <= j < c0.len() && c0[j] == candidates@[k as int];
                }
                let ghost before = *map;
                place_door_tile(map, x, y, door_type, Ghost(m0));
                proof {
                    let j0 = choose|j: int| 0 <= j < c0.len() && c0[j] == candidates@[k as int];
                    assert(on_room_ring(rm, x as int, y as int)) by {
                        assert(on_room_ring(rooms@[room_idx as int], c0[j0].0 as int, c0[j0].1 as int));
                    }
                    assert(cells_in(c0, width as int, height as int));
                    assert(m0.in_bounds(x as int, y as int)) by {
                        assert(c0[j0].0 < width && c0[j0].1 < height);
                    }
                    if k == 0 {
                        assert(mstart.cell(c0[j0].0 as int, c0[j0].1 as int) == TILE_WALL);
                    }
                    if before.cell(x as int, y as int) == TILE_WALL {
                        assert forall|kk: int| 0 <= kk < placed.len() implies #[trigger] placed[kk].2 <= room_idx by {
                            if kk < pstart {
                                assert(placed[kk] == pl0[kk]);
                            }
                        }
                        if placed.len() >= 2 {
                            let q = placed.len() - 2;
                            assert(q < pstart);
                            assert(placed[q] == pl0[q]);
                        }
                        lemma_door_push(&m0, &before, map, rooms@, goal, placed, x as int, y as int, room_idx as int);
                        let pold = placed;
                        placed = placed.push((x as int, y as int, room_idx as int));
                        assert forall|kk: int| 0 <= kk < pstart implies #[trigger] placed[kk] == pl0[kk] by {
                            assert(placed[kk] == pold[kk]);
                        }
                        assert forall|kk: int| pstart <= kk < placed.len() implies #[trigger] placed[kk].2 == room_idx by {
                            if kk < pold.len() {
                                assert(placed[kk] == pold[kk]);
                            }
                        }
                        assert forall|i: int|
                            0 <= i < room_idx && #[trigger] own_door_spot(&m0, rooms@, i) implies exists|kk: int| 0 <= kk < placed.len() && #[trigger] placed[kk].2 == i by {
                            let kk = choose|kk: int| 0 <= kk < pold.len() && #[trigger] pold[kk].2 == i;
                            assert(placed[kk] == pold[kk]);
                        }
                    } else {
                        lemma_door_same(&m0, &before, map, rooms@, goal, placed, room_idx + 1);
                    }
                    let j = choose|j: int| 0 <= j < c0.len() && c0[j] == candidates@[k as int];
                    assert(on_room_ring(rooms@[room_idx as int], c0[j].0 as int, c0[j].1 as int));
                    assert forall|a: int, b: int|
                        m0.in_bounds(a, b) && #[trigger] map.cell(a, b) != m0.cell(a, b) implies door_of_room(
                        rooms@,
                        room_idx + 1,
                        goal,
                        map.cell(a, b),
                        a,
                        b,
                    ) by {
                        if a == x && b == y && before.cell(a, b) == TILE_WALL {
                            assert(on_room_ring(rooms@[room_idx as int], a, b));
                        } else {
                            assert(map.cell(a, b) == before.cell(a, b));
                        }
                    }
                    assert forall|a: int, b: int| before.in_bounds(a, b) && #[trigger] map.cell(a, b) != before.cell(a, b) implies before.cell(a, b) == TILE_WALL by {
                        if a != x || b != y {
                            assert(map.cell(a, b) == before.cell(a, b));
                        }
                    }
                    assert forall|jj: int| 0 <= jj < room_idx && has_door_spot(&m0, #[trigger] rooms@[jj]) implies ring_has_door(map, rooms@[jj]) by {
                        lemma_ring_door_kept(&before, map, rooms@[jj]);
                    }
                    if ring_has_door(&before, rm) {
                        lemma_ring_door_kept(&before, map, rm);
                    }
                    if k == 0 {
                        assert(mstart.cell(c0[j].0 as int, c0[j].1 as int) == TILE_WALL);
                        assert(map.cell(x as int, y as int) == door_type);
                        assert(on_room_ring(rm, x as int, y as int));
                    }
                }
                k = k + 1;
            }
        }
        assert(has_door_spot(&m0, rm) ==> ring_has_door(map, rm));
        proof {
            if skip {
                assert forall|kk: int| 0 <= kk < placed.len() implies 0 <= #[trigger] placed[kk].2 < room_idx + 1 by {}
                assert(doors_listed(&m0, map, rooms@, goal, placed, room_idx + 1));
            }
            if own_door_spot(&m0, rooms@, room_idx as int) {
                assert(placed[pstart as int].2 == room_idx);
            }
            assert forall|i: int|
                0 <= i < room_idx + 1 && #[trigger] own_door_spot(&m0, rooms@, i) implies exists|kk: int| 0 <= kk < placed.len() && #[trigger] placed[kk].2 == i by {
                if i == room_idx {
                    assert(placed[pstart as int].2 == room_idx);
                }
            }
        }
        room_idx = room_idx + 1;
    }
    assert(doors_laid(&m0, map, rooms@, goal_of(&m0), placed));
}

/// A wall at least two cells in from the edge with an EMPTY cell beside it
/// (left, right, above or below): a place for a window or shoji.
pub open spec fn window_candidate(m: &NobiscuitMap, a: int, b: int) -> bool {
    &&& 2 <= a < m.spec_width() - 2
    &&& 2 <= b < m.spec_height() - 2
    &&& m.cell(a, b) == TILE_WALL
    &&& (m.cell(a - 1, b) == TILE_EMPTY || m.cell(a + 1, b) == TILE_EMPTY || m.cell(a, b - 1) == TILE_EMPTY
        || m.cell(a, b + 1) == TILE_EMPTY)
}

/// Window candidates among the first `n` cells of row `y`, from column 2.
pub open spec fn window_row(m: &NobiscuitMap, y: int, n: int) -> Seq<(usize, usize)>
    decreases n,
{
    if n <= 0 {
        seq![]
    } else {
        window_row(m, y, n - 1) + if window_candidate(m, 2 + n - 1, y) {
            seq![((2 + n - 1) as usize, y as usize)]
        } else {
            seq![]
        }
    }
}

/// Window candidates of the first `n` rows from row 2, in row-major order.
pub open spec fn window_rows(m: &NobiscuitMap, n: int) -> Seq<(usize, usize)>
    decreases n,
{
    if n <= 0 {
        seq![]
    } else {
        window_rows(m, n - 1) + window_row(m, 2 + n - 1, m.spec_width() - 4)
    }
}

/// All window candidates of `m`, in row-major order.
pub open spec fn window_candidates(m: &NobiscuitMap) -> Seq<(usize, usize)> {
    window_rows(m, m.spec_height() - 4)
}

/// How many candidates out of `n` become windows or shoji: a seventh of
/// them, at least 3, and never more than there are.
pub open spec fn window_share(n: int) -> int {
    let k = if n / 7 > 3 { n / 7 } else { 3 };
    if k < n { k } else { n }
}

/// Convert some interior walls that face an EMPTY cell into windows or shoji:
/// a shuffled seventh of the candidates (at least 3), each a shoji with
/// probability 0.3 and a window otherwise.
#[verifier::rlimit(50)]
pub fn place_windows_and_shoji(map: &mut NobiscuitMap, width: usize, height: usize, rng: &mut StdRng)
    requires
        old(map).wf(),
        old(map).spec_width() == width,
        old(map).spec_height() == height,
        3 <= width <= i32::MAX,
        3 <= height <= i32::MAX,
    ensures
        walls_changed(old(map), final(map), |t: TileType| t == TILE_WINDOW || t == TILE_SHOJI),
        forall|a: int, b: int|
            old(map).in_bounds(a, b) && #[trigger] final(map).cell(a, b) != old(map).cell(a, b)
                ==> window_candidate(old(map), a, b),
        exists|p: Seq<(usize, usize)>|
            #[trigger] p.to_multiset() == window_candidates(old(map)).to_multiset() && forall|a: int, b: int|
                old(map).in_bounds(a, b) ==> ((#[trigger] final(map).cell(a, b) != old(map).cell(a, b))
                    <==> p.take(window_share(window_candidates(old(map)).len() as int)).contains(
                    (a as usize, b as usize),
                )),
{
    let ghost m0 = *map;
    let mut candidates: Vec<(usize, usize)> = Vec::new();
    // Skip the outer border (row/col 0 and last) and the ring inside it.
    let mut y: usize = 2;
    while y < height - 2
        invariant
            2 <= y,
            y <= height - 2 || y == 2,
            map.wf(),
            *map == m0,
            map.spec_width() == width,
            map.spec_height() == height,
            3 <= width <= i32::MAX,
            3 <= height <= i32::MAX,
            forall|k: int| 0 <= k < candidates@.len() ==> #[trigger] candidates@[k].0 < width && candidates@[k].1 < height
                && m0.cell(candidates@[k].0 as int, candidates@[k].1 as int) == TILE_WALL
                && window_candidate(&m0, candidates@[k].0 as int, candidates@[k].1 as int),
            candidates@ == window_rows(&m0, y - 2),
        decreases height - y,
    {
        let mut x: usize = 2;
        while x < width - 2
            invariant
                2 <= x,
                x <= width - 2 || x == 2,
                2 <= y < height - 2,
                map.wf(),
                *map == m0,
                map.spec_width() == width,
                map.spec_height() == height,
                3 <= width <= i32::MAX,
                3 <= height <= i32::MAX,
                forall|k: int| 0 <= k < candidates@.len() ==> #[trigger] candidates@[k].0 < width && candidates@[k].1 < height
                    && m0.cell(candidates@[k].0 as int, candidates@[k].1 as int) == TILE_WALL
                    && window_candidate(&m0, candidates@[k].0 as int, candidates@[k].1 as int),
                candidates@ == window_rows(&m0, y - 2) + window_row(&m0, y as int, x - 2),
            decreases width - x,
        {
            if map.get(x as i32, y as i32) == Some(TILE_WALL) {
                // A wall visible from an EMPTY neighbour.
                let has_corridor = map.get(x as i32 - 1, y as i32) == Some(TILE_EMPTY)
                    || map.get(x as i32 + 1, y as i32) == Some(TILE_EMPTY)
                    || map.get(x as i32, y as i32 - 1) == Some(TILE_EMPTY)
                    || map.get(x as i32, y as i32 + 1) == Some(TILE_EMPTY);
                if has_corridor {
                    let ghost c = candidates@;
                    candidates.push((x, y));
                    assert forall|k: int| 0 <= k < candidates@.len() implies #[trigger] candidates@[k].0 < width && candidates@[k].1 < height
                        && m0.cell(candidates@[k].0 as int, candidates@[k].1 as int) == TILE_WALL
                        && window_candidate(&m0, candidates@[k].0 as int, candidates@[k].1 as int) by {
                        if k < c.len() {
                            assert(candidates@[k] == c[k]);
                        }
                    }
                }
            }
            assert(window_row(&m0, y as int, x - 2 + 1) == window_row(&m0, y as int, x - 2) + if window_candidate(&m0, x as int, y as int) {
                seq![(x, y)]
            } else {
                seq![]
            });
            assert(candidates@ =~= window_rows(&m0, y - 2) + window_row(&m0, y as int, x - 2 + 1));
            x = x + 1;
        }
        assert(window_row(&m0, y as int, x - 2) == window_row(&m0, y as int, width - 4));
        assert(candidates@ =~= window_rows(&m0, y - 2 + 1));
        y = y + 1;
    }
    assert(window_rows(&m0, y - 2) == window_rows(&m0, height - 4));
    assert(candidates@ == window_candidates(&m0));
    let ghost c0 = candidates@;
    shuffle(&mut candidates, rng);
    let window_count = if candidates.len() / 7 > 3 { candidates.len() / 7 } else { 3 };
    let mut k: usize = 0;
    while k < window_count && k < candidates.len()
        invariant
            0 <= k <= candidates@.len(),
            candidates@.to_multiset() == c0.to_multiset(),
            forall|i: int| 0 <= i < c0.len() ==> #[trigger] c0[i].0 < width && c0[i].1 < height
                && m0.cell(c0[i].0 as int, c0[i].1 as int) == TILE_WALL && window_candidate(&m0, c0[i].0 as int, c0[i].1 as int),
            m0.spec_width() == width,
            m0.spec_height() == height,
            walls_changed(&m0, map, |t: TileType| t == TILE_WINDOW || t == TILE_SHOJI),
            forall|a: int, b: int|
                m0.in_bounds(a, b) && #[trigger] map.cell(a, b) != m0.cell(a, b) ==> window_candidate(&m0, a, b),
            k <= window_count,
            c0 == window_candidates(&m0),
            window_count == (if c0.len() / 7 > 3 { c0.len() / 7 } else { 3 }),
            forall|a: int, b: int|
                m0.in_bounds(a, b) ==> ((#[trigger] map.cell(a, b) != m0.cell(a, b)) <==> candidates@.take(k as int).contains(
                    (a as usize, b as usize),
                )),
        decreases candidates@.len() - k,
    {
        let (x, y) = candidates[k];
        proof {
            lemma_shuffled_from(c0, candidates@, k as int);
            let j = choose|j: int| 0 <= j < c0.len() && c0[j] == candidates@[k as int];
        }
        // About 30% of the chosen walls become shoji, the rest windows.
        let ghost before = *map;
        if gen_ratio(rng, 3, 10) {
            map.set(x, y, TILE_SHOJI);
        } else {
            map.set(x, y, TILE_WINDOW);
        }
        proof {
            let j = choose|j: int| 0 <= j < c0.len() && c0[j] == candidates@[k as int];
            assert(m0.cell(x as int, y as int) == TILE_WALL);
            assert forall|a: int, b: int|
                m0.in_bounds(a, b) implies ((#[trigger] map.cell(a, b) != m0.cell(a, b)) <==> candidates@.take(k + 1).contains(
                    (a as usize, b as usize),
                )) by {
                assert(candidates@.take(k + 1) =~= candidates@.take(k as int).push((x, y)));
                if a == x && b == y {
                    assert(candidates@.take(k + 1)[k as int] == (x, y));
                } else {
                    assert(map.cell(a, b) == before.cell(a, b));
                    if candidates@.take(k + 1).contains((a as usize, b as usize)) {
                        let i = choose|i: int| 0 <= i < k + 1 && #[trigger] candidates@.take(k + 1)[i] == (a as usize, b as usize);
                        assert(candidates@.take(k as int)[i] == (a as usize, b as usize));
                    }
                    if candidates@.take(k as int).contains((a as usize, b as usize)) {
                        let i = choose|i: int| 0 <= i < k && #[trigger] candidates@.take(k as int)[i] == (a as usize, b as usize);
                        assert(candidates@.take(k + 1)[i] == (a as usize, b as usize));
                    }
                }
            }
        }
        k = k + 1;
    }
    assert(k == window_share(c0.len() as int));
    assert(candidates@.to_multiset() == window_candidates(&m0).to_multiset());
}

/// Some of the eight neighbours of `(x, y)` (diagonals included) is not solid.
pub open spec fn open_neighbour(m: &NobiscuitMap, x: int, y: int) -> bool {
    ||| !m.spec_is_solid(x + 1, y)
    ||| !m.spec_is_solid(x - 1, y)
    ||| !m.spec_is_solid(x, y + 1)
    ||| !m.spec_is_solid(x, y - 1)
    ||| !m.spec_is_solid(x + 1, y + 1)
    ||| !m.spec_is_solid(x + 1, y - 1)
    ||| !m.spec_is_solid(x - 1, y + 1)
    ||| !m.spec_is_solid(x - 1, y - 1)
}

/// `(x, y)` is a VOID cell inside the outer ring that touches a non-solid
/// cell, so that rays could reach it.
pub open spec fn void_to_seal(m: &NobiscuitMap, x: int, y: int) -> bool {
    &&& 1 <= x < m.spec_width() - 1
    &&& 1 <= y < m.spec_height() - 1
    &&& m.cell(x, y) == TILE_VOID
    &&& open_neighbour(m, x, y)
}

/// Sealing is idempotent: sealing a map that was just sealed changes nothing.
pub proof fn lemma_seal_idempotent(m0: &NobiscuitMap, m1: &NobiscuitMap, m2: &NobiscuitMap)
    requires
        m1.spec_width() == m0.spec_width(),
        m1.spec_height() == m0.spec_height(),
        forall|a: int, b: int|
            m0.in_bounds(a, b) ==> #[trigger] m1.cell(a, b) == if void_to_seal(m0, a, b) {
                TILE_WALL
            } else {
                m0.cell(a, b)
            },
        m2.spec_width() == m1.spec_width(),
        m2.spec_height() == m1.spec_height(),
        forall|a: int, b: int|
            m1.in_bounds(a, b) ==> #[trigger] m2.cell(a, b) == if void_to_seal(m1, a, b) {
                TILE_WALL
            } else {
                m1.cell(a, b)
            },
    ensures
        forall|a: int, b: int| m1.in_bounds(a, b) ==> #[trigger] m2.cell(a, b) == m1.cell(a, b),
{
    crate::maze::lemma_sealed(m0, m1);
    assert forall|a: int, b: int| m1.in_bounds(a, b) implies #[trigger] m2.cell(a, b) == m1.cell(a, b) by {
        if void_to_seal(m1, a, b) {
            assert(interior(m1.spec_width() as int, m1.spec_height() as int, a, b));
            assert(m1.cell(a, b) == TILE_VOID);
        }
    }
}

/// Seal VOID cells next to a non-solid cell (8 directions, since rays can pass
/// diagonally through cell corners) by turning them into walls.
pub fn seal_void_boundaries(map: &mut NobiscuitMap, width: usize, height: usize)
    requires
        old(map).wf(),
        old(map).spec_width() == width,
        old(map).spec_height() == height,
        3 <= width <= i32::MAX,
        3 <= height <= i32::MAX,
    ensures
        final(map).wf(),
        final(map).spec_width() == width,
        final(map).spec_height() == height,
        forall|a: int, b: int|
            old(map).in_bounds(a, b) ==> #[trigger] final(map).cell(a, b) == if void_to_seal(old(map), a, b) {
                TILE_WALL
            } else {
                old(map).cell(a, b)
            },
{
    let ghost m0 = *map;
    // Collect first, then convert.
    let mut to_wall: Vec<(usize, usize)> = Vec::new();
    let mut y: usize = 1;
    while y < height - 1
        invariant
            1 <= y <= height - 1,
            map.wf(),
            *map == m0,
            map.spec_width() == width,
            map.spec_height() == height,
            3 <= width <= i32::MAX,
            3 <= height <= i32::MAX,
            forall|k: int| 0 <= k < to_wall@.len() ==> #[trigger] void_to_seal(&m0, to_wall@[k].0 as int, to_wall@[k].1 as int),
            forall|a: int, b: int|
                b < y && #[trigger] void_to_seal(&m0, a, b) ==> to_wall@.contains((a as usize, b as usize)),
        decreases height - y,
    {
        let mut x: usize = 1;
        while x < width - 1
            invariant
                1 <= x <= width - 1,
                1 <= y < height - 1,
                map.wf(),
                *map == m0,
                map.spec_width() == width,
                map.spec_height() == height,
                3 <= width <= i32::MAX,
                3 <= height <= i32::MAX,
                forall|k: int| 0 <= k < to_wall@.len() ==> #[trigger] void_to_seal(&m0, to_wall@[k].0 as int, to_wall@[k].1 as int),
                forall|a: int, b: int|
                    (b < y || (b == y && a < x)) && #[trigger] void_to_seal(&m0, a, b) ==> to_wall@.contains((a as usize, b as usize)),
            decreases width - x,
        {
            if map.get(x as i32, y as i32) == Some(TILE_VOID) {
                let xi = x as i32;
                let yi = y as i32;
                let has_walkable_neighbor = !map.is_solid(xi + 1, yi) || !map.is_solid(xi - 1, yi)
                    || !map.is_solid(xi, yi + 1) || !map.is_solid(xi, yi - 1)
                    || !map.is_solid(xi + 1, yi + 1) || !map.is_solid(xi + 1, yi - 1)
                    || !map.is_solid(xi - 1, yi + 1) || !map.is_solid(xi - 1, yi - 1);
                if has_walkable_neighbor {
                    let ghost c = to_wall@;
                    to_wall.push((x, y));
                    proof {
                        assert forall|k: int| 0 <= k < to_wall@.len() implies #[trigger] void_to_seal(&m0, to_wall@[k].0 as int, to_wall@[k].1 as int) by {
                            if k < c.len() {
                                assert(to_wall@[k] == c[k]);
                            }
                        }
                        assert forall|a: int, b: int| (b < y || (b == y && a < x + 1)) && #[trigger] void_to_seal(&m0, a, b) implies to_wall@.contains((a as usize, b as usize)) by {
                            if a == x && b == y {
                                assert(to_wall@[to_wall@.len() - 1] == (x, y));
                            } else {
                                assert(c.contains((a as usize, b as usize)));
                                let k = choose|k: int| 0 <= k < c.len() && c[k] == (a as usize, b as usize);
                                assert(to_wall@[k] == c[k]);
                            }
                        }
                    }
                } else {
                    assert(!void_to_seal(&m0, x as int, y as int));
                }
            } else {
                assert(!void_to_seal(&m0, x as int, y as int));
            }
            x = x + 1;
        }
        y = y + 1;
    }
    assert forall|a: int, b: int| m0.in_bounds(a, b) && #[trigger] void_to_seal(&m0, a, b) implies to_wall@.contains((a as usize, b as usize)) by {
    }
    let mut k: usize = 0;
    while k < to_wall.len()
        invariant
            0 <= k <= to_wall@.len(),
            forall|i: int| 0 <= i < to_wall@.len() ==> #[trigger] void_to_seal(&m0, to_wall@[i].0 as int, to_wall@[i].1 as int),
            map.wf(),
            map.spec_width() == width,
            map.spec_height() == height,
            m0.spec_width() == width,
            m0.spec_height() == height,
            forall|a: int, b: int|
                m0.in_bounds(a, b) ==> #[trigger] map.cell(a, b) == if to_wall@.take(k as int).contains((a as usize, b as usize)) {
                    TILE_WALL
                } else {
                    m0.cell(a, b)
                },
        decreases to_wall@.len() - k,
    {
        let (x, y) = to_wall[k];
        assert(void_to_seal(&m0, to_wall@[k as int].0 as int, to_wall@[k as int].1 as int));
        let ghost before = *map;
        map.set(x, y, TILE_WALL);
        proof {
            assert(to_wall@.take(k as int + 1) == to_wall@.take(k as int).push((x, y)));
            assert forall|a: int, b: int| m0.in_bounds(a, b) implies #[trigger] map.cell(a, b) == if to_wall@.take(k as int + 1).contains((a as usize, b as usize)) {
                TILE_WALL
            } else {
                m0.cell(a, b)
            } by {
                if a == x && b == y {
                    assert(to_wall@.take(k as int + 1)[k as int] == (x, y));
                } else {
                    assert(map.cell(a, b) == before.cell(a, b));
                    if to_wall@.take(k as int + 1).contains((a as usize, b as usize)) {
                        let j = choose|j: int| 0 <= j < k + 1 && #[trigger] to_wall@.take(k as int + 1)[j] == (a as usize, b as usize);
                        assert(j != k);
                        assert(to_wall@.take(k as int)[j] == (a as usize, b as usize));
                    }
                }
            }
        }
        k = k + 1;
    }
    proof {
        assert(to_wall@.take(to_wall@.len() as int) == to_wall@);
        assert forall|a: int, b: int| m0.in_bounds(a, b) implies #[trigger] map.cell(a, b) == if void_to_seal(&m0, a, b) { TILE_WALL } else { m0.cell(a, b) } by {
            if to_wall@.contains((a as usize, b as usize)) {
                let j = choose|j: int| 0 <= j < to_wall@.len() && to_wall@[j] == (a as usize, b as usize);
                assert(void_to_seal(&m0, to_wall@[j].0 as int, to_wall@[j].1 as int));
            }
        }
    }
}
/// The size-to-kind table of doors: every door `place_doors` lays (an entry
/// `(x, y, i)` of `placed`) is, for a room that is not the one nearest the
/// goal, a fusuma door when the room's area is 9 or more, a kitchen door
/// when it is 6 to 8, and a toilet door when it is below 6; the room nearest
/// the goal gets a genkan door.
pub proof fn lemma_door_kind_by_area(
    m0: &NobiscuitMap,
    m: &NobiscuitMap,
    rooms: Seq<Room>,
    goal: Option<(int, int)>,
    placed: Seq<(int, int, int)>,
    k: int,
)
    requires
        doors_laid(m0, m, rooms, goal, placed),
        0 <= k < placed.len(),
    ensures
        ({
            let (x, y, i) = placed[k];
            let area = rooms[i].w * rooms[i].h;
            let nearest = goal matches Some((gx, gy)) && nearest_room(rooms, gx, gy, i);
            &&& nearest ==> m.cell(x, y) == TILE_DOOR_GENKAN
            &&& !nearest && area >= 9 ==> m.cell(x, y) == TILE_DOOR_FUSUMA
            &&& !nearest && 6 <= area < 9 ==> m.cell(x, y) == TILE_DOOR_KITCHEN
            &&& !nearest && area < 6 ==> m.cell(x, y) == TILE_DOOR_TOILET
        }),
{
    assert(0 <= placed[k].2 < rooms.len());
}

} // verus!
