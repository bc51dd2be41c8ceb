//! Multi-floor maze generation.

pub mod bsp;
pub mod connect;
pub mod decor;
pub mod floor;
pub mod goal_floor;
pub mod mask;
pub mod reach;

use vstd::prelude::*;
use crate::grid::{cell_index, lemma_index_in_bounds};
use crate::map::TileMap;
use crate::nobiscuit_map::NobiscuitMap;
use crate::tiles::{TileType, TILE_EMPTY, TILE_WALL, TILE_VOID, TILE_GOAL, TILE_WINDOW, TILE_SHOJI, TILE_DOOR_FUSUMA, is_walkable_tile, is_door_tile, is_passable_tile};
use crate::maze::bsp::{bsp_layout, carved_from, laid_out, CorridorStrip, in_some_room, listed_cell};
use crate::maze::connect::{connect_rooms, ensure_spawn_walkable, doored_from, opened_from, on_some_ring, some_room_faces, door_opened, node_labels, linked, joined, all_edges, spawn_repaired, passage_joined, lemma_joined_passage, lemma_all_edges_in_map};
use crate::maze::decor::{place_doors, place_windows_and_shoji, seal_void_boundaries, walls_changed, open_neighbour, void_to_seal, door_of_room, goal_of, has_door_spot, ring_has_door, doors_laid, window_candidate, window_candidates, window_share};
use crate::maze::mask::{generate_mask, find_islands, is_node, masked_node, listed, islands_ok};
use crate::maze::floor::{build_floor_layout, islands_have_stairs, only_free_cells_changed, lemma_island_stairs_kept, floor_layout};
use crate::maze::goal_floor::{generate_goal_floor, goal_floor_tile, is_goal_floor, template_origin, lemma_goal_floor_goal, lemma_goal_floor_connected};
use crate::maze::reach::{verify_connectivity, wall_off_unreachable, fully_connected, walkable_at, reachable, walled_off, is_seed, passable_at, lemma_single_walk};
use crate::tiles::{TILE_STAIRS_UP, TILE_STAIRS_DOWN};
use rand::rngs::StdRng;

verus! {

/// A placed room (interior coordinates in map space).
pub struct Room {
    /// Left column of the interior.
    pub x: usize,
    /// Top row of the interior.
    pub y: usize,
    /// Interior width.
    pub w: usize,
    /// Interior height.
    pub h: usize,
}

/// A room whose interior lies strictly inside a `width` x `height` map.
pub open spec fn room_inside(r: Room, width: int, height: int) -> bool {
    &&& 1 <= r.x
    &&& 1 <= r.y
    &&& 1 <= r.w
    &&& 1 <= r.h
    &&& r.x + r.w <= width - 1
    &&& r.y + r.h <= height - 1
}

/// `(x, y)` lies in the interior of room `r`.
pub open spec fn in_room(r: Room, x: int, y: int) -> bool {
    r.x <= x < r.x + r.w && r.y <= y < r.y + r.h
}

/// `(x, y)` lies strictly inside the outer ring of a `width` x `height` map.
pub open spec fn interior(width: int, height: int, x: int, y: int) -> bool {
    1 <= x < width - 1 && 1 <= y < height - 1
}

/// No cell of the outer ring can be walked on.
pub open spec fn border_unwalkable(m: &NobiscuitMap) -> bool {
    forall|a: int, b: int|
        m.in_bounds(a, b) && !interior(m.spec_width() as int, m.spec_height() as int, a, b)
            ==> !is_walkable_tile(#[trigger] m.cell(a, b))
}

/// Every goal cell lies strictly inside the outer ring.
pub open spec fn goals_interior(m: &NobiscuitMap) -> bool {
    forall|a: int, b: int|
        m.in_bounds(a, b) && #[trigger] m.cell(a, b) == TILE_GOAL ==> interior(
            m.spec_width() as int,
            m.spec_height() as int,
            a,
            b,
        )
}

/// Tiles of either staircase.
pub open spec fn is_stairs_tile(t: TileType) -> bool {
    t == TILE_STAIRS_UP || t == TILE_STAIRS_DOWN
}

/// No cell holds a staircase.
pub open spec fn no_stairs(m: &NobiscuitMap) -> bool {
    forall|a: int, b: int| m.in_bounds(a, b) ==> !is_stairs_tile(#[trigger] m.cell(a, b))
}

/// Every cell of every room of `rooms` is EMPTY in `m`.
pub open spec fn rooms_empty(m: &NobiscuitMap, rooms: Seq<Room>) -> bool {
    forall|j: int, a: int, b: int|
        #![trigger rooms[j], m.cell(a, b)]
        0 <= j < rooms.len() && in_room(rooms[j], a, b) ==> m.cell(a, b) == TILE_EMPTY
}

/// Every VOID cell lies inside the outer ring.
pub open spec fn void_inside(m: &NobiscuitMap) -> bool {
    forall|a: int, b: int|
        m.in_bounds(a, b) && #[trigger] m.cell(a, b) == TILE_VOID ==> interior(m.spec_width() as int, m.spec_height() as int, a, b)
}

/// No VOID cell inside the outer ring has a non-solid cell among its eight
/// neighbours.
pub open spec fn void_sealed(m: &NobiscuitMap) -> bool {
    forall|a: int, b: int|
        interior(m.spec_width() as int, m.spec_height() as int, a, b) && #[trigger] m.cell(a, b) == TILE_VOID ==> !open_neighbour(m, a, b)
}

/// From `m0` to `m`, EMPTY cells stay EMPTY and no VOID appears.
pub open spec fn keeps_empty(m0: &NobiscuitMap, m: &NobiscuitMap) -> bool {
    &&& m.spec_width() == m0.spec_width()
    &&& m.spec_height() == m0.spec_height()
    &&& forall|a: int, b: int|
        m0.in_bounds(a, b) ==> (m0.cell(a, b) == TILE_EMPTY ==> #[trigger] m.cell(a, b) == TILE_EMPTY) && (m.cell(a, b)
            == TILE_VOID ==> m0.cell(a, b) == TILE_VOID)
}

/// A change that keeps EMPTY cells and makes no VOID keeps rooms EMPTY and VOID
/// inside.
proof fn lemma_keeps(m0: &NobiscuitMap, m: &NobiscuitMap, rooms: Seq<Room>)
    requires
        keeps_empty(m0, m),
        rooms_empty(m0, rooms),
        void_inside(m0),
        forall|j: int| 0 <= j < rooms.len() ==> room_inside(#[trigger] rooms[j], m0.spec_width() as int, m0.spec_height() as int),
    ensures
        rooms_empty(m, rooms),
        void_inside(m),
{
    assert forall|j: int, a: int, b: int|
        #![trigger rooms[j], m.cell(a, b)]
        0 <= j < rooms.len() && in_room(rooms[j], a, b) implies m.cell(a, b) == TILE_EMPTY by {
        assert(room_inside(rooms[j], m0.spec_width() as int, m0.spec_height() as int));
        assert(m0.cell(a, b) == TILE_EMPTY);
    }
    assert forall|a: int, b: int| m.in_bounds(a, b) && #[trigger] m.cell(a, b) == TILE_VOID implies interior(
        m.spec_width() as int, m.spec_height() as int, a, b) by {
        assert(m0.cell(a, b) == TILE_VOID);
    }
}

/// Sealing leaves no VOID cell next to a non-solid one.
pub proof fn lemma_sealed(m0: &NobiscuitMap, m: &NobiscuitMap)
    requires
        m.spec_width() == m0.spec_width(),
        m.spec_height() == m0.spec_height(),
        forall|a: int, b: int|
            m0.in_bounds(a, b) ==> #[trigger] m.cell(a, b) == if void_to_seal(m0, a, b) {
                TILE_WALL
            } else {
                m0.cell(a, b)
            },
    ensures
        void_sealed(m),
{
    assert forall|a: int, b: int|
        interior(m.spec_width() as int, m.spec_height() as int, a, b) && #[trigger] m.cell(a, b) == TILE_VOID implies !open_neighbour(m, a, b) by {
        assert(m0.cell(a, b) == TILE_VOID);
        assert(!void_to_seal(m0, a, b));
        assert(m.cell(a + 1, b) == TILE_WALL || m.cell(a + 1, b) == m0.cell(a + 1, b));
        assert(m.cell(a - 1, b) == TILE_WALL || m.cell(a - 1, b) == m0.cell(a - 1, b));
        assert(m.cell(a, b + 1) == TILE_WALL || m.cell(a, b + 1) == m0.cell(a, b + 1));
        assert(m.cell(a, b - 1) == TILE_WALL || m.cell(a, b - 1) == m0.cell(a, b - 1));
        assert(m.cell(a + 1, b + 1) == TILE_WALL || m.cell(a + 1, b + 1) == m0.cell(a + 1, b + 1));
        assert(m.cell(a + 1, b - 1) == TILE_WALL || m.cell(a + 1, b - 1) == m0.cell(a + 1, b - 1));
        assert(m.cell(a - 1, b + 1) == TILE_WALL || m.cell(a - 1, b + 1) == m0.cell(a - 1, b + 1));
        assert(m.cell(a - 1, b - 1) == TILE_WALL || m.cell(a - 1, b - 1) == m0.cell(a - 1, b - 1));
    }
}

/// The first `n` sequences of `per`, one after another.
pub open spec fn concat_all<T>(per: Seq<Seq<T>>, n: int) -> Seq<T>
    decreases n,
{
    if n <= 0 {
        seq![]
    } else {
        concat_all(per, n - 1) + per[n - 1]
    }
}

/// Entries past `n` do not change the first `n` sequences.
proof fn lemma_concat_prefix<T>(per: Seq<Seq<T>>, extra: Seq<T>, n: int)
    requires
        0 <= n <= per.len(),
    ensures
        concat_all(per.push(extra), n) == concat_all(per, n),
    decreases n,
{
    if n > 0 {
        lemma_concat_prefix(per, extra, n - 1);
        assert(per.push(extra)[n - 1] == per[n - 1]);
    }
}

/// `rooms` and corridor `cells` are what a BSP layout gives the island
/// `nodes` under `mask`: nothing for an empty island, else those of a split
/// of its bounding rectangle.
pub open spec fn layout_of(
    nodes: Seq<(usize, usize)>,
    mask: Seq<bool>,
    w: int,
    h: int,
    rooms: Seq<Room>,
    cells: Seq<(usize, usize)>,
) -> bool {
    ||| nodes.len() == 0 && rooms.len() == 0 && cells.len() == 0
    ||| exists|bx: (int, int, int, int), regions: Seq<(usize, usize, usize, usize)>, strips: Seq<CorridorStrip>|
        #[trigger] laid_out(nodes, mask, w, h, bx, regions, strips, rooms, cells)
}

/// `rooms` and corridor `cells` are, island after island, the layouts of the
/// islands of `mask`.
pub open spec fn maze_rooms(
    mask: Seq<bool>,
    islands: Seq<Vec<(usize, usize)>>,
    per: Seq<Seq<Room>>,
    pc: Seq<Seq<(usize, usize)>>,
    w: int,
    h: int,
    rooms: Seq<Room>,
    cells: Seq<(usize, usize)>,
) -> bool {
    &&& mask.len() == w * h
    &&& islands_ok(mask, w, h, islands)
    &&& per.len() == islands.len()
    &&& pc.len() == islands.len()
    &&& rooms == concat_all(per, per.len() as int)
    &&& cells == concat_all(pc, pc.len() as int)
    &&& forall|j: int| 0 <= j < islands.len() ==> layout_of(#[trigger] islands[j]@, mask, w, h, per[j], pc[j])
}

/// The tile of a fresh floor with outline `mask`: VOID inside the outer ring
/// where the mask is off, WALL everywhere else.
pub open spec fn base_tile(mask: Seq<bool>, w: int, h: int, a: int, b: int) -> TileType {
    if interior(w, h, a, b) && !mask[cell_index(w, a, b)] {
        TILE_VOID
    } else {
        TILE_WALL
    }
}

/// `m` is the fresh floor of outline `mask` with the cells of `rooms` and the
/// corridor `cells` carved EMPTY, and nothing else.
pub open spec fn laid_map(
    m: &NobiscuitMap,
    mask: Seq<bool>,
    w: int,
    h: int,
    rooms: Seq<Room>,
    cells: Seq<(usize, usize)>,
) -> bool {
    &&& m.wf()
    &&& m.spec_width() == w
    &&& m.spec_height() == h
    &&& forall|a: int, b: int|
        m.in_bounds(a, b) ==> #[trigger] m.cell(a, b) == if in_some_room(rooms, a, b) || listed_cell(cells, a, b) {
            TILE_EMPTY
        } else {
            base_tile(mask, w, h, a, b)
        }
}

/// `m2` is `m1` with the connecting doors opened: only walls on room rings
/// become fusuma doors; a door opens whenever some room faces another room
/// or a corridor; and any two nodes (rooms, then corridor components) of one
/// component of the adjacency graph are joined through fusuma doors.
pub open spec fn rooms_connected(m1: &NobiscuitMap, m2: &NobiscuitMap, rooms: Seq<Room>, cells: Seq<(usize, usize)>) -> bool {
    &&& doored_from(m1, m2)
    &&& forall|a: int, b: int|
        m1.in_bounds(a, b) && #[trigger] m2.cell(a, b) != m1.cell(a, b) ==> on_some_ring(rooms, a, b)
    &&& rooms.len() + cells.len() <= usize::MAX && some_room_faces(m1, rooms, cells) ==> door_opened(m1, m2)
    &&& 0 < rooms.len() && rooms.len() + cells.len() <= usize::MAX ==> exists|roomid: Seq<usize>, comp: Seq<usize>|
        #[trigger] node_labels(m1, rooms, cells, roomid, comp) && forall|u: int, v: int|
            #[trigger] linked(all_edges(m1, roomid, comp, rooms, rooms.len() as int), u, v) ==> joined(
                m2,
                all_edges(m1, roomid, comp, rooms, rooms.len() as int),
                u,
                v,
            )
}

/// Any two nodes (rooms, then corridor components) of one component of the
/// adjacency graph of the layout `m1` are joined in `m` through walls that
/// are passable (a door or a walkable cell).
pub open spec fn rooms_reach(m1: &NobiscuitMap, m: &NobiscuitMap, rooms: Seq<Room>, cells: Seq<(usize, usize)>) -> bool {
    0 < rooms.len() && rooms.len() + cells.len() <= usize::MAX ==> exists|roomid: Seq<usize>, comp: Seq<usize>|
        #[trigger] node_labels(m1, rooms, cells, roomid, comp) && forall|u: int, v: int|
            #[trigger] linked(all_edges(m1, roomid, comp, rooms, rooms.len() as int), u, v) ==> passage_joined(
                m,
                all_edges(m1, roomid, comp, rooms, rooms.len() as int),
                u,
                v,
            )
}

/// `m4` is `m3` with typed doors: only walls change, each into the door kind
/// of a room whose ring holds it; every room with a door spot gets a door on
/// its ring; and the doors are listed room by room as `place_doors` lays them.
pub open spec fn doors_placed(m3: &NobiscuitMap, m4: &NobiscuitMap, rooms: Seq<Room>) -> bool {
    &&& walls_changed(m3, m4, |t: TileType| is_door_tile(t))
    &&& forall|a: int, b: int|
        m3.in_bounds(a, b) && #[trigger] m4.cell(a, b) != m3.cell(a, b) ==> door_of_room(
            rooms,
            rooms.len() as int,
            goal_of(m3),
            m4.cell(a, b),
            a,
            b,
        )
    &&& forall|i: int| 0 <= i < rooms.len() && has_door_spot(m3, #[trigger] rooms[i]) ==> ring_has_door(m4, rooms[i])
    &&& exists|placed: Seq<(int, int, int)>| #[trigger] doors_laid(m3, m4, rooms, goal_of(m3), placed)
}

/// `m5` is `m4` with windows and shoji: exactly the first `window_share` of
/// some ordering of the window candidates change, each into a window or a
/// shoji.
pub open spec fn windows_placed(m4: &NobiscuitMap, m5: &NobiscuitMap) -> bool {
    &&& walls_changed(m4, m5, |t: TileType| t == TILE_WINDOW || t == TILE_SHOJI)
    &&& forall|a: int, b: int|
        m4.in_bounds(a, b) && #[trigger] m5.cell(a, b) != m4.cell(a, b) ==> window_candidate(m4, a, b)
    &&& exists|p: Seq<(usize, usize)>|
        #[trigger] p.to_multiset() == window_candidates(m4).to_multiset() && forall|a: int, b: int|
            m4.in_bounds(a, b) ==> ((#[trigger] m5.cell(a, b) != m4.cell(a, b)) <==> p.take(
                window_share(window_candidates(m4).len() as int),
            ).contains((a as usize, b as usize)))
}

/// `m6` is `m5` with every VOID cell that touches a non-solid cell walled.
pub open spec fn sealed_from(m5: &NobiscuitMap, m6: &NobiscuitMap) -> bool {
    &&& m6.wf()
    &&& m6.spec_width() == m5.spec_width()
    &&& m6.spec_height() == m5.spec_height()
    &&& forall|a: int, b: int|
        m5.in_bounds(a, b) ==> #[trigger] m6.cell(a, b) == if void_to_seal(m5, a, b) {
            TILE_WALL
        } else {
            m5.cell(a, b)
        }
}

/// `m` is `m6` with one EMPTY cell turned into the goal.
pub open spec fn goal_placed(m6: &NobiscuitMap, m: &NobiscuitMap) -> bool {
    &&& m.wf()
    &&& m.spec_width() == m6.spec_width()
    &&& m.spec_height() == m6.spec_height()
    &&& exists|gx: int, gy: int|
        #[trigger] m6.in_bounds(gx, gy) && m6.cell(gx, gy) == TILE_EMPTY && m.cell(gx, gy) == TILE_GOAL && forall|a: int, b: int|
            m6.in_bounds(a, b) && (a != gx || b != gy) ==> #[trigger] m.cell(a, b) == m6.cell(a, b)
}

/// Index of the largest of the first `n` islands (the last among equals).
pub open spec fn largest_island(islands: Seq<Vec<(usize, usize)>>, n: int) -> int
    decreases n,
{
    if n <= 1 {
        0
    } else {
        let b = largest_island(islands, n - 1);
        if islands[n - 1]@.len() >= islands[b]@.len() {
            n - 1
        } else {
            b
        }
    }
}

/// `(gx, gy)` is where the goal goes on `m`: the last node of `island` that
/// is EMPTY, or, when no node of it is, the last interior EMPTY cell in
/// row-major order.
pub open spec fn goal_spot(m: &NobiscuitMap, island: Seq<(usize, usize)>, gx: int, gy: int) -> bool {
    ||| exists|k: int|
        #![trigger island[k]]
        0 <= k < island.len() && island[k].0 == gx && island[k].1 == gy && m.cell(gx, gy) == TILE_EMPTY && forall|kk: int|
            k < kk < island.len() ==> m.cell(#[trigger] island[kk].0 as int, island[kk].1 as int) != TILE_EMPTY
    ||| {
        &&& forall|k: int| 0 <= k < island.len() ==> m.cell(#[trigger] island[k].0 as int, island[k].1 as int) != TILE_EMPTY
        &&& interior(m.spec_width() as int, m.spec_height() as int, gx, gy)
        &&& m.cell(gx, gy) == TILE_EMPTY
        &&& forall|a: int, b: int|
            interior(m.spec_width() as int, m.spec_height() as int, a, b) && (b > gy || (b == gy && a > gx))
                ==> #[trigger] m.cell(a, b) != TILE_EMPTY
    }
}

/// The goal of `m` stands where `goal_spot` puts it on `m6`, for the
/// largest of `islands`.
pub open spec fn goal_at_spot(m6: &NobiscuitMap, m: &NobiscuitMap, islands: Seq<Vec<(usize, usize)>>) -> bool {
    forall|a: int, b: int|
        m6.in_bounds(a, b) && #[trigger] m.cell(a, b) == TILE_GOAL ==> goal_spot(
            m6,
            islands[largest_island(islands, islands.len() as int)]@,
            a,
            b,
        )
}

/// The stages of one generated floor: islands of `mask` laid out into
/// `rooms` and corridors (`m1`), rooms connected by fusuma doors (`m2`), the
/// spawn corner repaired (`m3`), typed doors (`m4`), windows and shoji
/// (`m5`), VOID sealed (`m6`), and the goal placed (`m`).
pub open spec fn maze_built(
    mask: Seq<bool>,
    islands: Seq<Vec<(usize, usize)>>,
    per: Seq<Seq<Room>>,
    pc: Seq<Seq<(usize, usize)>>,
    w: int,
    h: int,
    rooms: Seq<Room>,
    m1: NobiscuitMap,
    m2: NobiscuitMap,
    m3: NobiscuitMap,
    m4: NobiscuitMap,
    m5: NobiscuitMap,
    m6: NobiscuitMap,
    m: &NobiscuitMap,
) -> bool {
    &&& maze_rooms(mask, islands, per, pc, w, h, rooms, concat_all(pc, pc.len() as int))
    &&& laid_map(&m1, mask, w, h, rooms, concat_all(pc, pc.len() as int))
    &&& rooms_connected(&m1, &m2, rooms, concat_all(pc, pc.len() as int))
    &&& spawn_repaired(&m2, &m3)
    &&& doors_placed(&m3, &m4, rooms)
    &&& windows_placed(&m4, &m5)
    &&& sealed_from(&m5, &m6)
    &&& goal_placed(&m6, m)
    &&& goal_at_spot(&m6, m, islands)
    &&& rooms_reach(&m1, m, rooms, concat_all(pc, pc.len() as int))
}

/// `m` with `rooms` is a floor that `generate_maze` builds for a `w` x `h`
/// map.
pub open spec fn maze_made(m: &NobiscuitMap, w: int, h: int, rooms: Seq<Room>) -> bool {
    exists|
        mask: Seq<bool>,
        islands: Seq<Vec<(usize, usize)>>,
        per: Seq<Seq<Room>>,
        pc: Seq<Seq<(usize, usize)>>,
        m1: NobiscuitMap,
        m2: NobiscuitMap,
        m3: NobiscuitMap,
        m4: NobiscuitMap,
        m5: NobiscuitMap,
        m6: NobiscuitMap,
    | #[trigger] maze_built(mask, islands, per, pc, w, h, rooms, m1, m2, m3, m4, m5, m6, m)
}

/// Carving the rooms `ir` and corridor cells `ic` into a laid-out map, and
/// nothing else, gives the layout of all of them.
proof fn lemma_laid_step(
    before: &NobiscuitMap,
    m: &NobiscuitMap,
    mask: Seq<bool>,
    w: int,
    h: int,
    r0: Seq<Room>,
    ir: Seq<Room>,
    c0: Seq<(usize, usize)>,
    ic: Seq<(usize, usize)>,
)
    requires
        laid_map(before, mask, w, h, r0, c0),
        m.wf(),
        m.spec_width() == w,
        m.spec_height() == h,
        forall|a: int, b: int|
            before.in_bounds(a, b) && #[trigger] m.cell(a, b) != before.cell(a, b) ==> in_some_room(ir, a, b) || listed_cell(ic, a, b),
        forall|i: int, a: int, b: int|
            #![trigger ir[i], m.cell(a, b)]
            0 <= i < ir.len() && in_room(ir[i], a, b) ==> m.cell(a, b) == TILE_EMPTY,
        forall|k: int| 0 <= k < ic.len() ==> m.cell(#[trigger] ic[k].0 as int, ic[k].1 as int) == TILE_EMPTY,
    ensures
        laid_map(m, mask, w, h, r0 + ir, c0 + ic),
{
    assert forall|a: int, b: int| m.in_bounds(a, b) implies #[trigger] m.cell(a, b) == if in_some_room(r0 + ir, a, b) || listed_cell(c0 + ic, a, b) {
        TILE_EMPTY
    } else {
        base_tile(mask, w, h, a, b)
    } by {
        if in_some_room(ir, a, b) {
            let i = choose|i: int| 0 <= i < ir.len() && #[trigger] in_room(ir[i], a, b);
            assert((r0 + ir)[r0.len() + i] == ir[i]);
            assert(in_room((r0 + ir)[r0.len() + i], a, b));
            assert(m.cell(a, b) == TILE_EMPTY);
        } else if listed_cell(ic, a, b) {
            let k = choose|k: int| 0 <= k < ic.len() && #[trigger] ic[k].0 == a && ic[k].1 == b;
            assert((c0 + ic)[c0.len() + k] == ic[k]);
            assert(m.cell(ic[k].0 as int, ic[k].1 as int) == TILE_EMPTY);
        } else {
            assert(m.cell(a, b) == before.cell(a, b));
            assert(in_some_room(r0 + ir, a, b) == in_some_room(r0, a, b)) by {
                if in_some_room(r0 + ir, a, b) {
                    let i = choose|i: int| 0 <= i < (r0 + ir).len() && #[trigger] in_room((r0 + ir)[i], a, b);
                    if i >= r0.len() {
                        assert(in_room(ir[i - r0.len()], a, b));
                    } else {
                        assert(in_room(r0[i], a, b));
                    }
                }
                if in_some_room(r0, a, b) {
                    let i = choose|i: int| 0 <= i < r0.len() && #[trigger] in_room(r0[i], a, b);
                    assert((r0 + ir)[i] == r0[i]);
                    assert(in_room((r0 + ir)[i], a, b));
                }
            }
            assert(listed_cell(c0 + ic, a, b) == listed_cell(c0, a, b)) by {
                if listed_cell(c0 + ic, a, b) {
                    let k = choose|k: int| 0 <= k < (c0 + ic).len() && #[trigger] (c0 + ic)[k].0 == a && (c0 + ic)[k].1 == b;
                    if k >= c0.len() {
                        assert(ic[k - c0.len()] == (c0 + ic)[k]);
                    } else {
                        assert(c0[k] == (c0 + ic)[k]);
                    }
                }
                if listed_cell(c0, a, b) {
                    let k = choose|k: int| 0 <= k < c0.len() && #[trigger] c0[k].0 == a && c0[k].1 == b;
                    assert((c0 + ic)[k] == c0[k]);
                }
            }
        }
    }
}

/// The later stages keep every connecting door passable, so the nodes that
/// the connecting doors join stay joined in the finished floor.
proof fn lemma_reach_kept(
    m1: &NobiscuitMap,
    m2: &NobiscuitMap,
    m3: &NobiscuitMap,
    m4: &NobiscuitMap,
    m5: &NobiscuitMap,
    m6: &NobiscuitMap,
    map: &NobiscuitMap,
    rooms: Seq<Room>,
    cells: Seq<(usize, usize)>,
)
    requires
        forall|i: int| 0 <= i < rooms.len() ==> room_inside(#[trigger] rooms[i], m1.spec_width() as int, m1.spec_height() as int),
        rooms_connected(m1, m2, rooms, cells),
        spawn_repaired(m2, m3),
        doors_placed(m3, m4, rooms),
        windows_placed(m4, m5),
        sealed_from(m5, m6),
        goal_placed(m6, map),
    ensures
        rooms_reach(m1, map, rooms, cells),
{
    let (gx, gy) = choose|gx: int, gy: int|
        #[trigger] m6.in_bounds(gx, gy) && m6.cell(gx, gy) == TILE_EMPTY && map.cell(gx, gy) == TILE_GOAL && forall|a: int, b: int|
            m6.in_bounds(a, b) && (a != gx || b != gy) ==> #[trigger] map.cell(a, b) == m6.cell(a, b);
    assert forall|a: int, b: int| m2.in_bounds(a, b) && #[trigger] m2.cell(a, b) == TILE_DOOR_FUSUMA implies is_passable_tile(map.cell(a, b)) by {
        assert(m3.cell(a, b) == TILE_DOOR_FUSUMA || m3.cell(a, b) == TILE_EMPTY);
        assert(m4.cell(a, b) == m3.cell(a, b));
        assert(m5.cell(a, b) == m4.cell(a, b));
        assert(m6.cell(a, b) == m5.cell(a, b));
        if a != gx || b != gy {
            assert(map.cell(a, b) == m6.cell(a, b));
        }
    }
    if 0 < rooms.len() && rooms.len() + cells.len() <= usize::MAX {
        let (roomid, comp) = choose|roomid: Seq<usize>, comp: Seq<usize>|
            #[trigger] node_labels(m1, rooms, cells, roomid, comp) && forall|u: int, v: int|
                #[trigger] linked(all_edges(m1, roomid, comp, rooms, rooms.len() as int), u, v) ==> joined(
                    m2,
                    all_edges(m1, roomid, comp, rooms, rooms.len() as int),
                    u,
                    v,
                );
        let edges = all_edges(m1, roomid, comp, rooms, rooms.len() as int);
        lemma_all_edges_in_map(m1, roomid, comp, rooms, rooms.len() as int);
        assert forall|u: int, v: int| #[trigger] linked(edges, u, v) implies passage_joined(map, edges, u, v) by {
            lemma_joined_passage(m2, map, edges, u, v);
        }
        assert(node_labels(m1, rooms, cells, roomid, comp));
    }
}

/// No cell holds the goal.
pub open spec fn no_goal(m: &NobiscuitMap) -> bool {
    forall|a: int, b: int| m.in_bounds(a, b) ==> #[trigger] m.cell(a, b) != TILE_GOAL
}

/// Between `m0` and `m`, every changed cell is interior or became unwalkable,
/// no goal appeared, and walkable cells stayed.
pub open spec fn tame_change(m0: &NobiscuitMap, m: &NobiscuitMap) -> bool {
    &&& m.wf()
    &&& m.spec_width() == m0.spec_width()
    &&& m.spec_height() == m0.spec_height()
    &&& forall|a: int, b: int|
        m0.in_bounds(a, b) ==> (#[trigger] m.cell(a, b) == m0.cell(a, b) || ((interior(
            m0.spec_width() as int,
            m0.spec_height() as int,
            a,
            b,
        ) || !is_walkable_tile(m.cell(a, b))) && m.cell(a, b) != TILE_GOAL && !is_stairs_tile(m.cell(a, b)) && !is_walkable_tile(
            m0.cell(a, b),
        ) || (m0.cell(a, b) == TILE_VOID && m.cell(a, b) == TILE_EMPTY && interior(
            m0.spec_width() as int,
            m0.spec_height() as int,
            a,
            b,
        )) || (m0.cell(a, b) != TILE_GOAL && m.cell(a, b) == TILE_EMPTY && interior(
            m0.spec_width() as int,
            m0.spec_height() as int,
            a,
            b,
        ))))
}

/// Exactly one cell holds the goal.
pub open spec fn one_goal(m: &NobiscuitMap) -> bool {
    exists|gx: int, gy: int|
        #[trigger] m.in_bounds(gx, gy) && m.cell(gx, gy) == TILE_GOAL && forall|a: int, b: int|
            m.in_bounds(a, b) && #[trigger] m.cell(a, b) == TILE_GOAL ==> a == gx && b == gy
}

/// A tame change keeps the outer ring unwalkable and keeps goals away.
proof fn lemma_tame(m0: &NobiscuitMap, m: &NobiscuitMap)
    requires
        tame_change(m0, m),
    ensures
        border_unwalkable(m0) ==> border_unwalkable(m),
        no_goal(m0) ==> no_goal(m),
        no_stairs(m0) ==> no_stairs(m),
{
}

/// Generate a floor layout with an irregular outline: a random mask, a BSP
/// layout of rooms and corridors on each island, doors, windows and shoji,
/// sealed VOID edges, and exactly one goal: on the last EMPTY node of the
/// largest island, or else on the last EMPTY cell in row-major order.
///
/// Both `width` and `height` must be odd (the node grid steps by 2).
///
/// The returned rooms are, island after island, the rooms of each island's
/// BSP layout; their cells end EMPTY (or the goal). VOID stays off the outer
/// ring, and no VOID cell touches a non-solid cell. The floor is what the
/// stages of `maze_built` make of the layout: in particular any two rooms or
/// corridor components that the layout's adjacency graph links are joined in
/// the finished floor through doors and walkable cells, every room with a
/// door spot has a door on its ring, and a share of the walls facing an
/// EMPTY cell became windows or shoji.
#[verifier::rlimit(60)]
pub fn generate_maze(width: usize, height: usize, rng: &mut StdRng) -> (res: (NobiscuitMap, Vec<Room>))
    requires
        width % 2 == 1,
        height % 2 == 1,
        3 <= width <= i32::MAX,
        3 <= height <= i32::MAX,
        width * height <= usize::MAX,
    ensures
        res.0.wf(),
        res.0.spec_width() == width,
        res.0.spec_height() == height,
        border_unwalkable(&res.0),
        goals_interior(&res.0),
        res.0.cell(1, 1) == TILE_EMPTY || res.0.cell(1, 1) == TILE_GOAL,
        no_stairs(&res.0),
        one_goal(&res.0),
        forall|i: int| 0 <= i < res.1@.len() ==> room_inside(#[trigger] res.1@[i], width as int, height as int),
        forall|i: int, a: int, b: int|
            #![trigger res.1@[i], res.0.cell(a, b)]
            0 <= i < res.1@.len() && in_room(res.1@[i], a, b) ==> res.0.cell(a, b) == TILE_EMPTY || res.0.cell(a, b) == TILE_GOAL,
        void_inside(&res.0),
        void_sealed(&res.0),
        maze_made(&res.0, width as int, height as int, res.1@),
{
    let ghost w = width as int;
    let ghost h = height as int;
    let mut map = NobiscuitMap::new(width, height);
    // This floor's outline.
    let mask = generate_mask(width, height, rng);
    // Every interior cell outside the mask becomes VOID.
    let mut y: usize = 1;
    while y < height - 1
        invariant
            1 <= y <= height - 1,
            w == width,
            h == height,
            map.wf(),
            map.spec_width() == width,
            map.spec_height() == height,
            3 <= width <= i32::MAX,
            3 <= height <= i32::MAX,
            width * height <= usize::MAX,
            mask@.len() == width * height,
            forall|a: int, b: int|
                map.in_bounds(a, b) ==> #[trigger] map.cell(a, b) == if b < y { base_tile(mask@, w, h, a, b) } else { TILE_WALL },
        decreases height - 1 - y,
    {
        let mut x: usize = 1;
        while x < width - 1
            invariant
                1 <= x <= width - 1,
                1 <= y < height - 1,
                w == width,
                h == height,
                map.wf(),
                map.spec_width() == width,
                map.spec_height() == height,
                3 <= width <= i32::MAX,
                3 <= height <= i32::MAX,
                width * height <= usize::MAX,
                mask@.len() == width * height,
                forall|a: int, b: int|
                    map.in_bounds(a, b) ==> #[trigger] map.cell(a, b) == if b < y || (b == y && a < x) { base_tile(mask@, w, h, a, b) } else { TILE_WALL },
            decreases width - 1 - x,
        {
            proof {
                lemma_index_in_bounds(x as int, y as int, w, h);
            }
            if !mask[y * width + x] {
                map.set(x, y, TILE_VOID);
            }
            x = x + 1;
        }
        assert forall|a: int, b: int| map.in_bounds(a, b) implies #[trigger] map.cell(a, b) == if b < y + 1 { base_tile(mask@, w, h, a, b) } else { TILE_WALL } by {
            if b == y && a >= width - 1 {
                assert(!interior(w, h, a, b));
            }
        }
        y = y + 1;
    }
    assert forall|a: int, b: int| map.in_bounds(a, b) implies #[trigger] map.cell(a, b) == base_tile(mask@, w, h, a, b) by {
        if b >= y {
            assert(!interior(w, h, a, b));
        }
    }
    assert(border_unwalkable(&map));
    assert(no_goal(&map));
    assert(no_stairs(&map));
    assert(void_inside(&map));
    // Islands (connected components of nodes).
    let islands = find_islands(&mask, width, height);
    assert(masked_node(mask@, w, h, 1, 1));
    assert(islands@.len() > 0) by {
        assert(listed(islands@, (1usize, 1usize)));
    }
    // BSP layout on each island: rooms and corridor strips.
    let mut rooms: Vec<Room> = Vec::new();
    let mut corridor_cells: Vec<(usize, usize)> = Vec::new();
    let ghost mut per: Seq<Seq<Room>> = Seq::empty();
    let ghost mut pc: Seq<Seq<(usize, usize)>> = Seq::empty();
    assert(laid_map(&map, mask@, w, h, rooms@, corridor_cells@));
    let mut i: usize = 0;
    while i < islands.len()
        invariant
            0 <= i <= islands@.len(),
            w == width,
            h == height,
            map.wf(),
            map.spec_width() == width,
            map.spec_height() == height,
            3 <= width <= i32::MAX,
            3 <= height <= i32::MAX,
            width * height <= usize::MAX,
            mask@.len() == width * height,
            border_unwalkable(&map),
            no_goal(&map),
            no_stairs(&map),
            forall|j: int, k: int|
                0 <= j < islands@.len() && 0 <= k < islands@[j]@.len() ==> is_node(w, h, #[trigger] islands@[j]@[k].0 as int, islands@[j]@[k].1 as int),
            forall|j: int| 0 <= j < rooms@.len() ==> room_inside(#[trigger] rooms@[j], w, h),
            forall|k: int| 0 <= k < corridor_cells@.len() ==> interior(w, h, #[trigger] corridor_cells@[k].0 as int, corridor_cells@[k].1 as int),
            rooms_empty(&map, rooms@),
            void_inside(&map),
            per.len() == i,
            pc.len() == i,
            rooms@ == concat_all(per, i as int),
            corridor_cells@ == concat_all(pc, i as int),
            forall|j: int| 0 <= j < i ==> layout_of(#[trigger] islands@[j]@, mask@, w, h, per[j], pc[j]),
            laid_map(&map, mask@, w, h, rooms@, corridor_cells@),
        decreases islands@.len() - i,
    {
        let ghost before = map;
        assert forall|k: int| 0 <= k < islands@[i as int]@.len() implies is_node(w, h, #[trigger] islands@[i as int]@[k].0 as int, islands@[i as int]@[k].1 as int) by {}
        let (mut island_rooms, mut island_corridors) = bsp_layout(&mut map, &islands[i], &mask, width, height, rng);
        proof {
            assert(tame_change(&before, &map));
            lemma_tame(&before, &map);
            assert(keeps_empty(&before, &map));
            lemma_keeps(&before, &map, rooms@);
        }
        let ghost r0 = rooms@;
        let ghost ir = island_rooms@;
        let ghost c0 = corridor_cells@;
        let ghost ic = island_corridors@;
        rooms.append(&mut island_rooms);
        corridor_cells.append(&mut island_corridors);
        proof {
            assert(layout_of(islands@[i as int]@, mask@, w, h, ir, ic));
            let per0 = per;
            let pc0 = pc;
            lemma_concat_prefix(per0, ir, i as int);
            lemma_concat_prefix(pc0, ic, i as int);
            per = per.push(ir);
            pc = pc.push(ic);
            assert(concat_all(per, i + 1) == concat_all(per, i as int) + per[i as int]);
            assert(concat_all(pc, i + 1) == concat_all(pc, i as int) + pc[i as int]);
            assert(rooms@ =~= r0 + ir);
            assert(corridor_cells@ =~= c0 + ic);
            lemma_laid_step(&before, &map, mask@, w, h, r0, ir, c0, ic);
            assert forall|j: int| 0 <= j < i + 1 implies layout_of(#[trigger] islands@[j]@, mask@, w, h, per[j], pc[j]) by {
                if j < i {
                    assert(per[j] == per0[j]);
                    assert(pc[j] == pc0[j]);
                }
            }
            assert forall|j: int| 0 <= j < rooms@.len() implies room_inside(#[trigger] rooms@[j], w, h) by {
                if j < r0.len() {
                    assert(rooms@[j] == r0[j]);
                } else {
                    assert(rooms@[j] == ir[j - r0.len()]);
                }
            }
            assert forall|j: int, a: int, b: int|
                #![trigger rooms@[j], map.cell(a, b)]
                0 <= j < rooms@.len() && in_room(rooms@[j], a, b) implies map.cell(a, b) == TILE_EMPTY by {
                if j < r0.len() {
                    assert(rooms@[j] == r0[j]);
                } else {
                    assert(rooms@[j] == ir[j - r0.len()]);
                }
            }
            assert forall|k: int| 0 <= k < corridor_cells@.len() implies interior(w, h, #[trigger] corridor_cells@[k].0 as int, corridor_cells@[k].1 as int) by {
                if k < c0.len() {
                    assert(corridor_cells@[k] == c0[k]);
                } else {
                    assert(corridor_cells@[k] == ic[k - c0.len()]);
                }
            }
        }
        i = i + 1;
    }
    // Open doors so every room and corridor is reachable (spanning tree + loops).
    let ghost m1 = map;
    connect_rooms(&mut map, &rooms, &corridor_cells, width, height, rng);
    assert(rooms_connected(&m1, &map, rooms@, corridor_cells@));
    proof {
        assert(tame_change(&m1, &map));
        lemma_tame(&m1, &map);
        assert(keeps_empty(&m1, &map));
        lemma_keeps(&m1, &map, rooms@);
    }
    // The spawn corner is walkable and wired into the network.
    let ghost m2 = map;
    ensure_spawn_walkable(&mut map, width, height);
    proof {
        assert(tame_change(&m2, &map));
        lemma_tame(&m2, &map);
        assert(keeps_empty(&m2, &map));
        lemma_keeps(&m2, &map, rooms@);
    }
    // Typed doors, then windows and shoji on walls facing a corridor.
    let ghost m3 = map;
    place_doors(&mut map, &rooms, width, height, rng);
    assert(doors_placed(&m3, &map, rooms@));
    proof {
        assert(tame_change(&m3, &map));
        lemma_tame(&m3, &map);
        assert(keeps_empty(&m3, &map));
        lemma_keeps(&m3, &map, rooms@);
    }
    let ghost m4 = map;
    place_windows_and_shoji(&mut map, width, height, rng);
    assert(windows_placed(&m4, &map));
    proof {
        assert(tame_change(&m4, &map));
        lemma_tame(&m4, &map);
        assert(keeps_empty(&m4, &map));
        lemma_keeps(&m4, &map, rooms@);
    }
    // VOID cells next to walkable cells become walls, so rays from playable
    // areas never reach VOID.
    let ghost m5 = map;
    seal_void_boundaries(&mut map, width, height);
    assert(sealed_from(&m5, &map));
    proof {
        assert(tame_change(&m5, &map));
        lemma_tame(&m5, &map);
        assert(keeps_empty(&m5, &map));
        lemma_keeps(&m5, &map, rooms@);
    }
    assert(map.cell(1, 1) == TILE_EMPTY);
    // The goal goes on the largest island (the last one among equals).
    proof {
        lemma_sealed(&m5, &map);
    }
    let ghost m6 = map;
    assert(no_goal(&m6));
    let ghost mut g: (int, int) = (0, 0);
    let mut placed = false;
    let ghost mut isl: Seq<(usize, usize)> = Seq::empty();
    if islands.len() > 0 {
        let mut best: usize = 0;
        let mut j: usize = 1;
        while j < islands.len()
            invariant
                1 <= j <= islands@.len(),
                best < islands@.len(),
                best == largest_island(islands@, j as int),
            decreases islands@.len() - j,
        {
            if islands[j].len() >= islands[best].len() {
                best = j;
            }
            j = j + 1;
        }
        let island = &islands[best];
        proof {
            isl = island@;
        }
        assert(isl == islands@[largest_island(islands@, islands@.len() as int)]@);
        let ghost mut gk: int = 0;
        let mut k = island.len();
        while k > 0 && !placed
            invariant
                0 <= k <= island@.len(),
                island == &islands@[best as int],
                isl == island@,
                !placed ==> forall|kk: int| k <= kk < isl.len() ==> m6.cell(#[trigger] isl[kk].0 as int, isl[kk].1 as int) != TILE_EMPTY,
                placed ==> 0 <= gk < isl.len() && isl[gk].0 == g.0 && isl[gk].1 == g.1 && m6.cell(g.0, g.1) == TILE_EMPTY && forall|kk: int|
                    gk < kk < isl.len() ==> m6.cell(#[trigger] isl[kk].0 as int, isl[kk].1 as int) != TILE_EMPTY,
                best < islands@.len(),
                forall|jj: int, kk: int|
                    0 <= jj < islands@.len() && 0 <= kk < islands@[jj]@.len() ==> is_node(w, h, #[trigger] islands@[jj]@[kk].0 as int, islands@[jj]@[kk].1 as int),
                map.wf(),
                map.spec_width() == width,
                map.spec_height() == height,
                w == width,
                h == height,
                3 <= width <= i32::MAX,
                3 <= height <= i32::MAX,
                forall|a: int, b: int|
                    map.in_bounds(a, b) ==> (#[trigger] map.cell(a, b) == m6.cell(a, b) || (interior(w, h, a, b) && m6.cell(a, b) == TILE_EMPTY && map.cell(a, b) == TILE_GOAL)),
                placed ==> interior(w, h, g.0, g.1) && map.cell(g.0, g.1) == TILE_GOAL && forall|a: int, b: int| map.in_bounds(a, b) && (a != g.0 || b != g.1) ==> #[trigger] map.cell(a, b) == m6.cell(a, b),
                !placed ==> forall|a: int, b: int| map.in_bounds(a, b) ==> #[trigger] map.cell(a, b) == m6.cell(a, b),
            decreases k,
        {
            k = k - 1;
            let (x, y) = island[k];
            assert(is_node(w, h, islands@[best as int]@[k as int].0 as int, islands@[best as int]@[k as int].1 as int));
            if map.get(x as i32, y as i32) == Some(TILE_EMPTY) {
                map.set(x, y, TILE_GOAL);
                placed = true;
                proof {
                    g = (x as int, y as int);
                    gk = k as int;
                }
            }
        }
        assert(placed ==> goal_spot(&m6, isl, g.0, g.1)) by {
            if placed {
                assert(isl[gk].0 == g.0 && isl[gk].1 == g.1);
            }
        }
        if !placed {
            // Fallback: the last EMPTY cell in scan order.
            let mut y = height - 1;
            while y > 1 && !placed
                invariant
                    1 <= y <= height - 1,
                    map.wf(),
                    map.spec_width() == width,
                    map.spec_height() == height,
                    w == width,
                    h == height,
                    3 <= width <= i32::MAX,
                    3 <= height <= i32::MAX,
                    forall|a: int, b: int|
                        map.in_bounds(a, b) ==> (#[trigger] map.cell(a, b) == m6.cell(a, b) || (interior(w, h, a, b) && m6.cell(a, b) == TILE_EMPTY && map.cell(a, b) == TILE_GOAL)),
                    placed ==> interior(w, h, g.0, g.1) && map.cell(g.0, g.1) == TILE_GOAL && forall|a: int, b: int| map.in_bounds(a, b) && (a != g.0 || b != g.1) ==> #[trigger] map.cell(a, b) == m6.cell(a, b),
                    !placed ==> forall|a: int, b: int| map.in_bounds(a, b) ==> #[trigger] map.cell(a, b) == m6.cell(a, b),
                    !placed ==> forall|a: int, b: int| 1 <= a < w - 1 && y <= b < h - 1 ==> #[trigger] m6.cell(a, b) != TILE_EMPTY,
                    forall|kk: int| 0 <= kk < isl.len() ==> m6.cell(#[trigger] isl[kk].0 as int, isl[kk].1 as int) != TILE_EMPTY,
                    m6.spec_width() == width,
                    m6.spec_height() == height,
                    placed ==> goal_spot(&m6, isl, g.0, g.1),
                decreases y,
            {
                y = y - 1;
                let mut x = width - 1;
                while x > 1 && !placed
                    invariant
                        1 <= x <= width - 1,
                        1 <= y < height - 1,
                        map.wf(),
                        map.spec_width() == width,
                        map.spec_height() == height,
                        w == width,
                        h == height,
                        3 <= width <= i32::MAX,
                        3 <= height <= i32::MAX,
                        forall|a: int, b: int|
                            map.in_bounds(a, b) ==> (#[trigger] map.cell(a, b) == m6.cell(a, b) || (interior(w, h, a, b) && m6.cell(a, b) == TILE_EMPTY && map.cell(a, b) == TILE_GOAL)),
                        placed ==> interior(w, h, g.0, g.1) && map.cell(g.0, g.1) == TILE_GOAL && forall|a: int, b: int| map.in_bounds(a, b) && (a != g.0 || b != g.1) ==> #[trigger] map.cell(a, b) == m6.cell(a, b),
                        !placed ==> forall|a: int, b: int| map.in_bounds(a, b) ==> #[trigger] map.cell(a, b) == m6.cell(a, b),
                        !placed ==> forall|a: int, b: int| 1 <= a < w - 1 && ((y < b < h - 1) || (b == y && x <= a)) ==> #[trigger] m6.cell(a, b) != TILE_EMPTY,
                        forall|kk: int| 0 <= kk < isl.len() ==> m6.cell(#[trigger] isl[kk].0 as int, isl[kk].1 as int) != TILE_EMPTY,
                        m6.spec_width() == width,
                        m6.spec_height() == height,
                        placed ==> goal_spot(&m6, isl, g.0, g.1),
                    decreases x,
                {
                    x = x - 1;
                    if map.get(x as i32, y as i32) == Some(TILE_EMPTY) {
                        map.set(x, y, TILE_GOAL);
                        placed = true;
                        proof {
                            g = (x as int, y as int);
                            assert forall|a: int, b: int|
                                interior(m6.spec_width() as int, m6.spec_height() as int, a, b) && (b > g.1 || (b == g.1 && a > g.0))
                                    implies #[trigger] m6.cell(a, b) != TILE_EMPTY by {}
                        }
                    }
                }
            }
        }
    }
    proof {
        assert(placed) by {
            if !placed {
                assert(m6.cell(1, 1) != TILE_EMPTY);
            }
        }
        assert(map.in_bounds(g.0, g.1));
        assert(one_goal(&map));
        assert(m6.cell(g.0, g.1) == TILE_EMPTY);
        assert(m6.in_bounds(g.0, g.1));
        assert(goal_placed(&m6, &map));
        assert(goal_spot(&m6, isl, g.0, g.1));
        assert forall|a: int, b: int| m6.in_bounds(a, b) && #[trigger] map.cell(a, b) == TILE_GOAL implies goal_spot(
            &m6,
            islands@[largest_island(islands@, islands@.len() as int)]@,
            a,
            b,
        ) by {
            if a != g.0 || b != g.1 {
                assert(map.cell(a, b) == m6.cell(a, b));
            }
        }
        assert(goal_at_spot(&m6, &map, islands@));
        lemma_reach_kept(&m1, &m2, &m3, &m4, &m5, &m6, &map, rooms@, corridor_cells@);
        assert(rooms_reach(&m1, &map, rooms@, corridor_cells@));
        assert forall|a: int, b: int| map.in_bounds(a, b) && !interior(w, h, a, b) implies !is_walkable_tile(#[trigger] map.cell(a, b)) by {
            assert(map.cell(a, b) == m6.cell(a, b));
        }
        assert forall|a: int, b: int| map.in_bounds(a, b) && #[trigger] map.cell(a, b) == TILE_GOAL implies interior(w, h, a, b) by {
            if map.cell(a, b) == m6.cell(a, b) {
                assert(m6.cell(a, b) != TILE_GOAL);
            }
        }
        assert forall|a: int, b: int| map.in_bounds(a, b) implies !is_stairs_tile(#[trigger] map.cell(a, b)) by {
            assert(!is_stairs_tile(m6.cell(a, b)));
        }
        assert forall|j: int, a: int, b: int|
            #![trigger rooms@[j], map.cell(a, b)]
            0 <= j < rooms@.len() && in_room(rooms@[j], a, b) implies map.cell(a, b) == TILE_EMPTY || map.cell(a, b) == TILE_GOAL by {
            assert(room_inside(rooms@[j], w, h));
            assert(m6.cell(a, b) == TILE_EMPTY);
        }
        assert forall|a: int, b: int| map.in_bounds(a, b) && #[trigger] map.cell(a, b) == TILE_VOID implies interior(w, h, a, b) by {
            assert(m6.cell(a, b) == TILE_VOID);
        }
        assert forall|a: int, b: int| interior(w, h, a, b) && #[trigger] map.cell(a, b) == TILE_VOID implies !open_neighbour(&map, a, b) by {
            assert(m6.cell(a, b) == TILE_VOID);
            assert(!open_neighbour(&m6, a, b));
            assert(map.spec_is_solid(a + 1, b) == m6.spec_is_solid(a + 1, b));
            assert(map.spec_is_solid(a - 1, b) == m6.spec_is_solid(a - 1, b));
            assert(map.spec_is_solid(a, b + 1) == m6.spec_is_solid(a, b + 1));
            assert(map.spec_is_solid(a, b - 1) == m6.spec_is_solid(a, b - 1));
            assert(map.spec_is_solid(a + 1, b + 1) == m6.spec_is_solid(a + 1, b + 1));
            assert(map.spec_is_solid(a + 1, b - 1) == m6.spec_is_solid(a + 1, b - 1));
            assert(map.spec_is_solid(a - 1, b + 1) == m6.spec_is_solid(a - 1, b + 1));
            assert(map.spec_is_solid(a - 1, b - 1) == m6.spec_is_solid(a - 1, b - 1));
        }
    }
    let res = (map, rooms);
    assert(maze_built(mask@, islands@, per, pc, w, h, res.1@, m1, m2, m3, m4, m5, m6, &res.0));
    res
}

/// Every walkable but unreachable cell of a non-top floor layout is one that
/// the last-resort repair walls off.
proof fn lemma_stragglers_walled(m: &NobiscuitMap)
    requires
        m.wf(),
        border_unwalkable(m),
        no_goal(m),
    ensures
        forall|a: int, b: int|
            walkable_at(m, a, b) && !reachable(m, a, b) ==> #[trigger] walled_off(m, a, b),
{
    assert forall|a: int, b: int| walkable_at(m, a, b) && !reachable(m, a, b) implies #[trigger] walled_off(m, a, b) by {
        m.lemma_bounds(a, b);
        if m.cell(a, b) == TILE_STAIRS_UP || m.cell(a, b) == TILE_STAIRS_DOWN {
            assert(is_seed(m, a, b));
            lemma_single_walk(m, a, b);
        }
    }
}

/// What `generate_floor` promises of floor `floor_index` of `total_floors`.
///
/// The top floor is the goal template; when the map is at least 11 x 11 it
/// is fully connected, holds exactly one goal (at the template's centre) and
/// no stairs up. Every other floor is fully connected, has an unwalkable
/// outer ring, holds no goal, its spawn corner `(1, 1)` is EMPTY, it has
/// stairs down only above the ground floor and stairs up only below the top,
/// and each of its islands with an EMPTY cell other than the spawn has them.
pub open spec fn generated_floor(map: &NobiscuitMap, width: int, height: int, floor_index: int, total_floors: int) -> bool {
    &&& map.wf()
    &&& map.spec_width() == width
    &&& map.spec_height() == height
    &&& floor_index == total_floors - 1 ==> forall|a: int, b: int|
        map.in_bounds(a, b) ==> #[trigger] map.cell(a, b) == goal_floor_tile(width, height, a, b)
    &&& floor_index == total_floors - 1 && width >= 11 && height >= 11 ==> {
        &&& fully_connected(map)
        &&& forall|a: int, b: int|
            map.in_bounds(a, b) ==> ((#[trigger] map.cell(a, b) == TILE_GOAL) <==> (a
                == template_origin(width, height).0 + 5 && b == template_origin(width, height).1 + 4))
        &&& forall|a: int, b: int| map.in_bounds(a, b) ==> #[trigger] map.cell(a, b) != TILE_STAIRS_UP
    }
    &&& floor_index != total_floors - 1 ==> {
        &&& fully_connected(map)
        &&& border_unwalkable(map)
        &&& no_goal(map)
        &&& map.cell(1, 1) == TILE_EMPTY
        &&& forall|a: int, b: int|
            map.in_bounds(a, b) ==> (#[trigger] map.cell(a, b) == TILE_STAIRS_DOWN ==> floor_index > 0)
                && (map.cell(a, b) == TILE_STAIRS_UP ==> floor_index < total_floors - 1)
        &&& islands_have_stairs(map, floor_index < total_floors - 1, floor_index > 0)
    }
}

/// `m` is `m0` with every interior EMPTY cell that the spawn cannot reach
/// walled.
pub open spec fn walled_from(m0: &NobiscuitMap, m: &NobiscuitMap) -> bool {
    &&& m.wf()
    &&& m.spec_width() == m0.spec_width()
    &&& m.spec_height() == m0.spec_height()
    &&& forall|a: int, b: int|
        m0.in_bounds(a, b) ==> #[trigger] m.cell(a, b) == if walled_off(m0, a, b) {
            TILE_WALL
        } else {
            m0.cell(a, b)
        }
}

/// `map` comes from the layouts `tried`, built one after another for floor
/// `floor_index` of `total_floors`: it is the first of the first ten that is
/// fully connected, or, when none of those ten is, the eleventh with its
/// unreachable cells walled off.
pub open spec fn first_connected(
    tried: Seq<NobiscuitMap>,
    map: &NobiscuitMap,
    w: int,
    h: int,
    floor_index: int,
    total_floors: int,
) -> bool {
    &&& 1 <= tried.len() <= 11
    &&& forall|i: int| #![trigger tried[i]] 0 <= i < tried.len() ==> floor_layout(&tried[i], w, h, floor_index, total_floors)
    &&& forall|i: int| #![trigger tried[i]] 0 <= i < tried.len() - 1 ==> !fully_connected(&tried[i])
    &&& tried.len() <= 10 ==> fully_connected(&tried[tried.len() - 1]) && *map == tried[tried.len() - 1]
    &&& tried.len() == 11 ==> walled_from(&tried[10], map)
}

/// Generate one floor of the house.
///
/// The top floor (`floor_index == total_floors - 1`) is the fixed goal
/// template. Any other floor is a generated layout that is checked with a
/// flood fill and regenerated up to 10 times while some walkable cell is
/// unreachable; after that, the stragglers of one more layout are walled off
/// (`first_connected`).
/// Either way every walkable cell of a lower floor is reachable and the spawn
/// corner `(1, 1)` is walkable.
pub fn generate_floor(
    width: usize,
    height: usize,
    floor_index: usize,
    total_floors: usize,
    rng: &mut StdRng,
) -> (map: NobiscuitMap)
    requires
        total_floors >= 1,
        1 <= width <= i32::MAX,
        1 <= height <= i32::MAX,
        width * height <= usize::MAX,
        floor_index != total_floors - 1 ==> (width % 2 == 1 && height % 2 == 1 && 3 <= width && 3
            <= height),
    ensures
        generated_floor(&map, width as int, height as int, floor_index as int, total_floors as int),
        floor_index != total_floors - 1 ==> exists|tried: Seq<NobiscuitMap>|
            #[trigger] first_connected(tried, &map, width as int, height as int, floor_index as int, total_floors as int),
{
    let is_top_floor = floor_index == total_floors - 1;
    if is_top_floor {
        let map = generate_goal_floor(width, height);
        proof {
            if width >= 11 && height >= 11 {
                reveal(is_goal_floor);
                assert(is_goal_floor(&map));
                lemma_goal_floor_goal(&map);
                lemma_goal_floor_connected(&map);
            }
        }
        return map;
    }
    let mut tries: usize = 0;
    let ghost mut tried: Seq<NobiscuitMap> = Seq::empty();
    while tries < 10
        invariant
            tried.len() == tries,
            tries <= 10,
            forall|i: int|
                #![trigger tried[i]]
                0 <= i < tried.len() ==> floor_layout(&tried[i], width as int, height as int, floor_index as int, total_floors as int)
                    && !fully_connected(&tried[i]),
            floor_index != total_floors - 1,
            width % 2 == 1,
            height % 2 == 1,
            3 <= width <= i32::MAX,
            3 <= height <= i32::MAX,
            width * height <= usize::MAX,
            total_floors >= 1,
        decreases 10 - tries,
    {
        let map = build_floor_layout(width, height, floor_index, total_floors, rng);
        if verify_connectivity(&map, width, height) {
            proof {
                let t0 = tried;
                tried = tried.push(map);
                assert(tried[tried.len() - 1] == map);
                assert forall|i: int| #![trigger tried[i]] 0 <= i < tried.len() - 1 implies !fully_connected(&tried[i]) by {
                    assert(tried[i] == t0[i]);
                }
                assert(first_connected(tried, &map, width as int, height as int, floor_index as int, total_floors as int));
            }
            return map;
        }
        proof {
            let t0 = tried;
            tried = tried.push(map);
            assert forall|i: int|
                #![trigger tried[i]]
                0 <= i < tried.len() implies floor_layout(&tried[i], width as int, height as int, floor_index as int, total_floors as int)
                    && !fully_connected(&tried[i]) by {
                if i < t0.len() {
                    assert(tried[i] == t0[i]);
                }
            }
        }
        tries = tries + 1;
    }
    let mut map = build_floor_layout(width, height, floor_index, total_floors, rng);
    let ghost m0 = map;
    proof {
        lemma_stragglers_walled(&map);
        assert(is_seed(&m0, 1, 1));
        lemma_single_walk(&m0, 1, 1);
    }
    wall_off_unreachable(&mut map, width, height);
    proof {
        assert(map.cell(1, 1) == m0.cell(1, 1));
        assert forall|a: int, b: int| map.in_bounds(a, b) && !interior(width as int, height as int, a, b) implies !is_walkable_tile(#[trigger] map.cell(a, b)) by {
            assert(m0.in_bounds(a, b));
        }
        assert forall|a: int, b: int| map.in_bounds(a, b) implies #[trigger] map.cell(a, b) != TILE_GOAL by {
            assert(m0.in_bounds(a, b));
        }
        assert forall|a: int, b: int| map.in_bounds(a, b) implies (#[trigger] map.cell(a, b) == TILE_STAIRS_DOWN ==> floor_index > 0)
            && (map.cell(a, b) == TILE_STAIRS_UP ==> floor_index < total_floors - 1) by {
            assert(m0.in_bounds(a, b));
        }
        assert forall|a: int, b: int| m0.in_bounds(a, b) && #[trigger] map.cell(a, b) != m0.cell(a, b) implies m0.cell(a, b) == TILE_EMPTY && !(a == 1 && b == 1) by {}
        assert(only_free_cells_changed(&m0, &map));
        assert forall|a: int, b: int| m0.in_bounds(a, b) implies (#[trigger] map.cell(a, b) == TILE_VOID) == (m0.cell(a, b) == TILE_VOID) by {}
        lemma_island_stairs_kept(&m0, &map, floor_index < total_floors - 1, floor_index > 0);
        let t0 = tried;
        tried = tried.push(m0);
        assert(tried[10] == m0);
        assert(walled_from(&m0, &map));
        assert forall|i: int| #![trigger tried[i]] 0 <= i < tried.len() implies floor_layout(&tried[i], width as int, height as int, floor_index as int, total_floors as int) by {
            if i < t0.len() {
                assert(tried[i] == t0[i]);
            }
        }
        assert forall|i: int| #![trigger tried[i]] 0 <= i < tried.len() - 1 implies !fully_connected(&tried[i]) by {
            assert(tried[i] == t0[i]);
        }
        assert(first_connected(tried, &map, width as int, height as int, floor_index as int, total_floors as int));
    }
    map
}

} // verus!
