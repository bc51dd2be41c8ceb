//! The world (floors joined by stairs), item placement, and the per-frame
//! game rules: doors that open and close around the player, stairs with a
//! bounce guard, and picking up biscuits and the goal.

use vstd::prelude::*;
use crate::map::TileMap;
use crate::nobiscuit_map::NobiscuitMap;
use crate::tiles::{TileType, TILE_EMPTY, TILE_GOAL, TILE_STAIRS_UP, TILE_STAIRS_DOWN};
use crate::grid::lemma_index_decode;
use crate::rng::shuffle;
use crate::maze::{generate_floor, generated_floor};
use crate::maze::reach::{adjacent, dir4, dir_dx, dir_dy};
use crate::tiles::{is_door, is_door_tile};
use crate::ui::{decimal, push_decimal, text_chars};
use rand::rngs::StdRng;

verus! {

/// Sprite kind: a biscuit.
pub const SPRITE_BISCUIT: u8 = 1;
/// Sprite kind: the goal marker.
pub const SPRITE_GOAL: u8 = 2;
/// Sprite kind: arrow over stairs up.
pub const SPRITE_STAIRS_UP: u8 = 3;
/// Sprite kind: arrow over stairs down.
pub const SPRITE_STAIRS_DOWN: u8 = 4;

/// A sprite standing at the centre of tile `(x, y)`.
#[derive(Clone, Copy, PartialEq, Eq, Debug, Structural)]
pub struct Sprite {
    /// Tile column.
    pub x: usize,
    /// Tile row.
    pub y: usize,
    /// One of the `SPRITE_*` kinds.
    pub sprite_type: u8,
}

/// A floor in the world: its map and its sprites.
pub struct Floor {
    pub map: NobiscuitMap,
    pub sprites: Vec<Sprite>,
}

/// Multiple floors connected by stairs.
pub struct World {
    pub floors: Vec<Floor>,
    pub current_floor: usize,
}

/// Which way a staircase leads.
#[derive(Clone, Copy, PartialEq, Eq, Debug, Structural)]
pub enum StairDirection {
    Up,
    Down,
}

/// A pending move to another floor.
#[derive(Clone, Copy, PartialEq, Eq, Debug, Structural)]
pub struct StairTransition {
    pub target_floor: usize,
    pub direction: StairDirection,
}

/// The message shown when stairs are taken, such as "Going up to 2F...",
/// floors counted from 1.
pub open spec fn transition_message_spec(t: StairTransition) -> Seq<char> {
    (match t.direction {
        StairDirection::Up => ("Going up to ")@,
        StairDirection::Down => ("Going down to ")@,
    }) + decimal((t.target_floor + 1) as nat) + ("F...")@
}

/// The message announcing the floor change `t`.
pub fn transition_message(t: StairTransition) -> (v: Vec<char>)
    requires
        t.target_floor < u64::MAX,
    ensures
        v@ == transition_message_spec(t),
{
    let mut v = match t.direction {
        StairDirection::Up => text_chars("Going up to "),
        StairDirection::Down => text_chars("Going down to "),
    };
    push_decimal(&mut v, t.target_floor as u64 + 1);
    let tail = text_chars("F...");
    let ghost head = v@;
    let mut i: usize = 0;
    while i < tail.len()
        invariant
            0 <= i <= tail@.len(),
            tail@ == ("F...")@,
            v@ == head + tail@.take(i as int),
        decreases tail@.len() - i,
    {
        v.push(tail[i]);
        assert(tail@.take(i as int + 1) == tail@.take(i as int).push(tail@[i as int]));
        i = i + 1;
    }
    assert(tail@.take(tail@.len() as int) == tail@);
    v
}

/// The transition that stairs at `(px, py)` on the current floor trigger.
pub open spec fn stairs_transition(w: &World, px: int, py: int) -> Option<StairTransition> {
    let cur = w.current_floor as int;
    match w.floors@[cur].map.spec_get(px, py) {
        Some(t) => if t == TILE_STAIRS_UP && cur < w.floors@.len() - 1 {
            Some(StairTransition { target_floor: (cur + 1) as usize, direction: StairDirection::Up })
        } else if t == TILE_STAIRS_DOWN && cur > 0 {
            Some(StairTransition { target_floor: (cur - 1) as usize, direction: StairDirection::Down })
        } else {
            None
        },
        None => None,
    }
}

/// `(x, y)` comes before `(a, b)` in row-major scan order.
pub open spec fn scan_before(a: int, b: int, x: int, y: int) -> bool {
    b < y || (b == y && a < x)
}

/// `(x, y)` is the first cell of `m` in row-major order holding `t`.
pub open spec fn first_with(m: &NobiscuitMap, t: TileType, x: int, y: int) -> bool {
    &&& m.in_bounds(x, y)
    &&& m.cell(x, y) == t
    &&& forall|a: int, b: int| m.in_bounds(a, b) && scan_before(a, b, x, y) ==> #[trigger] m.cell(a, b) != t
}

/// `(x, y)` is the first EMPTY cell strictly inside the outer ring, in
/// row-major order.
pub open spec fn first_inner_empty(m: &NobiscuitMap, x: int, y: int) -> bool {
    &&& 1 <= x < m.spec_width() - 1
    &&& 1 <= y < m.spec_height() - 1
    &&& m.cell(x, y) == TILE_EMPTY
    &&& forall|a: int, b: int|
        1 <= a < m.spec_width() - 1 && 1 <= b < m.spec_height() - 1 && scan_before(a, b, x, y)
            ==> #[trigger] m.cell(a, b) != TILE_EMPTY
}

/// The stair tile a player lands on after taking stairs in direction `d`.
pub open spec fn landing_tile(d: StairDirection) -> TileType {
    match d {
        StairDirection::Up => TILE_STAIRS_DOWN,
        StairDirection::Down => TILE_STAIRS_UP,
    }
}

/// Where `change_floor` puts the player on map `m`: the first matching stair,
/// else the first inner EMPTY cell, else `(1, 1)`.
pub open spec fn arrival_ok(m: &NobiscuitMap, d: StairDirection, p: (usize, usize)) -> bool {
    let t = landing_tile(d);
    if exists|x: int, y: int| m.in_bounds(x, y) && #[trigger] m.cell(x, y) == t {
        first_with(m, t, p.0 as int, p.1 as int)
    } else if exists|x: int, y: int|
        1 <= x < m.spec_width() - 1 && 1 <= y < m.spec_height() - 1 && #[trigger] m.cell(x, y)
            == TILE_EMPTY {
        first_inner_empty(m, p.0 as int, p.1 as int)
    } else {
        p == (1usize, 1usize)
    }
}

/// Floor `i` of `total` as `World::new` builds it on a `w` x `h` grid.
pub open spec fn floor_built(f: Floor, w: int, h: int, i: int, total: int) -> bool {
    &&& generated_floor(&f.map, w, h, i, total)
    &&& items_placed(&f.map, i == 0, f.sprites@)
}

impl World {
    /// Generate a world of `num_floors` floors of `maze_w` x `maze_h` tiles,
    /// with the player on the ground floor.
    pub fn new(num_floors: usize, maze_w: usize, maze_h: usize, rng: &mut StdRng) -> (world: World)
        requires
            1 <= maze_w <= i32::MAX,
            1 <= maze_h <= i32::MAX,
            maze_w * maze_h <= usize::MAX,
            num_floors >= 2 ==> (maze_w % 2 == 1 && maze_h % 2 == 1 && 3 <= maze_w && 3 <= maze_h),
        ensures
            world.current_floor == 0,
            world.floors@.len() == num_floors,
            forall|i: int|
                0 <= i < num_floors ==> floor_built(
                    #[trigger] world.floors@[i],
                    maze_w as int,
                    maze_h as int,
                    i,
                    num_floors as int,
                ),
    {
        let mut floors: Vec<Floor> = Vec::new();
        let mut i: usize = 0;
        while i < num_floors
            invariant
                1 <= maze_w <= i32::MAX,
                1 <= maze_h <= i32::MAX,
                maze_w * maze_h <= usize::MAX,
                num_floors >= 2 ==> (maze_w % 2 == 1 && maze_h % 2 == 1 && 3 <= maze_w && 3 <= maze_h),
                0 <= i <= num_floors,
                floors@.len() == i,
                forall|k: int|
                    0 <= k < i ==> floor_built(
                        #[trigger] floors@[k],
                        maze_w as int,
                        maze_h as int,
                        k,
                        num_floors as int,
                    ),
            decreases num_floors - i,
        {
            let map = generate_floor(maze_w, maze_h, i, num_floors, rng);
            let sprites = place_floor_items(&map, i == 0, rng);
            floors.push(Floor { map, sprites });
            i = i + 1;
        }
        World { floors, current_floor: 0 }
    }

    /// The map of the floor the player is on.
    pub fn current_map(&self) -> (r: &NobiscuitMap)
        requires
            self.current_floor < self.floors@.len(),
        ensures
            *r == self.floors@[self.current_floor as int].map,
    {
        &self.floors[self.current_floor].map
    }

    /// The sprites of the floor the player is on.
    pub fn current_sprites(&self) -> (r: &[Sprite])
        requires
            self.current_floor < self.floors@.len(),
        ensures
            r@ == self.floors@[self.current_floor as int].sprites@,
    {
        self.floors[self.current_floor].sprites.as_slice()
    }

    /// Mutable access to the map of the floor the player is on.
    pub fn current_map_mut(&mut self) -> (r: &mut NobiscuitMap)
        requires
            old(self).current_floor < old(self).floors@.len(),
        ensures
            *r == old(self).floors@[old(self).current_floor as int].map,
            final(self).current_floor == old(self).current_floor,
            final(self).floors@ == old(self).floors@.update(
                old(self).current_floor as int,
                (Floor {
                    map: *final(r),
                    sprites: old(self).floors@[old(self).current_floor as int].sprites,
                }),
            ),
    {
        let cur = self.current_floor;
        &mut self.floors[cur].map
    }

    /// Mutable access to the sprites of the floor the player is on.
    pub fn current_sprites_mut(&mut self) -> (r: &mut Vec<Sprite>)
        requires
            old(self).current_floor < old(self).floors@.len(),
        ensures
            *r == old(self).floors@[old(self).current_floor as int].sprites,
            final(self).current_floor == old(self).current_floor,
            final(self).floors@ == old(self).floors@.update(
                old(self).current_floor as int,
                (Floor {
                    map: old(self).floors@[old(self).current_floor as int].map,
                    sprites: *final(r),
                }),
            ),
    {
        let cur = self.current_floor;
        &mut self.floors[cur].sprites
    }

    /// The transition triggered by standing on tile `(px, py)`: stairs up
    /// below the top floor, or stairs down above the ground floor.
    pub fn check_stairs(&self, px: i32, py: i32) -> (r: Option<StairTransition>)
        requires
            self.current_floor < self.floors@.len(),
            self.floors@[self.current_floor as int].map.wf(),
        ensures
            r == stairs_transition(self, px as int, py as int),
    {
        let tile = match self.current_map().get(px, py) {
            Some(t) => t,
            None => return None,
        };
        if tile == TILE_STAIRS_UP && self.current_floor < self.floors.len() - 1 {
            Some(StairTransition { target_floor: self.current_floor + 1, direction: StairDirection::Up })
        } else if tile == TILE_STAIRS_DOWN && self.current_floor > 0 {
            Some(StairTransition { target_floor: self.current_floor - 1, direction: StairDirection::Down })
        } else {
            None
        }
    }

    /// Move the player to floor `target_floor` and return the tile they land
    /// on: the first stair (in row-major order) that leads back the way they
    /// came, else the first EMPTY cell inside the outer ring, else `(1, 1)`.
    ///
    /// With several islands per floor the player may land on another island
    /// than the one they left; this is intended.
    pub fn change_floor(&mut self, target_floor: usize, direction: StairDirection) -> (p: (usize, usize))
        requires
            target_floor < old(self).floors@.len(),
            arrival_map_ok(&old(self).floors@[target_floor as int].map),
        ensures
            final(self).floors == old(self).floors,
            final(self).current_floor == target_floor,
            arrival_ok(&old(self).floors@[target_floor as int].map, direction, p),
    {
        self.current_floor = target_floor;
        arrival_cell(&self.floors[target_floor].map, direction)
    }
}

/// The maps that `change_floor` can scan: at least one row, and a column
/// whenever there is an inner row.
pub open spec fn arrival_map_ok(m: &NobiscuitMap) -> bool {
    &&& m.wf()
    &&& m.spec_width() <= i32::MAX
    &&& m.spec_height() <= i32::MAX
    &&& m.spec_height() >= 1
    &&& m.spec_height() >= 3 ==> m.spec_width() >= 1
}

/// The landing tile on `map` after taking stairs in direction `direction`.
fn arrival_cell(map: &NobiscuitMap, direction: StairDirection) -> (p: (usize, usize))
    requires
        arrival_map_ok(map),
    ensures
        arrival_ok(map, direction, p),
{
    let target_tile = match direction {
        StairDirection::Up => TILE_STAIRS_DOWN,
        StairDirection::Down => TILE_STAIRS_UP,
    };
    assert(target_tile == landing_tile(direction));
    let w = map.width();
    let h = map.height();
    let mut y: usize = 0;
    while y < h
        invariant
            map.wf(),
            w == map.spec_width(),
            h == map.spec_height(),
            w <= i32::MAX,
            h <= i32::MAX,
            0 <= y <= h,
            target_tile == landing_tile(direction),
            forall|a: int, b: int| map.in_bounds(a, b) && b < y ==> #[trigger] map.cell(a, b) != target_tile,
        decreases h - y,
    {
        let mut x: usize = 0;
        while x < w
            invariant
                map.wf(),
                w == map.spec_width(),
                h == map.spec_height(),
                w <= i32::MAX,
                h <= i32::MAX,
                0 <= y < h,
                0 <= x <= w,
                target_tile == landing_tile(direction),
                forall|a: int, b: int| map.in_bounds(a, b) && scan_before(a, b, x as int, y as int) ==> #[trigger] map.cell(a, b) != target_tile,
            decreases w - x,
        {
            if map.get(x as i32, y as i32) == Some(target_tile) {
                assert(map.in_bounds(x as int, y as int) && map.cell(x as int, y as int) == target_tile);
                return (x, y);
            }
            x = x + 1;
        }
        y = y + 1;
    }
    assert(!exists|x: int, y: int| map.in_bounds(x, y) && #[trigger] map.cell(x, y) == target_tile);
    // Fallback: the first EMPTY cell inside the outer ring.
    let mut y: usize = 1;
    while y < h - 1
        invariant
            map.wf(),
            w == map.spec_width(),
            h == map.spec_height(),
            w <= i32::MAX,
            h <= i32::MAX,
            h >= 1,
            h >= 3 ==> w >= 1,
            target_tile == landing_tile(direction),
            !exists|x: int, y: int| map.in_bounds(x, y) && #[trigger] map.cell(x, y) == target_tile,
            1 <= y,
            y <= h - 1 || h <= 2,
            forall|a: int, b: int|
                1 <= a < w - 1 && 1 <= b < h - 1 && b < y ==> #[trigger] map.cell(a, b) != TILE_EMPTY,
        decreases h - y,
    {
        let mut x: usize = 1;
        while x < w - 1
            invariant
                map.wf(),
                w == map.spec_width(),
                h == map.spec_height(),
                w <= i32::MAX,
                h <= i32::MAX,
                w >= 1,
                1 <= y < h - 1,
                target_tile == landing_tile(direction),
                !exists|x: int, y: int| map.in_bounds(x, y) && #[trigger] map.cell(x, y) == target_tile,
                1 <= x,
                x <= w - 1 || w <= 2,
                forall|a: int, b: int|
                    1 <= a < w - 1 && 1 <= b < h - 1 && scan_before(a, b, x as int, y as int) ==> #[trigger] map.cell(a, b) != TILE_EMPTY,
            decreases w - x,
        {
            if map.get(x as i32, y as i32) == Some(TILE_EMPTY) {
                assert(1 <= x < w - 1 && 1 <= y < h - 1 && map.cell(x as int, y as int) == TILE_EMPTY);
                return (x, y);
            }
            x = x + 1;
        }
        y = y + 1;
    }
    assert(!exists|x: int, y: int|
        1 <= x < w - 1 && 1 <= y < h - 1 && #[trigger] map.cell(x, y) == TILE_EMPTY);
    (1, 1)
}

/// Tile position of row-major index `i` on a map `w` columns wide.
pub open spec fn scan_pos(w: int, i: int) -> (usize, usize) {
    ((i % w) as usize, (i / w) as usize)
}

/// Tile at row-major index `i` of `m`.
pub open spec fn scan_tile(m: &NobiscuitMap, i: int) -> TileType {
    m.cell(i % (m.spec_width() as int), i / (m.spec_width() as int))
}

/// Stair-arrow sprites for the first `n` cells of `m`, in row-major order.
pub open spec fn stair_sprites(m: &NobiscuitMap, n: int) -> Seq<Sprite>
    decreases n,
{
    if n <= 0 {
        seq![]
    } else {
        let prev = stair_sprites(m, n - 1);
        let p = scan_pos(m.spec_width() as int, n - 1);
        let t = scan_tile(m, n - 1);
        if t == TILE_STAIRS_UP {
            prev.push(Sprite { x: p.0, y: p.1, sprite_type: SPRITE_STAIRS_UP })
        } else if t == TILE_STAIRS_DOWN {
            prev.push(Sprite { x: p.0, y: p.1, sprite_type: SPRITE_STAIRS_DOWN })
        } else {
            prev
        }
    }
}

/// EMPTY cells among the first `n` cells of `m` that may hold a biscuit: all
/// of them but the spawn corner `(1, 1)` on the ground floor.
pub open spec fn item_cells(m: &NobiscuitMap, ground: bool, n: int) -> Seq<(usize, usize)>
    decreases n,
{
    if n <= 0 {
        seq![]
    } else {
        let prev = item_cells(m, ground, n - 1);
        let p = scan_pos(m.spec_width() as int, n - 1);
        if scan_tile(m, n - 1) == TILE_EMPTY && !(ground && p == (1usize, 1usize)) {
            prev.push(p)
        } else {
            prev
        }
    }
}

/// The last goal cell among the first `n` cells of `m`.
pub open spec fn last_goal(m: &NobiscuitMap, n: int) -> Option<(usize, usize)>
    decreases n,
{
    if n <= 0 {
        None
    } else if scan_tile(m, n - 1) == TILE_GOAL {
        Some(scan_pos(m.spec_width() as int, n - 1))
    } else {
        last_goal(m, n - 1)
    }
}

/// Number of biscuits placed among `e` candidate cells: a third of them, at
/// least five, and never more than there are cells.
pub open spec fn biscuit_count(e: int) -> int {
    let k = if e / 3 > 5 { e / 3 } else { 5 };
    if k < e { k } else { e }
}

/// `s` is what `place_floor_items` may return for map `m`: one arrow per
/// staircase in row-major order, then biscuits on distinct candidate cells
/// (about 30%, at least five when there are enough), then the goal sprite
/// on the last goal cell, if any.
pub open spec fn items_placed(m: &NobiscuitMap, ground: bool, s: Seq<Sprite>) -> bool {
    let n = m.spec_width() * m.spec_height();
    let st = stair_sprites(m, n);
    let e = item_cells(m, ground, n);
    let k = biscuit_count(e.len() as int);
    let g = last_goal(m, n);
    &&& s.len() == st.len() + k + (if g is Some { 1int } else { 0int })
    &&& s.subrange(0, st.len() as int) == st
    &&& forall|i: int|
        #![trigger s[i]]
        st.len() <= i < st.len() + k ==> s[i].sprite_type == SPRITE_BISCUIT && e.contains(
            (s[i].x, s[i].y),
        )
    &&& forall|i: int, j: int|
        #![trigger s[i], s[j]]
        st.len() <= i < j < st.len() + k ==> (s[i].x, s[i].y) != (s[j].x, s[j].y)
    &&& g matches Some(p) ==> s.last() == (Sprite { x: p.0, y: p.1, sprite_type: SPRITE_GOAL })
}

/// Every candidate cell among the first `n` lies inside the map, before index `n`.
proof fn lemma_item_cells_bounded(m: &NobiscuitMap, ground: bool, n: int)
    requires
        m.spec_width() > 0,
        0 <= n <= usize::MAX,
    ensures
        forall|k: int| 0 <= k < item_cells(m, ground, n).len() ==> {
            let q = #[trigger] item_cells(m, ground, n)[k];
            q.0 < m.spec_width() && q.1 * m.spec_width() + q.0 < n
        },
        item_cells(m, ground, n).no_duplicates(),
    decreases n,
{
    let w = m.spec_width() as int;
    if n > 0 {
        lemma_item_cells_bounded(m, ground, n - 1);
        lemma_index_decode(n - 1, w);
        let prev = item_cells(m, ground, n - 1);
        let p = scan_pos(w, n - 1);
        assert((n - 1) / w <= n - 1) by (nonlinear_arith)
            requires
                w >= 1,
                n - 1 >= 0,
                n - 1 == ((n - 1) / w) * w + (n - 1) % w,
                (n - 1) % w >= 0,
                (n - 1) / w >= 0,
        ;
        assert(p.1 * w + p.0 == n - 1);
        assert(!prev.contains(p)) by {
            if prev.contains(p) {
                let k = choose|k: int| 0 <= k < prev.len() && prev[k] == p;
                assert(prev[k].1 * w + prev[k].0 < n - 1);
            }
        }
    }
}

/// Place biscuits, the goal sprite and stair arrows on a floor.
///
/// Biscuits go on about 30% of the EMPTY cells (at least five), chosen at
/// random; the spawn corner of the ground floor never gets one.
pub fn place_floor_items(map: &NobiscuitMap, is_ground_floor: bool, rng: &mut StdRng) -> (sprites: Vec<Sprite>)
    requires
        map.wf(),
        map.spec_width() <= i32::MAX,
        map.spec_height() <= i32::MAX,
    ensures
        items_placed(map, is_ground_floor, sprites@),
{
    let w = map.width();
    let h = map.height();
    proof {
        map.lemma_wf_size();
    }
    let n = w * h;
    let mut sprites: Vec<Sprite> = Vec::new();
    let mut empties: Vec<(usize, usize)> = Vec::new();
    let mut goal_pos: Option<(usize, usize)> = None;
    let mut i: usize = 0;
    while i < n
        invariant
            map.wf(),
            w == map.spec_width(),
            h == map.spec_height(),
            w <= i32::MAX,
            h <= i32::MAX,
            n == w * h,
            0 <= i <= n,
            sprites@ == stair_sprites(map, i as int),
            empties@ == item_cells(map, is_ground_floor, i as int),
            goal_pos == last_goal(map, i as int),
        decreases n - i,
    {
        assert(i / w < h) by (nonlinear_arith)
            requires
                i < w * h,
                w > 0,
        ;
        let x = i % w;
        let y = i / w;
        let tile = match map.get(x as i32, y as i32) {
            Some(t) => t,
            None => 1,
        };
        assert(tile == scan_tile(map, i as int));
        if tile == TILE_EMPTY && !(is_ground_floor && x == 1 && y == 1) {
            empties.push((x, y));
        } else if tile == TILE_GOAL {
            goal_pos = Some((x, y));
        } else if tile == TILE_STAIRS_UP {
            sprites.push(Sprite { x, y, sprite_type: SPRITE_STAIRS_UP });
        } else if tile == TILE_STAIRS_DOWN {
            sprites.push(Sprite { x, y, sprite_type: SPRITE_STAIRS_DOWN });
        }
        i = i + 1;
    }
    let ghost st = sprites@;
    let ghost e0 = empties@;
    proof {
        if w > 0 {
            lemma_item_cells_bounded(map, is_ground_floor, n as int);
        }
    }
    // Biscuits on about 30% of the candidate cells.
    shuffle(&mut empties, rng);
    proof {
        broadcast use vstd::seq_lib::group_to_multiset_ensures;
        e0.lemma_multiset_has_no_duplicates();
        empties@.lemma_multiset_has_no_duplicates_conv();
    }
    let third = empties.len() / 3;
    let wanted = if third > 5 { third } else { 5 };
    let count = if wanted < empties.len() { wanted } else { empties.len() };
    let mut j: usize = 0;
    while j < count
        invariant
            count <= empties@.len(),
            count == biscuit_count(e0.len() as int),
            empties@.no_duplicates(),
            empties@.to_multiset() == e0.to_multiset(),
            0 <= j <= count,
            sprites@.len() == st.len() + j,
            sprites@.subrange(0, st.len() as int) == st,
            forall|k: int| 0 <= k < j ==> #[trigger] sprites@[st.len() + k] == (Sprite { x: empties@[k].0, y: empties@[k].1, sprite_type: SPRITE_BISCUIT }),
        decreases count - j,
    {
        let (x, y) = empties[j];
        sprites.push(Sprite { x, y, sprite_type: SPRITE_BISCUIT });
        j = j + 1;
    }
    // The goal sprite.
    let ghost sb = sprites@;
    match goal_pos {
        Some((gx, gy)) => {
            sprites.push(Sprite { x: gx, y: gy, sprite_type: SPRITE_GOAL });
        },
        None => {},
    }
    proof {
        assert forall|i: int| #![trigger sprites@[i]] st.len() <= i < st.len() + count implies sprites@[i].sprite_type == SPRITE_BISCUIT && e0.contains((sprites@[i].x, sprites@[i].y)) by {
            let k = i - st.len();
            assert(sprites@[i] == sb[i]);
            assert(sb[st.len() + k] == sb[i]);
            lemma_in_shuffled(e0, empties@, k);
        }
        assert forall|i: int, j: int| #![trigger sprites@[i], sprites@[j]] st.len() <= i < j < st.len() + count implies (sprites@[i].x, sprites@[i].y) != (sprites@[j].x, sprites@[j].y) by {
            assert(sprites@[i] == sb[i]);
            assert(sprites@[j] == sb[j]);
            assert(sb[st.len() + (i - st.len())] == sb[i]);
            assert(sb[st.len() + (j - st.len())] == sb[j]);
        }
        let nn = (w * h) as int;
        assert(st == stair_sprites(map, nn));
        assert(e0 == item_cells(map, is_ground_floor, nn));
        assert(goal_pos == last_goal(map, nn));
        assert(sprites@.len() == st.len() + count + (if goal_pos is Some { 1int } else { 0int }));
        assert(sprites@.subrange(0, st.len() as int) == st);
        assert(count == biscuit_count(item_cells(map, is_ground_floor, nn).len() as int));
        match last_goal(map, nn) {
            Some(p) => {
                assert(sprites@.last() == (Sprite { x: p.0, y: p.1, sprite_type: SPRITE_GOAL }));
            },
            None => {},
        }
        assert(nn == map.spec_width() * map.spec_height());
    }
    sprites
}

/// Every entry of a shuffled sequence was an entry before.
proof fn lemma_in_shuffled<T>(old_s: Seq<T>, s: Seq<T>, k: int)
    requires
        s.to_multiset() == old_s.to_multiset(),
        0 <= k < s.len(),
    ensures
        old_s.contains(s[k]),
{
    broadcast use vstd::seq_lib::group_to_multiset_ensures;

    assert(s.contains(s[k]));
    assert(s.to_multiset().count(s[k]) > 0);
}

/// A door the player opened: where it is and which door tile it was.
#[derive(Clone, Copy, PartialEq, Eq, Debug, Structural)]
pub struct OpenDoor {
    pub x: usize,
    pub y: usize,
    pub tile: TileType,
}

/// The door tile remembered for `(x, y)` in `s` (the last entry for it wins).
pub open spec fn door_tile(s: Seq<OpenDoor>, x: int, y: int) -> Option<TileType>
    decreases s.len(),
{
    if s.len() == 0 {
        None
    } else if s.last().x == x && s.last().y == y {
        Some(s.last().tile)
    } else {
        door_tile(s.drop_last(), x, y)
    }
}

/// No position occurs twice in `s`.
pub open spec fn keys_unique(s: Seq<OpenDoor>) -> bool {
    forall|i: int, j: int|
        #![trigger s[i], s[j]]
        0 <= i < j < s.len() ==> !(s[i].x == s[j].x && s[i].y == s[j].y)
}

/// With unique positions, the entry at `i` is the one remembered for its position.
proof fn lemma_door_tile_at(s: Seq<OpenDoor>, i: int)
    requires
        keys_unique(s),
        0 <= i < s.len(),
    ensures
        door_tile(s, s[i].x as int, s[i].y as int) == Some(s[i].tile),
    decreases s.len(),
{
    if i < s.len() - 1 {
        let t = s.drop_last();
        assert(t[i] == s[i]);
        assert(!(s[i].x == s[s.len() - 1].x && s[i].y == s[s.len() - 1].y));
        lemma_door_tile_at(t, i);
    }
}

/// A position that no entry holds is remembered by none.
proof fn lemma_door_tile_none(s: Seq<OpenDoor>, x: int, y: int)
    requires
        forall|i: int| 0 <= i < s.len() ==> !(#[trigger] s[i].x == x && s[i].y == y),
    ensures
        door_tile(s, x, y) is None,
    decreases s.len(),
{
    if s.len() > 0 {
        let t = s.drop_last();
        assert(s[s.len() - 1].x != x || s[s.len() - 1].y != y);
        assert forall|i: int| 0 <= i < t.len() implies !(#[trigger] t[i].x == x && t[i].y == y) by {
            assert(t[i] == s[i]);
        }
        lemma_door_tile_none(t, x, y);
    }
}

/// A remembered position is held by some entry.
proof fn lemma_door_tile_some(s: Seq<OpenDoor>, x: int, y: int)
    requires
        door_tile(s, x, y) is Some,
    ensures
        exists|i: int| 0 <= i < s.len() && #[trigger] s[i].x == x && s[i].y == y,
    decreases s.len(),
{
    if s.last().x == x && s.last().y == y {
        assert(s[s.len() - 1].x == x);
    } else {
        let t = s.drop_last();
        lemma_door_tile_some(t, x, y);
        let i = choose|i: int| 0 <= i < t.len() && #[trigger] t[i].x == x && t[i].y == y;
        assert(s[i] == t[i]);
    }
}

/// Manhattan distance of at least 3 between `(a, b)` and `(px, py)`.
pub open spec fn far_from(a: int, b: int, px: int, py: int) -> bool {
    (if a >= px { a - px } else { px - a }) + (if b >= py { b - py } else { py - b }) >= 3
}

/// `(a, b)` is a door of `m` next to the player at `(px, py)`.
pub open spec fn door_next_to(m: &NobiscuitMap, px: int, py: int, a: int, b: int) -> bool {
    adjacent((px, py), (a, b)) && m.in_bounds(a, b) && is_door_tile(m.cell(a, b))
}

/// Index of the step from `(px, py)` to `(a, b)` (east, west, south,
/// north), or 4 when `(a, b)` is not a neighbour.
pub open spec fn step_index(px: int, py: int, a: int, b: int) -> int {
    if a == px + 1 && b == py {
        0
    } else if a == px - 1 && b == py {
        1
    } else if a == px && b == py + 1 {
        2
    } else if a == px && b == py - 1 {
        3
    } else {
        4
    }
}

/// The door remembered for `(a, b)` after opening every door next to
/// `(px, py)` on `m`.
pub open spec fn doors_opened(g: &GameState, m: &NobiscuitMap, px: int, py: int, a: int, b: int) -> Option<TileType> {
    if door_next_to(m, px, py, a, b) {
        Some(m.cell(a, b))
    } else {
        g.remembered_door(a, b)
    }
}

/// Tile `(a, b)` of `m` after opening every door next to `(px, py)`.
pub open spec fn cell_opened(m: &NobiscuitMap, px: int, py: int, a: int, b: int) -> TileType {
    if door_next_to(m, px, py, a, b) {
        TILE_EMPTY
    } else {
        m.cell(a, b)
    }
}

/// Tile `(a, b)` after the door step: a remembered door that is now far
/// from the player closes again if its cell is still EMPTY.
pub open spec fn cell_after_doors(g: &GameState, m: &NobiscuitMap, px: int, py: int, a: int, b: int) -> TileType {
    match doors_opened(g, m, px, py, a, b) {
        Some(t) => if far_from(a, b, px, py) && cell_opened(m, px, py, a, b) == TILE_EMPTY {
            t
        } else {
            cell_opened(m, px, py, a, b)
        },
        None => cell_opened(m, px, py, a, b),
    }
}

/// Door remembered for `(a, b)` after the door step: far ones are forgotten.
pub open spec fn door_after_doors(g: &GameState, m: &NobiscuitMap, px: int, py: int, a: int, b: int) -> Option<TileType> {
    if far_from(a, b, px, py) {
        None
    } else {
        doors_opened(g, m, px, py, a, b)
    }
}

/// Game progress: minimap toggle, biscuits eaten, alive / escaped, the
/// pending floor change, the stair bounce guard, and the doors held open.
pub struct GameState {
    pub show_minimap: bool,
    pub biscuits_eaten: u32,
    pub is_alive: bool,
    pub escaped: bool,
    pub floor_transition: Option<StairTransition>,
    /// True while the player still stands on the stair they arrived on.
    pub on_stair_tile: bool,
    /// Doors currently open, with the door tile each one had.
    pub open_doors: Vec<OpenDoor>,
}

impl GameState {
    /// Whether the stair bounce guard is armed.
    pub open spec fn on_stair(&self) -> bool {
        self.on_stair_tile
    }

    /// The door tile to restore at `(x, y)`, if a door there is held open.
    pub open spec fn remembered_door(&self, x: int, y: int) -> Option<TileType> {
        door_tile(self.open_doors@, x, y)
    }

    /// Internal consistency: one entry per door position, each addressable
    /// by `i32` coordinates.
    pub open spec fn wf(&self) -> bool {
        &&& keys_unique(self.open_doors@)
        &&& forall|k: int|
            0 <= k < self.open_doors@.len() ==> #[trigger] self.open_doors@[k].x <= i32::MAX
                && self.open_doors@[k].y <= i32::MAX && is_door_tile(self.open_doors@[k].tile)
    }

    /// A fresh game: minimap on, alive, nothing eaten, no door open.
    pub fn new() -> (g: Self)
        ensures
            g.wf(),
            g.show_minimap,
            g.biscuits_eaten == 0,
            g.is_alive,
            !g.escaped,
            g.floor_transition is None,
            !g.on_stair(),
            forall|x: int, y: int| #[trigger] g.remembered_door(x, y) is None,
    {
        GameState {
            show_minimap: true,
            biscuits_eaten: 0,
            is_alive: true,
            escaped: false,
            floor_transition: None,
            on_stair_tile: false,
            open_doors: Vec::new(),
        }
    }

    /// Arm the bounce guard after a floor change, so the arrival stair does
    /// not send the player straight back.
    pub fn mark_on_stair(&mut self)
        ensures
            final(self).on_stair(),
            final(self).show_minimap == old(self).show_minimap,
            final(self).biscuits_eaten == old(self).biscuits_eaten,
            final(self).is_alive == old(self).is_alive,
            final(self).escaped == old(self).escaped,
            final(self).floor_transition == old(self).floor_transition,
            old(self).wf() ==> final(self).wf(),
            forall|x: int, y: int| #[trigger] final(self).remembered_door(x, y) == old(self).remembered_door(x, y),
    {
        self.on_stair_tile = true;
    }

    /// Open every door next to the player at `(px, py)` (remembering its
    /// tile and making the cell EMPTY), then close every remembered door at
    /// Manhattan distance 3 or more: its tile comes back if the cell is
    /// still EMPTY, and it is forgotten either way.
    pub fn update_doors(&mut self, map: &mut NobiscuitMap, px: usize, py: usize)
        requires
            old(self).wf(),
            old(map).wf(),
            old(map).spec_width() <= i32::MAX,
            old(map).spec_height() <= i32::MAX,
            px < i32::MAX,
            py < i32::MAX,
        ensures
            final(self).wf(),
            final(self).show_minimap == old(self).show_minimap,
            final(self).biscuits_eaten == old(self).biscuits_eaten,
            final(self).is_alive == old(self).is_alive,
            final(self).escaped == old(self).escaped,
            final(self).floor_transition == old(self).floor_transition,
            final(self).on_stair_tile == old(self).on_stair_tile,
            forall|a: int, b: int|
                #[trigger] final(self).remembered_door(a, b) == door_after_doors(
                    old(self),
                    old(map),
                    px as int,
                    py as int,
                    a,
                    b,
                ),
            final(map).wf(),
            final(map).spec_width() == old(map).spec_width(),
            final(map).spec_height() == old(map).spec_height(),
            forall|a: int, b: int|
                old(map).in_bounds(a, b) ==> #[trigger] final(map).cell(a, b) == cell_after_doors(
                    old(self),
                    old(map),
                    px as int,
                    py as int,
                    a,
                    b,
                ),
    {
        let ghost g0 = *self;
        let ghost m0 = *map;
        let ghost ipx = px as int;
        let ghost ipy = py as int;
        // Auto-open doors next to the player.
        let mut d: usize = 0;
        while d < 4
            invariant
                0 <= d <= 4,
                ipx == px,
                ipy == py,
                px < i32::MAX,
                py < i32::MAX,
                m0.wf(),
                m0.spec_width() <= i32::MAX,
                m0.spec_height() <= i32::MAX,
                map.wf(),
                map.spec_width() == m0.spec_width(),
                map.spec_height() == m0.spec_height(),
                forall|a: int, b: int|
                    m0.in_bounds(a, b) ==> #[trigger] map.cell(a, b) == if step_index(ipx, ipy, a, b) < d
                        && is_door_tile(m0.cell(a, b)) {
                        TILE_EMPTY
                    } else {
                        m0.cell(a, b)
                    },
                keys_unique(self.open_doors@),
                forall|k: int|
                    0 <= k < self.open_doors@.len() ==> #[trigger] self.open_doors@[k].x <= i32::MAX
                        && self.open_doors@[k].y <= i32::MAX && is_door_tile(self.open_doors@[k].tile),
                forall|a: int, b: int|
                    #[trigger] door_tile(self.open_doors@, a, b) == if step_index(ipx, ipy, a, b) < d
                        && m0.in_bounds(a, b) && is_door_tile(m0.cell(a, b)) {
                        Some(m0.cell(a, b))
                    } else {
                        door_tile(g0.open_doors@, a, b)
                    },
                self.show_minimap == g0.show_minimap,
                self.biscuits_eaten == g0.biscuits_eaten,
                self.is_alive == g0.is_alive,
                self.escaped == g0.escaped,
                self.floor_transition == g0.floor_transition,
                self.on_stair_tile == g0.on_stair_tile,
            decreases 4 - d,
        {
            let (dx, dy) = dir4(d);
            let nx = px as i32 + dx;
            let ny = py as i32 + dy;
            assert(step_index(ipx, ipy, nx as int, ny as int) == d);
            match map.get(nx, ny) {
                Some(tile) => {
                    if is_door(tile) {
                        assert(m0.cell(nx as int, ny as int) == tile);
                        let ghost before = self.open_doors@;
                        remember_door(&mut self.open_doors, OpenDoor { x: nx as usize, y: ny as usize, tile });
                        proof {
                            assert forall|k: int| 0 <= k < self.open_doors@.len() implies #[trigger] self.open_doors@[k].x <= i32::MAX && self.open_doors@[k].y <= i32::MAX && is_door_tile(self.open_doors@[k].tile) by {
                                if self.open_doors@[k] != (OpenDoor { x: nx as usize, y: ny as usize, tile }) {
                                    assert(before.contains(self.open_doors@[k]));
                                }
                            }
                        }
                        map.set(nx as usize, ny as usize, TILE_EMPTY);
                    }
                },
                None => {},
            }
            d = d + 1;
        }
        // Auto-close remembered doors far from the player.
        let ghost d1 = self.open_doors@;
        let ghost m1 = *map;
        proof {
            assert forall|a: int, b: int| #[trigger] door_tile(d1, a, b) == doors_opened(&g0, &m0, ipx, ipy, a, b) by {
                assert(adjacent((ipx, ipy), (a, b)) <==> step_index(ipx, ipy, a, b) < 4);
            }
            assert forall|a: int, b: int| m0.in_bounds(a, b) implies #[trigger] m1.cell(a, b) == cell_opened(&m0, ipx, ipy, a, b) by {
                assert(adjacent((ipx, ipy), (a, b)) <==> step_index(ipx, ipy, a, b) < 4);
            }
        }
        let mut kept: Vec<OpenDoor> = Vec::new();
        let ghost mut idx: Seq<int> = Seq::empty();
        let mut j: usize = 0;
        while j < self.open_doors.len()
            invariant
                self.open_doors@ == d1,
                keys_unique(d1),
                forall|k: int| 0 <= k < d1.len() ==> #[trigger] d1[k].x <= i32::MAX && d1[k].y <= i32::MAX && is_door_tile(d1[k].tile),
                0 <= j <= d1.len(),
                ipx == px,
                ipy == py,
                px < i32::MAX,
                py < i32::MAX,
                m1.wf(),
                map.wf(),
                map.spec_width() == m1.spec_width(),
                map.spec_height() == m1.spec_height(),
                m1.spec_width() <= i32::MAX,
                m1.spec_height() <= i32::MAX,
                forall|a: int, b: int|
                    m1.in_bounds(a, b) ==> #[trigger] map.cell(a, b) == match door_tile(d1.take(j as int), a, b) {
                        Some(t) => if far_from(a, b, ipx, ipy) && m1.cell(a, b) == TILE_EMPTY {
                            t
                        } else {
                            m1.cell(a, b)
                        },
                        None => m1.cell(a, b),
                    },
                idx.len() == kept@.len(),
                forall|k: int|
                    0 <= k < idx.len() ==> 0 <= #[trigger] idx[k] < j && kept@[k] == d1[idx[k]] && !far_from(
                        d1[idx[k]].x as int,
                        d1[idx[k]].y as int,
                        ipx,
                        ipy,
                    ),
                forall|k1: int, k2: int| 0 <= k1 < k2 < idx.len() ==> #[trigger] idx[k1] < #[trigger] idx[k2],
                forall|i: int|
                    0 <= i < j && !far_from(#[trigger] d1[i].x as int, d1[i].y as int, ipx, ipy) ==> exists|k: int|
                        0 <= k < idx.len() && #[trigger] idx[k] == i,
            decreases d1.len() - j,
        {
            let e = self.open_doors[j];
            let ddx: i64 = e.x as i64 - px as i64;
            let ddy: i64 = e.y as i64 - py as i64;
            let adx: i64 = if ddx < 0 { -ddx } else { ddx };
            let ady: i64 = if ddy < 0 { -ddy } else { ddy };
            proof {
                assert(d1.take(j as int + 1).drop_last() == d1.take(j as int));
                assert(d1.take(j as int + 1).last() == e);
                assert forall|i: int| 0 <= i < d1.take(j as int).len() implies !(#[trigger] d1.take(j as int)[i].x == e.x && d1.take(j as int)[i].y == e.y) by {
                    assert(d1.take(j as int)[i] == d1[i]);
                }
                lemma_door_tile_none(d1.take(j as int), e.x as int, e.y as int);
            }
            if adx + ady >= 3 {
                if map.get(e.x as i32, e.y as i32) == Some(TILE_EMPTY) {
                    map.set(e.x, e.y, e.tile);
                }
            } else {
                kept.push(e);
                proof {
                    let old_idx = idx;
                    idx = idx.push(j as int);
                    assert forall|i: int| 0 <= i < j + 1 && !far_from(#[trigger] d1[i].x as int, d1[i].y as int, ipx, ipy) implies exists|k: int| 0 <= k < idx.len() && #[trigger] idx[k] == i by {
                        if i == j {
                            assert(idx[idx.len() - 1] == i);
                        } else {
                            let k = choose|k: int| 0 <= k < old_idx.len() && #[trigger] old_idx[k] == i;
                            assert(idx[k] == old_idx[k]);
                        }
                    }
                }
            }
            j = j + 1;
        }
        proof {
            assert(d1.take(d1.len() as int) == d1);
            assert forall|p: int, q: int| #![trigger kept@[p], kept@[q]] 0 <= p < q < kept@.len() implies !(kept@[p].x == kept@[q].x && kept@[p].y == kept@[q].y) by {
                assert(idx[p] < idx[q]);
                assert(d1[idx[p]] == kept@[p] && d1[idx[q]] == kept@[q]);
            }
            assert forall|a: int, b: int| #[trigger] door_tile(kept@, a, b) == door_after_doors(&g0, &m0, ipx, ipy, a, b) by {
                if far_from(a, b, ipx, ipy) {
                    assert forall|k: int| 0 <= k < kept@.len() implies !(#[trigger] kept@[k].x == a && kept@[k].y == b) by {
                        assert(kept@[k] == d1[idx[k]]);
                    }
                    lemma_door_tile_none(kept@, a, b);
                } else if door_tile(d1, a, b) is Some {
                    lemma_door_tile_some(d1, a, b);
                    let i = choose|i: int| 0 <= i < d1.len() && #[trigger] d1[i].x == a && d1[i].y == b;
                    lemma_door_tile_at(d1, i);
                    assert(!far_from(d1[i].x as int, d1[i].y as int, ipx, ipy));
                    let k = choose|k: int| 0 <= k < idx.len() && #[trigger] idx[k] == i;
                    assert(kept@[k] == d1[i]);
                    lemma_door_tile_at(kept@, k);
                } else {
                    assert forall|k: int| 0 <= k < kept@.len() implies !(#[trigger] kept@[k].x == a && kept@[k].y == b) by {
                        assert(kept@[k] == d1[idx[k]]);
                        if kept@[k].x == a && kept@[k].y == b {
                            lemma_door_tile_at(d1, idx[k]);
                        }
                    }
                    lemma_door_tile_none(kept@, a, b);
                }
            }
            assert forall|k: int| 0 <= k < kept@.len() implies #[trigger] kept@[k].x <= i32::MAX && kept@[k].y <= i32::MAX && is_door_tile(kept@[k].tile) by {
                assert(kept@[k] == d1[idx[k]]);
            }
        }
        self.open_doors = kept;
    }

    /// Close every remembered door before the player leaves the floor: its
    /// tile comes back if the cell is still EMPTY, and all are forgotten.
    pub fn restore_all_doors(&mut self, map: &mut NobiscuitMap)
        requires
            old(self).wf(),
            old(map).wf(),
            old(map).spec_width() <= i32::MAX,
            old(map).spec_height() <= i32::MAX,
        ensures
            final(self).wf(),
            final(self).show_minimap == old(self).show_minimap,
            final(self).biscuits_eaten == old(self).biscuits_eaten,
            final(self).is_alive == old(self).is_alive,
            final(self).escaped == old(self).escaped,
            final(self).floor_transition == old(self).floor_transition,
            final(self).on_stair_tile == old(self).on_stair_tile,
            forall|a: int, b: int| #[trigger] final(self).remembered_door(a, b) is None,
            final(map).wf(),
            final(map).spec_width() == old(map).spec_width(),
            final(map).spec_height() == old(map).spec_height(),
            forall|a: int, b: int|
                old(map).in_bounds(a, b) ==> #[trigger] final(map).cell(a, b) == match old(self).remembered_door(a, b) {
                    Some(t) => if old(map).cell(a, b) == TILE_EMPTY {
                        t
                    } else {
                        old(map).cell(a, b)
                    },
                    None => old(map).cell(a, b),
                },
    {
        let ghost d1 = self.open_doors@;
        let ghost m1 = *map;
        let mut j: usize = 0;
        while j < self.open_doors.len()
            invariant
                self.open_doors@ == d1,
                keys_unique(d1),
                forall|k: int| 0 <= k < d1.len() ==> #[trigger] d1[k].x <= i32::MAX && d1[k].y <= i32::MAX && is_door_tile(d1[k].tile),
                0 <= j <= d1.len(),
                m1.wf(),
                map.wf(),
                map.spec_width() == m1.spec_width(),
                map.spec_height() == m1.spec_height(),
                m1.spec_width() <= i32::MAX,
                m1.spec_height() <= i32::MAX,
                forall|a: int, b: int|
                    m1.in_bounds(a, b) ==> #[trigger] map.cell(a, b) == match door_tile(d1.take(j as int), a, b) {
                        Some(t) => if m1.cell(a, b) == TILE_EMPTY {
                            t
                        } else {
                            m1.cell(a, b)
                        },
                        None => m1.cell(a, b),
                    },
            decreases d1.len() - j,
        {
            let e = self.open_doors[j];
            proof {
                assert(d1.take(j as int + 1).drop_last() == d1.take(j as int));
                assert(d1.take(j as int + 1).last() == e);
                assert forall|i: int| 0 <= i < d1.take(j as int).len() implies !(#[trigger] d1.take(j as int)[i].x == e.x && d1.take(j as int)[i].y == e.y) by {
                    assert(d1.take(j as int)[i] == d1[i]);
                }
                lemma_door_tile_none(d1.take(j as int), e.x as int, e.y as int);
            }
            if map.get(e.x as i32, e.y as i32) == Some(TILE_EMPTY) {
                map.set(e.x, e.y, e.tile);
            }
            j = j + 1;
        }
        proof {
            assert(d1.take(d1.len() as int) == d1);
        }
        self.open_doors = Vec::new();
        proof {
            assert forall|a: int, b: int| #[trigger] self.remembered_door(a, b) is None by {
                assert(self.open_doors@.len() == 0);
            }
        }
    }

    /// Take the pending floor change, if any: close every door held open on
    /// the floor being left (a door comes back where its cell is still
    /// EMPTY), move to the target floor, and arm the bounce guard. Returns
    /// the landing tile; with no change pending nothing happens.
    pub fn take_floor_transition(&mut self, world: &mut World) -> (p: Option<(usize, usize)>)
        requires
            old(self).wf(),
            old(world).current_floor < old(world).floors@.len(),
            old(world).floors@[old(world).current_floor as int].map.wf(),
            old(world).floors@[old(world).current_floor as int].map.spec_width() <= i32::MAX,
            old(world).floors@[old(world).current_floor as int].map.spec_height() <= i32::MAX,
            old(self).floor_transition matches Some(t) ==> t.target_floor < old(world).floors@.len() && arrival_map_ok(
                &old(world).floors@[t.target_floor as int].map,
            ),
        ensures
            old(self).floor_transition is None ==> p is None && *final(self) == *old(self) && *final(world) == *old(world),
            old(self).floor_transition matches Some(t) ==> {
                let cur = old(world).current_floor as int;
                let m0 = old(world).floors@[cur].map;
                &&& final(self).wf()
                &&& final(self).floor_transition is None
                &&& final(self).on_stair()
                &&& final(self).show_minimap == old(self).show_minimap
                &&& final(self).biscuits_eaten == old(self).biscuits_eaten
                &&& final(self).is_alive == old(self).is_alive
                &&& final(self).escaped == old(self).escaped
                &&& forall|a: int, b: int| #[trigger] final(self).remembered_door(a, b) is None
                &&& final(world).current_floor == t.target_floor
                &&& final(world).floors@.len() == old(world).floors@.len()
                &&& forall|i: int| 0 <= i < old(world).floors@.len() && i != cur ==> #[trigger] final(world).floors@[i] == old(world).floors@[i]
                &&& final(world).floors@[cur].sprites == old(world).floors@[cur].sprites
                &&& final(world).floors@[cur].map.wf()
                &&& final(world).floors@[cur].map.spec_width() == m0.spec_width()
                &&& final(world).floors@[cur].map.spec_height() == m0.spec_height()
                &&& forall|a: int, b: int|
                    m0.in_bounds(a, b) ==> #[trigger] final(world).floors@[cur].map.cell(a, b) == match old(self).remembered_door(a, b) {
                        Some(d) => if m0.cell(a, b) == TILE_EMPTY {
                            d
                        } else {
                            m0.cell(a, b)
                        },
                        None => m0.cell(a, b),
                    }
                &&& p matches Some(q) && arrival_ok(&final(world).floors@[t.target_floor as int].map, t.direction, q)
            },
    {
        match self.floor_transition {
            None => None,
            Some(t) => {
                self.floor_transition = None;
                let m = world.current_map_mut();
                self.restore_all_doors(m);
                let ghost w1 = *world;
                assert(w1.floors@[t.target_floor as int].map.wf());
                assert(arrival_map_ok(&w1.floors@[t.target_floor as int].map));
                let q = world.change_floor(t.target_floor, t.direction);
                self.mark_on_stair();
                Some(q)
            },
        }
    }

    /// One frame of game rules for the player standing on tile
    /// `(player_x, player_y)`; `near[i]` tells whether sprite `i` of the
    /// current floor is within reach, and `starved` whether hunger ran out
    /// this frame. Returns the number of biscuits eaten.
    ///
    /// Nothing happens once the player died or escaped. A starved player
    /// dies. Otherwise doors open and close around the player, then stairs
    /// under the player start a floor change (unless the bounce guard is
    /// armed or a change is pending), and if none starts, biscuits in reach
    /// are eaten and a goal in reach ends the game as escaped.
    pub fn update(&mut self, world: &mut World, player_x: usize, player_y: usize, starved: bool, near: &Vec<bool>) -> (eaten: u32)
        requires
            old(self).wf(),
            old(world).current_floor < old(world).floors@.len(),
            old(world).floors@[old(world).current_floor as int].map.wf(),
            old(world).floors@[old(world).current_floor as int].map.spec_width() <= i32::MAX,
            old(world).floors@[old(world).current_floor as int].map.spec_height() <= i32::MAX,
            player_x < i32::MAX,
            player_y < i32::MAX,
            near@.len() == old(world).floors@[old(world).current_floor as int].sprites@.len(),
            old(self).biscuits_eaten + near@.len() <= u32::MAX,
        ensures
            final(self).wf(),
            final(self).show_minimap == old(self).show_minimap,
            final(world).current_floor == old(world).current_floor,
            final(world).floors@.len() == old(world).floors@.len(),
            forall|i: int|
                0 <= i < old(world).floors@.len() && i != old(world).current_floor ==> #[trigger] final(world).floors@[i]
                    == old(world).floors@[i],
            !old(self).is_alive || old(self).escaped ==> *final(self) == *old(self) && *final(world)
                == *old(world) && eaten == 0,
            old(self).is_alive && !old(self).escaped && starved ==> {
                &&& !final(self).is_alive
                &&& final(self).escaped == old(self).escaped
                &&& final(self).biscuits_eaten == old(self).biscuits_eaten
                &&& final(self).floor_transition == old(self).floor_transition
                &&& final(self).on_stair_tile == old(self).on_stair_tile
                &&& final(self).open_doors == old(self).open_doors
                &&& *final(world) == *old(world)
                &&& eaten == 0
            },
            old(self).is_alive && !old(self).escaped && !starved ==> played(
                old(self),
                old(world),
                player_x as int,
                player_y as int,
                near@,
                final(self),
                final(world),
                eaten as int,
            ),
    {
        if !self.is_alive || self.escaped {
            return 0;
        }
        if starved {
            self.is_alive = false;
            return 0;
        }
        let ghost g0 = *self;
        let ghost w0 = *world;
        let ghost cur = world.current_floor as int;
        let m = world.current_map_mut();
        assert(*m == w0.floors@[cur].map);
        self.update_doors(m, player_x, player_y);
        assert(forall|a: int, b: int| #[trigger] self.remembered_door(a, b) == door_after_doors(&g0, &w0.floors@[cur].map, player_x as int, player_y as int, a, b));
        let ghost g1 = *self;
        let ghost w1 = *world;
        proof {
            lemma_doors_keep_stairs(&g0, &w0, &w1, player_x as int, player_y as int);
        }
        let t = world.check_stairs(player_x as i32, player_y as i32);
        if self.on_stair_tile && t.is_none() {
            self.on_stair_tile = false;
        }
        proof {
            let m0 = w0.floors@[cur].map;
            let m1 = w1.floors@[cur].map;
            assert(self.on_stair_tile == guard_after(&g0, stairs_transition(&w0, player_x as int, player_y as int)));
            assert(self.open_doors == g1.open_doors);
            assert forall|a: int, b: int| #[trigger] self.remembered_door(a, b) == door_after_doors(&g0, &m0, player_x as int, player_y as int, a, b) by {
                assert(g1.remembered_door(a, b) == door_after_doors(&g0, &m0, player_x as int, player_y as int, a, b));
            }
            assert(m1.wf());
            assert(forall|a: int, b: int|
                m0.in_bounds(a, b) ==> #[trigger] m1.cell(a, b) == cell_after_doors(&g0, &m0, player_x as int, player_y as int, a, b));
        }
        if self.floor_transition.is_none() && !self.on_stair_tile && t.is_some() {
            self.floor_transition = t;
            proof {
                assert(self.open_doors == g1.open_doors);
                assert forall|a: int, b: int| #[trigger] self.remembered_door(a, b) == door_after_doors(&g0, &w0.floors@[cur].map, player_x as int, player_y as int, a, b) by {
                    assert(g1.remembered_door(a, b) == door_after_doors(&g0, &w0.floors@[cur].map, player_x as int, player_y as int, a, b));
                }
            }
            return 0;
        }
        let eaten = self.pick_up(world.current_sprites_mut(), near);
        proof {
            assert(world.floors@[cur].map == w1.floors@[cur].map);
            assert(self.open_doors == g1.open_doors);
            assert forall|a: int, b: int| #[trigger] self.remembered_door(a, b) == door_after_doors(&g0, &w0.floors@[cur].map, player_x as int, player_y as int, a, b) by {
                assert(g1.remembered_door(a, b) == door_after_doors(&g0, &w0.floors@[cur].map, player_x as int, player_y as int, a, b));
            }
        }
        eaten
    }

    /// Eat every biscuit the player is close to (`near[i]` tells whether
    /// sprite `i` is within reach), stopping at a goal in reach, which ends
    /// the game as escaped. Returns the number of biscuits eaten.
    ///
    /// Eaten biscuits are removed by swapping the last sprite into their slot.
    pub fn pick_up(&mut self, sprites: &mut Vec<Sprite>, near: &Vec<bool>) -> (eaten: u32)
        requires
            old(sprites)@.len() == near@.len(),
            old(self).biscuits_eaten + old(sprites)@.len() <= u32::MAX,
        ensures
            eaten == old(sprites)@.len() - final(sprites)@.len(),
            final(self).biscuits_eaten == old(self).biscuits_eaten + eaten,
            final(self).escaped == (old(self).escaped || goal_reached(old(sprites)@, near@)),
            !goal_reached(old(sprites)@, near@) ==> final(sprites)@.to_multiset() == uneaten(
                old(sprites)@,
                near@,
            ).to_multiset(),
            meal(old(sprites)@, near@, 0) == (final(sprites)@, eaten as int, goal_reached(
                old(sprites)@,
                near@,
            )),
            final(self).show_minimap == old(self).show_minimap,
            final(self).is_alive == old(self).is_alive,
            final(self).floor_transition == old(self).floor_transition,
            final(self).on_stair_tile == old(self).on_stair_tile,
            final(self).open_doors == old(self).open_doors,
    {
        broadcast use vstd::seq_lib::group_to_multiset_ensures;
        broadcast use vstd::multiset::group_multiset_axioms;

        let ghost s0 = sprites@;
        let ghost n0 = near@;
        let mut close: Vec<bool> = Vec::new();
        let mut k: usize = 0;
        while k < near.len()
            invariant
                0 <= k <= near@.len(),
                close@ == near@.take(k as int),
            decreases near@.len() - k,
        {
            close.push(near[k]);
            assert(close@ == near@.take(k as int + 1));
            k = k + 1;
        }
        assert(close@ == n0);
        let ghost mut removed: Seq<(Sprite, bool)> = Seq::empty();
        let mut eaten: u32 = 0;
        let mut goal = false;
        let mut i: usize = 0;
        while i < sprites.len() && !goal
            invariant
                sprites@.len() == close@.len(),
                s0.len() == n0.len(),
                0 <= i <= sprites@.len(),
                paired(sprites@, close@).to_multiset().add(removed.to_multiset()) == paired(s0, n0).to_multiset(),
                forall|r: int| 0 <= r < removed.len() ==> edible(#[trigger] removed[r].0, removed[r].1),
                forall|q: int|
                    0 <= q < i ==> !edible(#[trigger] sprites@[q], close@[q]) && !(sprites@[q].sprite_type
                        == SPRITE_GOAL && close@[q]),
                goal ==> i < sprites@.len() && sprites@[i as int].sprite_type == SPRITE_GOAL && close@[i as int],
                eaten == removed.len(),
                ({
                    let r = meal(sprites@, close@, i as int);
                    meal(s0, n0, 0) == (r.0, r.1 + eaten, r.2)
                }),
                removed.len() + sprites@.len() == s0.len(),
                self.biscuits_eaten + s0.len() <= u32::MAX,
            decreases sprites@.len() - i + (if goal { 0int } else { 1int }),
        {
            let sp = sprites[i];
            let nr = close[i];
            if nr && sp.sprite_type == SPRITE_BISCUIT {
                let ghost z = paired(sprites@, close@);
                let ghost sb = sprites@;
                let ghost cb = close@;
                proof {
                    lemma_swap_remove_multiset(z, i as int);
                }
                sprites.swap_remove(i);
                close.swap_remove(i);
                proof {
                    broadcast use vstd::seq_lib::group_to_multiset_ensures;
                    broadcast use vstd::multiset::group_multiset_axioms;
                    assert(paired(sprites@, close@) =~= z.update(i as int, z.last()).drop_last());
                    let p = z[i as int];
                    assert(z[i as int] == p);
                    assert(z.contains(p));
                    assert(z.to_multiset().count(p) > 0);
                    let r0 = removed;
                    removed = removed.push(p);
                    assert(removed.to_multiset() == r0.to_multiset().insert(p));
                    let zn = paired(sprites@, close@);
                    assert(zn.to_multiset() == z.to_multiset().remove(p));
                    assert forall|x: (Sprite, bool)| zn.to_multiset().add(removed.to_multiset()).count(x) == z.to_multiset().add(r0.to_multiset()).count(x) by {
                    }
                    assert(zn.to_multiset().add(removed.to_multiset()) =~= paired(s0, n0).to_multiset());
                    assert forall|q: int| 0 <= q < i implies !edible(#[trigger] sprites@[q], close@[q]) && !(sprites@[q].sprite_type == SPRITE_GOAL && close@[q]) by {
                        assert(sprites@[q] == z[q].0 && close@[q] == z[q].1);
                    }
                }
                assert(meal(sb, cb, i as int).1 == meal(sprites@, close@, i as int).1 + 1);
                eaten = eaten + 1;
            } else if nr && sp.sprite_type == SPRITE_GOAL {
                goal = true;
            } else {
                assert(meal(sprites@, close@, i as int) == meal(sprites@, close@, i + 1));
                i = i + 1;
            }
        }
        self.biscuits_eaten = self.biscuits_eaten + eaten;
        proof {
            let zc = paired(sprites@, close@);
            let z0 = paired(s0, n0);
            assert forall|p: (Sprite, bool)| !edible(p.0, p.1) implies removed.to_multiset().count(p) == 0 by {
                if removed.contains(p) {
                    let r = choose|r: int| 0 <= r < removed.len() && removed[r] == p;
                }
            }
            if goal {
                let p = zc[i as int];
                assert(zc[i as int] == p);
                assert(zc.contains(p));
                assert(zc.to_multiset().count(p) > 0);
                assert(zc.to_multiset().add(removed.to_multiset()).count(p) == zc.to_multiset().count(p) + removed.to_multiset().count(p));
                assert(z0.to_multiset().count(p) > 0);
                assert(z0.contains(p));
                let q = choose|q: int| 0 <= q < z0.len() && z0[q] == p;
                assert(s0[q].sprite_type == SPRITE_GOAL && n0[q]);
                assert(goal_reached(s0, n0));
            } else {
                assert forall|q: int| 0 <= q < s0.len() && #[trigger] s0[q].sprite_type == SPRITE_GOAL implies !n0[q] by {
                    if n0[q] {
                        let p = z0[q];
                        assert(z0[q] == p);
                        assert(z0.contains(p));
                        assert(z0.to_multiset().count(p) > 0);
                        assert(removed.to_multiset().count(p) == 0);
                        assert(zc.to_multiset().add(removed.to_multiset()).count(p) == zc.to_multiset().count(p) + removed.to_multiset().count(p));
                        assert(zc.to_multiset().count(p) > 0);
                        assert(zc.contains(p));
                        let m = choose|m: int| 0 <= m < zc.len() && zc[m] == p;
                        assert(sprites@[m] == p.0 && close@[m] == p.1);
                    }
                }
                assert(!goal_reached(s0, n0));
                assert forall|q: int| 0 <= q < sprites@.len() implies !edible(#[trigger] sprites@[q], close@[q]) by {
                }
                lemma_uneaten_all(sprites@, close@);
                assert forall|x: Sprite| #[trigger] uneaten(s0, n0).to_multiset().count(x) == uneaten(sprites@, close@).to_multiset().count(x) by {
                    lemma_uneaten_count(s0, n0, x);
                    lemma_uneaten_count(sprites@, close@, x);
                    assert(removed.to_multiset().count((x, false)) == 0);
                    if x.sprite_type != SPRITE_BISCUIT {
                        assert(removed.to_multiset().count((x, true)) == 0);
                    }
                }
                assert(uneaten(s0, n0).to_multiset() =~= sprites@.to_multiset());
            }
        }
        if goal {
            self.escaped = true;
        }
        eaten
    }
}

/// Remember `e`, replacing what was remembered for its position.
fn remember_door(doors: &mut Vec<OpenDoor>, e: OpenDoor)
    requires
        keys_unique(old(doors)@),
    ensures
        keys_unique(final(doors)@),
        forall|a: int, b: int|
            #[trigger] door_tile(final(doors)@, a, b) == if a == e.x && b == e.y {
                Some(e.tile)
            } else {
                door_tile(old(doors)@, a, b)
            },
        forall|k: int|
            0 <= k < final(doors)@.len() ==> #[trigger] final(doors)@[k] == e || old(doors)@.contains(
                final(doors)@[k],
            ),
{
    let ghost d0 = doors@;
    let mut i: usize = 0;
    let mut found = false;
    while i < doors.len() && !found
        invariant
            doors@ == d0,
            0 <= i <= doors@.len(),
            found ==> i < doors@.len() && doors@[i as int].x == e.x && doors@[i as int].y == e.y,
            !found ==> forall|k: int| 0 <= k < i ==> !(#[trigger] doors@[k].x == e.x && doors@[k].y == e.y),
        decreases doors@.len() - i + (if found { 0int } else { 1int }),
    {
        if doors[i].x == e.x && doors[i].y == e.y {
            found = true;
        } else {
            i = i + 1;
        }
    }
    if found {
        doors.set(i, e);
        proof {
            assert forall|p: int, q: int| #![trigger doors@[p], doors@[q]] 0 <= p < q < doors@.len() implies !(doors@[p].x == doors@[q].x && doors@[p].y == doors@[q].y) by {
                assert(d0[p].x == doors@[p].x && d0[p].y == doors@[p].y);
                assert(d0[q].x == doors@[q].x && d0[q].y == doors@[q].y);
                assert(d0[p] == d0[p] && d0[q] == d0[q]);
            }
            assert forall|a: int, b: int| #[trigger] door_tile(doors@, a, b) == if a == e.x && b == e.y { Some(e.tile) } else { door_tile(d0, a, b) } by {
                if a == e.x && b == e.y {
                    lemma_door_tile_at(doors@, i as int);
                } else if door_tile(d0, a, b) is Some {
                    lemma_door_tile_some(d0, a, b);
                    let k = choose|k: int| 0 <= k < d0.len() && #[trigger] d0[k].x == a && d0[k].y == b;
                    lemma_door_tile_at(d0, k);
                    assert(doors@[k] == d0[k]);
                    lemma_door_tile_at(doors@, k);
                } else {
                    assert forall|k: int| 0 <= k < doors@.len() implies !(#[trigger] doors@[k].x == a && doors@[k].y == b) by {
                        if k != i {
                            assert(doors@[k] == d0[k]);
                            if d0[k].x == a && d0[k].y == b {
                                lemma_door_tile_at(d0, k);
                            }
                        }
                    }
                    lemma_door_tile_none(doors@, a, b);
                }
            }
            assert forall|k: int| 0 <= k < doors@.len() implies #[trigger] doors@[k] == e || d0.contains(doors@[k]) by {
                if k != i {
                    assert(doors@[k] == d0[k]);
                }
            }
        }
    } else {
        doors.push(e);
        proof {
            assert(doors@.drop_last() == d0);
            assert forall|p: int, q: int| #![trigger doors@[p], doors@[q]] 0 <= p < q < doors@.len() implies !(doors@[p].x == doors@[q].x && doors@[p].y == doors@[q].y) by {
                if q == doors@.len() - 1 {
                    assert(doors@[p] == d0[p]);
                } else {
                    assert(doors@[p] == d0[p] && doors@[q] == d0[q]);
                }
            }
            assert forall|a: int, b: int| #[trigger] door_tile(doors@, a, b) == if a == e.x && b == e.y { Some(e.tile) } else { door_tile(d0, a, b) } by {
            }
            assert forall|k: int| 0 <= k < doors@.len() implies #[trigger] doors@[k] == e || d0.contains(doors@[k]) by {
                if k < d0.len() {
                    assert(doors@[k] == d0[k]);
                }
            }
        }
    }
}
/// A biscuit the player is close enough to eat.
pub open spec fn edible(s: Sprite, near: bool) -> bool {
    near && s.sprite_type == SPRITE_BISCUIT
}

/// The meal taken by scanning the sprites from index `i`: an edible biscuit
/// is eaten by moving the last sprite into its slot (and the scan looks at
/// that slot again); a goal in reach stops the scan. Gives the sprites left,
/// how many were eaten, and whether a goal stopped the scan.
pub open spec fn meal(s: Seq<Sprite>, near: Seq<bool>, i: int) -> (Seq<Sprite>, int, bool)
    decreases s.len() - i,
{
    if i < 0 || i >= s.len() {
        (s, 0, false)
    } else if edible(s[i], near[i]) {
        let r = meal(
            s.update(i, s.last()).drop_last(),
            near.update(i, near.last()).drop_last(),
            i,
        );
        (r.0, r.1 + 1, r.2)
    } else if s[i].sprite_type == SPRITE_GOAL && near[i] {
        (s, 0, true)
    } else {
        meal(s, near, i + 1)
    }
}

/// Some goal sprite is close enough to reach.
pub open spec fn goal_reached(s: Seq<Sprite>, near: Seq<bool>) -> bool {
    exists|i: int| 0 <= i < s.len() && #[trigger] s[i].sprite_type == SPRITE_GOAL && near[i]
}

/// The sprites left once every edible biscuit is eaten (`near[i]` tells
/// whether the player is close to `s[i]`).
pub open spec fn uneaten(s: Seq<Sprite>, near: Seq<bool>) -> Seq<Sprite>
    decreases s.len(),
{
    if s.len() == 0 {
        seq![]
    } else {
        let rest = uneaten(s.drop_last(), near.drop_last());
        if edible(s.last(), near[s.len() - 1]) {
            rest
        } else {
            rest.push(s.last())
        }
    }
}

/// Each sprite with its closeness flag.
spec fn paired(s: Seq<Sprite>, near: Seq<bool>) -> Seq<(Sprite, bool)> {
    Seq::new(s.len(), |i: int| (s[i], near[i]))
}

/// How often `x` survives the meal, counted over the pairs.
proof fn lemma_uneaten_count(s: Seq<Sprite>, near: Seq<bool>, x: Sprite)
    requires
        s.len() == near.len(),
    ensures
        uneaten(s, near).to_multiset().count(x) == paired(s, near).to_multiset().count((x, false))
            + if x.sprite_type != SPRITE_BISCUIT {
            paired(s, near).to_multiset().count((x, true))
        } else {
            0
        },
    decreases s.len(),
{
    broadcast use vstd::seq_lib::group_to_multiset_ensures;
    broadcast use vstd::multiset::group_multiset_axioms;

    if s.len() == 0 {
        assert(paired(s, near) =~= Seq::<(Sprite, bool)>::empty());
        assert(uneaten(s, near) =~= Seq::<Sprite>::empty());
    } else {
        let s1 = s.drop_last();
        let n1 = near.drop_last();
        lemma_uneaten_count(s1, n1, x);
        assert(paired(s, near) =~= paired(s1, n1).push((s.last(), near[s.len() - 1])));
    }
}

/// With nothing edible, nothing is eaten.
proof fn lemma_uneaten_all(s: Seq<Sprite>, near: Seq<bool>)
    requires
        s.len() == near.len(),
        forall|i: int| 0 <= i < s.len() ==> !edible(#[trigger] s[i], near[i]),
    ensures
        uneaten(s, near) == s,
    decreases s.len(),
{
    if s.len() > 0 {
        let s1 = s.drop_last();
        let n1 = near.drop_last();
        assert forall|i: int| 0 <= i < s1.len() implies !edible(#[trigger] s1[i], n1[i]) by {
            assert(s1[i] == s[i] && n1[i] == near[i]);
        }
        lemma_uneaten_all(s1, n1);
        assert(!edible(s[s.len() - 1], near[s.len() - 1]));
        assert(s1.push(s.last()) =~= s);
    }
}

/// Moving the last entry into slot `i` and dropping the last slot removes
/// one copy of the entry at `i`.
proof fn lemma_swap_remove_multiset<A>(z: Seq<A>, i: int)
    requires
        0 <= i < z.len(),
    ensures
        z.update(i, z.last()).drop_last().to_multiset() == z.to_multiset().remove(z[i]),
{
    broadcast use vstd::seq_lib::group_to_multiset_ensures;
    broadcast use vstd::multiset::group_multiset_axioms;

    let t = z.update(i, z.last());
    assert(t =~= t.drop_last().push(t.last()));
    assert(t.last() == z.last());
    let a = t.drop_last().to_multiset();
    let b = z.to_multiset();
    assert(t.to_multiset() == a.insert(z.last()));
    assert(t.to_multiset() == b.insert(z.last()).remove(z[i]));
    assert(z[i] == z[i]);
    assert(z.contains(z[i]));
    assert(b.count(z[i]) > 0);
    assert forall|x: A| a.count(x) == b.remove(z[i]).count(x) by {
        assert(a.insert(z.last()).count(x) == b.insert(z.last()).remove(z[i]).count(x));
    }
    assert(a =~= b.remove(z[i]));
}

/// Whether the bounce guard stays armed: only while the player is still on stairs.
pub open spec fn guard_after(g: &GameState, t: Option<StairTransition>) -> bool {
    g.on_stair_tile && t is Some
}

/// Whether stairs under the player start a floor change now.
pub open spec fn takes_stairs(g: &GameState, t: Option<StairTransition>) -> bool {
    g.floor_transition is None && !guard_after(g, t) && t is Some
}

/// One frame of play for a living player who has not escaped and did not
/// starve: `g0`/`w0` before, `g`/`w` after, the player on tile `(px, py)`,
/// `near[i]` telling whether sprite `i` of the current floor is in reach.
pub open spec fn played(
    g0: &GameState,
    w0: &World,
    px: int,
    py: int,
    near: Seq<bool>,
    g: &GameState,
    w: &World,
    eaten: int,
) -> bool {
    let cur = w0.current_floor as int;
    let m0 = w0.floors@[cur].map;
    let s0 = w0.floors@[cur].sprites@;
    let t = stairs_transition(w0, px, py);
    let m = w.floors@[cur].map;
    let s = w.floors@[cur].sprites@;
    &&& g.is_alive
    &&& g.on_stair_tile == guard_after(g0, t)
    &&& forall|a: int, b: int| #[trigger] g.remembered_door(a, b) == door_after_doors(g0, &m0, px, py, a, b)
    &&& m.wf()
    &&& m.spec_width() == m0.spec_width()
    &&& m.spec_height() == m0.spec_height()
    &&& forall|a: int, b: int|
        m0.in_bounds(a, b) ==> #[trigger] m.cell(a, b) == cell_after_doors(g0, &m0, px, py, a, b)
    &&& if takes_stairs(g0, t) {
        &&& g.floor_transition == t
        &&& eaten == 0
        &&& s == s0
        &&& g.escaped == g0.escaped
        &&& g.biscuits_eaten == g0.biscuits_eaten
    } else {
        &&& g.floor_transition == g0.floor_transition
        &&& eaten == s0.len() - s.len()
        &&& g.biscuits_eaten == g0.biscuits_eaten + eaten
        &&& g.escaped == (g0.escaped || goal_reached(s0, near))
        &&& !goal_reached(s0, near) ==> s.to_multiset() == uneaten(s0, near).to_multiset()
        &&& meal(s0, near, 0) == (s, eaten, goal_reached(s0, near))
    }
}

/// Arriving on stairs never bounces back: over any run of frames of play
/// (`played`, frame `i` taking state `gs[i]` and world `ws[i]` to
/// `gs[i + 1]` and `ws[i + 1]`) that starts with the bounce guard armed and
/// no change pending, and in which the player stands on stairs every frame,
/// the guard stays armed and no floor change starts.
pub proof fn lemma_bounce_guard_holds(
    gs: Seq<GameState>,
    ws: Seq<World>,
    ps: Seq<(int, int)>,
    nears: Seq<Seq<bool>>,
    eats: Seq<int>,
)
    requires
        gs.len() == ps.len() + 1,
        ws.len() == ps.len() + 1,
        nears.len() == ps.len(),
        eats.len() == ps.len(),
        gs[0].on_stair(),
        gs[0].floor_transition is None,
        forall|i: int|
            0 <= i < ps.len() ==> #[trigger] played(&gs[i], &ws[i], ps[i].0, ps[i].1, nears[i], &gs[i + 1], &ws[i + 1], eats[i])
                && stairs_transition(&ws[i], ps[i].0, ps[i].1) is Some,
    ensures
        forall|i: int| 0 <= i < gs.len() ==> #[trigger] gs[i].on_stair() && gs[i].floor_transition is None,
    decreases ps.len(),
{
    if ps.len() > 0 {
        let n = ps.len() - 1;
        let gs1 = gs.drop_last();
        let ws1 = ws.drop_last();
        let ps1 = ps.drop_last();
        let nears1 = nears.drop_last();
        let eats1 = eats.drop_last();
        assert forall|i: int|
            0 <= i < ps1.len() implies #[trigger] played(&gs1[i], &ws1[i], ps1[i].0, ps1[i].1, nears1[i], &gs1[i + 1], &ws1[i + 1], eats1[i])
                && stairs_transition(&ws1[i], ps1[i].0, ps1[i].1) is Some by {
            assert(played(&gs[i], &ws[i], ps[i].0, ps[i].1, nears[i], &gs[i + 1], &ws[i + 1], eats[i]));
        }
        lemma_bounce_guard_holds(gs1, ws1, ps1, nears1, eats1);
        assert(gs1[n] == gs[n]);
        assert(gs[n].on_stair() && gs[n].floor_transition is None);
        assert(played(&gs[n], &ws[n], ps[n].0, ps[n].1, nears[n], &gs[n + 1], &ws[n + 1], eats[n]));
        assert forall|i: int| 0 <= i < gs.len() implies #[trigger] gs[i].on_stair() && gs[i].floor_transition is None by {
            if i < gs1.len() {
                assert(gs1[i] == gs[i]);
            }
        }
    }
}

/// The door step never creates or removes stairs, so the floor change it
/// leads to is the one the old map gives.
proof fn lemma_doors_keep_stairs(g0: &GameState, w0: &World, w1: &World, px: int, py: int)
    requires
        g0.wf(),
        w0.current_floor < w0.floors@.len(),
        w1.current_floor == w0.current_floor,
        w1.floors@.len() == w0.floors@.len(),
        ({
            let cur = w0.current_floor as int;
            let m0 = w0.floors@[cur].map;
            let m1 = w1.floors@[cur].map;
            &&& m1.spec_width() == m0.spec_width()
            &&& m1.spec_height() == m0.spec_height()
            &&& forall|a: int, b: int|
                m0.in_bounds(a, b) ==> #[trigger] m1.cell(a, b) == cell_after_doors(g0, &m0, px, py, a, b)
        }),
    ensures
        stairs_transition(w1, px, py) == stairs_transition(w0, px, py),
{
    let cur = w0.current_floor as int;
    let m0 = w0.floors@[cur].map;
    let m1 = w1.floors@[cur].map;
    if m0.in_bounds(px, py) {
        let c0 = m0.cell(px, py);
        let c1 = m1.cell(px, py);
        if g0.remembered_door(px, py) is Some {
            lemma_door_tile_some(g0.open_doors@, px, py);
            let k = choose|k: int| 0 <= k < g0.open_doors@.len() && #[trigger] g0.open_doors@[k].x == px && g0.open_doors@[k].y == py;
            lemma_door_tile_at(g0.open_doors@, k);
        }
        assert((c1 == TILE_STAIRS_UP) == (c0 == TILE_STAIRS_UP));
        assert((c1 == TILE_STAIRS_DOWN) == (c0 == TILE_STAIRS_DOWN));
    }
}

/// A door opened because the player stood next to it closes again, with
/// its own tile, on a later door step with the player three or more steps
/// away, provided its cell stayed EMPTY in between.
pub proof fn lemma_door_round_trip(
    g0: &GameState,
    m0: &NobiscuitMap,
    p: (int, int),
    g1: &GameState,
    m1: &NobiscuitMap,
    q: (int, int),
    a: int,
    b: int,
)
    requires
        g0.wf(),
        door_next_to(m0, p.0, p.1, a, b),
        forall|x: int, y: int| #[trigger] g1.remembered_door(x, y) == door_after_doors(g0, m0, p.0, p.1, x, y),
        m1.spec_width() == m0.spec_width(),
        m1.spec_height() == m0.spec_height(),
        m1.cell(a, b) == cell_after_doors(g0, m0, p.0, p.1, a, b),
        far_from(a, b, q.0, q.1),
    ensures
        m1.cell(a, b) == TILE_EMPTY,
        g1.remembered_door(a, b) == Some(m0.cell(a, b)),
        cell_after_doors(g1, m1, q.0, q.1, a, b) == m0.cell(a, b),
        door_after_doors(g1, m1, q.0, q.1, a, b) is None,
{
    assert(g1.remembered_door(a, b) == door_after_doors(g0, m0, p.0, p.1, a, b));
}

/// The bounce guard: while it is armed and the player stands on stairs, no
/// floor change starts and the guard stays armed; once the player stands
/// off stairs, the guard is released.
pub proof fn lemma_bounce_guard(g: &GameState, t: Option<StairTransition>)
    ensures
        g.on_stair_tile && t is Some ==> !takes_stairs(g, t) && guard_after(g, t),
        t is None ==> !guard_after(g, t) && !takes_stairs(g, t),
        !g.on_stair_tile && g.floor_transition is None && t is Some ==> takes_stairs(g, t),
{
}

} // verus!
