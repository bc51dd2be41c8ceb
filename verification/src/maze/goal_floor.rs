//! The fixed top floor: descend-stairs, a short corridor, a fusuma, and
//! Nobita's room with the goal in its centre.

use vstd::prelude::*;
use crate::map::TileMap;
use crate::maze::interior;
use crate::maze::reach::{reachable, walkable_at, passable_at, fully_connected, is_seed, lemma_single_walk, lemma_extend_walk};
use crate::nobiscuit_map::NobiscuitMap;
use crate::tiles::{TileType, TILE_WALL, TILE_VOID, TILE_EMPTY, TILE_GOAL, TILE_DOOR_FUSUMA, TILE_STAIRS_DOWN, TILE_STAIRS_UP, is_walkable_tile, is_passable_tile};

verus! {

/// Side of the square template.
pub const GOAL_TEMPLATE_SIZE: usize = 11;

/// Row `r` of the top-floor template: `#` wall, `V` void, `.` floor, `G` goal,
/// `F` fusuma, `D` stairs down. Sized 11 x 11 so it fits the smallest maze.
pub open spec fn goal_template(r: int) -> Seq<char> {
    if r == 0 {
        seq!['#', '#', '#', '#', '#', '#', '#', '#', '#', '#', '#']
    } else if r == 1 {
        seq!['#', 'V', 'V', 'V', 'V', 'V', 'V', 'V', 'V', 'V', '#']
    } else if r == 2 {
        seq!['#', 'V', '#', '#', '#', '#', '#', '#', '#', 'V', '#']
    } else if r == 3 {
        seq!['#', 'V', '#', '.', '.', '.', '.', '.', '#', 'V', '#']
    } else if r == 4 {
        seq!['#', 'V', '#', '.', '.', 'G', '.', '.', '#', 'V', '#']
    } else if r == 5 {
        seq!['#', 'V', '#', '.', '.', '.', '.', '.', '#', 'V', '#']
    } else if r == 6 {
        seq!['#', 'V', '#', '#', '#', 'F', '#', '#', '#', 'V', '#']
    } else if r == 7 {
        seq!['#', 'V', '#', '#', '#', '.', '#', '#', '#', 'V', '#']
    } else if r == 8 {
        seq!['#', 'V', '#', '#', '#', 'D', '#', '#', '#', 'V', '#']
    } else if r == 9 {
        seq!['#', 'V', 'V', 'V', 'V', 'V', 'V', 'V', 'V', 'V', '#']
    } else {
        seq!['#', '#', '#', '#', '#', '#', '#', '#', '#', '#', '#']
    }
}

/// Row `r` of the top-floor template.
pub fn goal_template_row(r: usize) -> (row: [char; 11])
    requires
        r < GOAL_TEMPLATE_SIZE,
    ensures
        row@ == goal_template(r as int),
{
    if r == 0 {
        ['#', '#', '#', '#', '#', '#', '#', '#', '#', '#', '#']
    } else if r == 1 {
        ['#', 'V', 'V', 'V', 'V', 'V', 'V', 'V', 'V', 'V', '#']
    } else if r == 2 {
        ['#', 'V', '#', '#', '#', '#', '#', '#', '#', 'V', '#']
    } else if r == 3 {
        ['#', 'V', '#', '.', '.', '.', '.', '.', '#', 'V', '#']
    } else if r == 4 {
        ['#', 'V', '#', '.', '.', 'G', '.', '.', '#', 'V', '#']
    } else if r == 5 {
        ['#', 'V', '#', '.', '.', '.', '.', '.', '#', 'V', '#']
    } else if r == 6 {
        ['#', 'V', '#', '#', '#', 'F', '#', '#', '#', 'V', '#']
    } else if r == 7 {
        ['#', 'V', '#', '#', '#', '.', '#', '#', '#', 'V', '#']
    } else if r == 8 {
        ['#', 'V', '#', '#', '#', 'D', '#', '#', '#', 'V', '#']
    } else if r == 9 {
        ['#', 'V', 'V', 'V', 'V', 'V', 'V', 'V', 'V', 'V', '#']
    } else {
        ['#', '#', '#', '#', '#', '#', '#', '#', '#', '#', '#']
    }
}

/// The tile a template character stands for (unknown characters are walls).
pub open spec fn template_tile_spec(ch: char) -> TileType {
    if ch == '#' {
        TILE_WALL
    } else if ch == 'V' {
        TILE_VOID
    } else if ch == '.' {
        TILE_EMPTY
    } else if ch == 'G' {
        TILE_GOAL
    } else if ch == 'F' {
        TILE_DOOR_FUSUMA
    } else if ch == 'D' {
        TILE_STAIRS_DOWN
    } else {
        TILE_WALL
    }
}

/// The tile a template character stands for.
pub fn template_tile(ch: char) -> (t: TileType)
    ensures
        t == template_tile_spec(ch),
{
    match ch {
        '#' => TILE_WALL,
        'V' => TILE_VOID,
        '.' => TILE_EMPTY,
        'G' => TILE_GOAL,
        'F' => TILE_DOOR_FUSUMA,
        'D' => TILE_STAIRS_DOWN,
        _ => TILE_WALL,
    }
}

/// Tile of the goal floor at `(a, b)` for a `w` x `h` map: the template,
/// cropped to the map and centred, over a VOID interior inside a wall ring.
pub open spec fn goal_floor_tile(w: int, h: int, a: int, b: int) -> TileType {
    let tw = if w < 11 { w } else { 11 };
    let th = if h < 11 { h } else { 11 };
    let sx = (w - tw) / 2;
    let sy = (h - th) / 2;
    if sx <= a < sx + tw && sy <= b < sy + th {
        template_tile_spec(goal_template(b - sy)[a - sx])
    } else if interior(w, h, a, b) {
        TILE_VOID
    } else {
        TILE_WALL
    }
}

/// Build the fixed goal floor for the top level: the whole interior is VOID
/// and the template is stamped in the centre (cropped on small maps).
pub fn generate_goal_floor(width: usize, height: usize) -> (map: NobiscuitMap)
    requires
        1 <= width <= i32::MAX,
        1 <= height <= i32::MAX,
        width * height <= usize::MAX,
    ensures
        map.wf(),
        map.spec_width() == width,
        map.spec_height() == height,
        forall|a: int, b: int|
            map.in_bounds(a, b) ==> #[trigger] map.cell(a, b) == goal_floor_tile(width as int, height as int, a, b),
{
    let mut map = NobiscuitMap::new(width, height);
    // Interior VOID (the outer ring stays WALL).
    let mut y: usize = 1;
    while y + 1 < height
        invariant
            1 <= y <= height,
            map.wf(),
            map.spec_width() == width,
            map.spec_height() == height,
            1 <= width <= i32::MAX,
            1 <= height <= i32::MAX,
            forall|a: int, b: int|
                map.in_bounds(a, b) ==> #[trigger] map.cell(a, b) == if interior(width as int, height as int, a, b) && b < y { TILE_VOID } else { TILE_WALL },
        decreases height - y,
    {
        let mut x: usize = 1;
        while x + 1 < width
            invariant
                1 <= x <= width,
                1 <= y,
                y + 1 < height,
                map.wf(),
                map.spec_width() == width,
                map.spec_height() == height,
                1 <= width <= i32::MAX,
                1 <= height <= i32::MAX,
                forall|a: int, b: int|
                    map.in_bounds(a, b) ==> #[trigger] map.cell(a, b) == if interior(width as int, height as int, a, b) && (b < y || (b == y && a < x)) { TILE_VOID } else { TILE_WALL },
            decreases width - x,
        {
            map.set(x, y, TILE_VOID);
            x = x + 1;
        }
        y = y + 1;
    }
    let th = if GOAL_TEMPLATE_SIZE < height { GOAL_TEMPLATE_SIZE } else { height };
    let tw = if GOAL_TEMPLATE_SIZE < width { GOAL_TEMPLATE_SIZE } else { width };
    let start_x = (width - tw) / 2;
    let start_y = (height - th) / 2;
    let ghost m1 = map;
    let mut cy: usize = 0;
    while cy < th
        invariant
            0 <= cy <= th,
            th <= GOAL_TEMPLATE_SIZE,
            tw <= GOAL_TEMPLATE_SIZE,
            th == if height < 11 { height } else { 11 },
            tw == if width < 11 { width } else { 11 },
            start_x == (width - tw) / 2,
            start_y == (height - th) / 2,
            map.wf(),
            map.spec_width() == width,
            map.spec_height() == height,
            1 <= width <= i32::MAX,
            1 <= height <= i32::MAX,
            forall|a: int, b: int|
                map.in_bounds(a, b) ==> #[trigger] map.cell(a, b) == if start_x <= a < start_x + tw && start_y <= b < start_y + cy {
                    template_tile_spec(goal_template(b - start_y)[a - start_x])
                } else if interior(width as int, height as int, a, b) { TILE_VOID } else { TILE_WALL },
        decreases th - cy,
    {
        let row = goal_template_row(cy);
        let mut cx: usize = 0;
        while cx < tw
            invariant
                0 <= cx <= tw,
                cy < th,
                row@ == goal_template(cy as int),
                th <= GOAL_TEMPLATE_SIZE,
                tw <= GOAL_TEMPLATE_SIZE,
                th == if height < 11 { height } else { 11 },
                tw == if width < 11 { width } else { 11 },
                start_x == (width - tw) / 2,
                start_y == (height - th) / 2,
                map.wf(),
                map.spec_width() == width,
                map.spec_height() == height,
                1 <= width <= i32::MAX,
                1 <= height <= i32::MAX,
                forall|a: int, b: int|
                    map.in_bounds(a, b) ==> #[trigger] map.cell(a, b) == if start_x <= a < start_x + tw && (start_y <= b < start_y + cy || (b == start_y + cy && a < start_x + cx)) {
                        template_tile_spec(goal_template(b - start_y)[a - start_x])
                    } else if interior(width as int, height as int, a, b) { TILE_VOID } else { TILE_WALL },
            decreases tw - cx,
        {
            let tile = template_tile(row[cx]);
            map.set(start_x + cx, start_y + cy, tile);
            cx = cx + 1;
        }
        cy = cy + 1;
    }
    map
}

/// The walkable template cells: the 5 x 3 room (with the goal), the corridor
/// cell below the fusuma, and the stairs.
pub open spec fn template_walkable(c: int, r: int) -> bool {
    (3 <= c <= 7 && 3 <= r <= 5) || (c == 5 && (r == 7 || r == 8))
}

/// What each template cell holds, as far as the goal, the stairs and walking
/// are concerned.
proof fn lemma_template_cell(r: int, c: int)
    requires
        0 <= r < 11,
        0 <= c < 11,
    ensures
        (template_tile_spec(goal_template(r)[c]) == TILE_GOAL) <==> (r == 4 && c == 5),
        template_tile_spec(goal_template(r)[c]) != TILE_STAIRS_UP,
        is_walkable_tile(template_tile_spec(goal_template(r)[c])) <==> template_walkable(c, r),
        (template_tile_spec(goal_template(r)[c]) == TILE_STAIRS_DOWN) <==> (r == 8 && c == 5),
{
    if r == 0 {
    } else if r == 1 {
    } else if r == 2 {
    } else if r == 3 {
    } else if r == 4 {
    } else if r == 5 {
    } else if r == 6 {
    } else if r == 7 {
    } else if r == 8 {
    } else if r == 9 {
    } else {
    }
}

/// Top-left corner of the stamped template on a map of at least 11 x 11.
pub open spec fn template_origin(w: int, h: int) -> (int, int) {
    ((w - 11) / 2, (h - 11) / 2)
}

/// The goal floor of a map at least 11 x 11 holds exactly one goal, at the
/// template's centre, and no stairs up.
pub proof fn lemma_goal_floor_goal(m: &NobiscuitMap)
    requires
        is_goal_floor(m),
    ensures
        forall|a: int, b: int|
            m.in_bounds(a, b) ==> ((#[trigger] m.cell(a, b) == TILE_GOAL) <==> (a == template_origin(
                m.spec_width() as int,
                m.spec_height() as int,
            ).0 + 5 && b == template_origin(m.spec_width() as int, m.spec_height() as int).1 + 4)),
        forall|a: int, b: int| m.in_bounds(a, b) ==> #[trigger] m.cell(a, b) != TILE_STAIRS_UP,
{
    reveal(is_goal_floor);
    let w = m.spec_width() as int;
    let h = m.spec_height() as int;
    let (sx, sy) = template_origin(w, h);
    assert forall|a: int, b: int| m.in_bounds(a, b) implies ((#[trigger] m.cell(a, b) == TILE_GOAL) <==> (a == sx + 5 && b == sy + 4)) && m.cell(a, b) != TILE_STAIRS_UP by {
        if sx <= a < sx + 11 && sy <= b < sy + 11 {
            lemma_template_cell(b - sy, a - sx);
        }
    }
}

/// The goal floor's contents, spelled out for the proofs below.
#[verifier::opaque]
pub open spec fn is_goal_floor(m: &NobiscuitMap) -> bool {
    &&& m.spec_width() >= 11
    &&& m.spec_height() >= 11
    &&& forall|a: int, b: int|
        m.in_bounds(a, b) ==> #[trigger] m.cell(a, b) == goal_floor_tile(m.spec_width() as int, m.spec_height() as int, a, b)
}

/// The template cell `(c, r)` sits at its place on the map.
proof fn lemma_tile_at(m: &NobiscuitMap, c: int, r: int)
    requires
        is_goal_floor(m),
        0 <= c < 11,
        0 <= r < 11,
    ensures
        m.spec_get(template_origin(m.spec_width() as int, m.spec_height() as int).0 + c, template_origin(m.spec_width() as int, m.spec_height() as int).1 + r)
            == Some(template_tile_spec(goal_template(r)[c])),
{
    reveal(is_goal_floor);
    let w = m.spec_width() as int;
    let h = m.spec_height() as int;
    let (sx, sy) = template_origin(w, h);
    assert(m.cell(sx + c, sy + r) == goal_floor_tile(w, h, sx + c, sy + r));
}

/// The stairs of the template are a seed, hence reachable.
proof fn lemma_stairs_reachable(m: &NobiscuitMap)
    requires
        is_goal_floor(m),
    ensures
        reachable(m, template_origin(m.spec_width() as int, m.spec_height() as int).0 + 5, template_origin(m.spec_width() as int, m.spec_height() as int).1 + 8),
{
    let (sx, sy) = template_origin(m.spec_width() as int, m.spec_height() as int);
    lemma_tile_at(m, 5, 8);
    assert(crate::maze::reach::stairs_at(m, sx + 5, sy + 8));
    lemma_single_walk(m, sx + 5, sy + 8);
}

/// A passable template neighbour of a reachable template cell is reachable.
proof fn lemma_step(m: &NobiscuitMap, c: int, r: int, c2: int, r2: int)
    requires
        is_goal_floor(m),
        0 <= c2 < 11,
        0 <= r2 < 11,
        reachable(m, template_origin(m.spec_width() as int, m.spec_height() as int).0 + c, template_origin(m.spec_width() as int, m.spec_height() as int).1 + r),
        is_passable_tile(template_tile_spec(goal_template(r2)[c2])),
        (c2 == c && (r2 == r + 1 || r2 == r - 1)) || (r2 == r && (c2 == c + 1 || c2 == c - 1)),
    ensures
        reachable(m, template_origin(m.spec_width() as int, m.spec_height() as int).0 + c2, template_origin(m.spec_width() as int, m.spec_height() as int).1 + r2),
{
    let (sx, sy) = template_origin(m.spec_width() as int, m.spec_height() as int);
    lemma_tile_at(m, c2, r2);
    lemma_extend_walk(m, sx + c, sy + r, sx + c2, sy + r2);
}

/// The stairs, the corridor, the fusuma and the room's bottom row are reachable.
proof fn lemma_bottom_reachable(m: &NobiscuitMap)
    requires
        is_goal_floor(m),
    ensures
        forall|c: int, r: int|
            (c == 5 && 5 <= r <= 8) || (3 <= c <= 7 && r == 5) ==> #[trigger] reachable(
                m,
                template_origin(m.spec_width() as int, m.spec_height() as int).0 + c,
                template_origin(m.spec_width() as int, m.spec_height() as int).1 + r,
            ),
{
    lemma_stairs_reachable(m);
    lemma_step(m, 5, 8, 5, 7);
    lemma_step(m, 5, 7, 5, 6);
    lemma_step(m, 5, 6, 5, 5);
    lemma_step(m, 5, 5, 4, 5);
    lemma_step(m, 4, 5, 3, 5);
    lemma_step(m, 5, 5, 6, 5);
    lemma_step(m, 6, 5, 7, 5);
}

/// One room column above its reachable bottom cell is reachable.
proof fn lemma_column_reachable(m: &NobiscuitMap, c: int)
    requires
        is_goal_floor(m),
        3 <= c <= 7,
        reachable(m, template_origin(m.spec_width() as int, m.spec_height() as int).0 + c, template_origin(m.spec_width() as int, m.spec_height() as int).1 + 5),
    ensures
        reachable(m, template_origin(m.spec_width() as int, m.spec_height() as int).0 + c, template_origin(m.spec_width() as int, m.spec_height() as int).1 + 4),
        reachable(m, template_origin(m.spec_width() as int, m.spec_height() as int).0 + c, template_origin(m.spec_width() as int, m.spec_height() as int).1 + 3),
{
    if c == 3 {
        lemma_step(m, 3, 5, 3, 4);
        lemma_step(m, 3, 4, 3, 3);
    } else if c == 4 {
        lemma_step(m, 4, 5, 4, 4);
        lemma_step(m, 4, 4, 4, 3);
    } else if c == 5 {
        lemma_step(m, 5, 5, 5, 4);
        lemma_step(m, 5, 4, 5, 3);
    } else if c == 6 {
        lemma_step(m, 6, 5, 6, 4);
        lemma_step(m, 6, 4, 6, 3);
    } else {
        lemma_step(m, 7, 5, 7, 4);
        lemma_step(m, 7, 4, 7, 3);
    }
}

/// Every walkable template cell is reachable from the stairs.
proof fn lemma_template_reachable(m: &NobiscuitMap, c: int, r: int)
    requires
        is_goal_floor(m),
        template_walkable(c, r),
    ensures
        reachable(m, template_origin(m.spec_width() as int, m.spec_height() as int).0 + c, template_origin(m.spec_width() as int, m.spec_height() as int).1 + r),
{
    lemma_bottom_reachable(m);
    if r <= 4 {
        let (sx, sy) = template_origin(m.spec_width() as int, m.spec_height() as int);
        assert(reachable(m, sx + c, sy + 5));
        lemma_column_reachable(m, c);
    }
}

/// The goal floor of a map at least 11 x 11 is fully connected: every walkable
/// cell can be reached from the stairs.
pub proof fn lemma_goal_floor_connected(m: &NobiscuitMap)
    requires
        is_goal_floor(m),
    ensures
        fully_connected(m),
{
    let w = m.spec_width() as int;
    let h = m.spec_height() as int;
    let (sx, sy) = template_origin(w, h);
    assert forall|x: int, y: int| walkable_at(m, x, y) implies #[trigger] reachable(m, x, y) by {
        m.lemma_bounds(x, y);
        reveal(is_goal_floor);
        assert(m.cell(x, y) == goal_floor_tile(w, h, x, y));
        assert(sx <= x < sx + 11 && sy <= y < sy + 11);
        lemma_template_cell(y - sy, x - sx);
        lemma_template_reachable(m, x - sx, y - sy);
    }
}

} // verus!
