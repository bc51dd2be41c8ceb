//! The minimap overlay: where it sits on the screen and which pixel gets
//! which colour. Blending the pixels in is left to the caller.

use vstd::prelude::*;
use crate::map::TileMap;
use crate::nobiscuit_map::NobiscuitMap;
use crate::terminal::Rgb;
use crate::tiles::{TILE_EMPTY, is_door_tile};
use crate::tiles::{
    TileType, TILE_GOAL, TILE_STAIRS_DOWN, TILE_STAIRS_UP, TILE_VOID, TILE_WALL, TILE_WINDOW,
};

verus! {

/// Pixels per map cell, in each direction.
pub const MINIMAP_SCALE: usize = 2;

/// The colour a tile is drawn in; VOID is not drawn.
pub open spec fn minimap_color_spec(t: TileType) -> Option<Rgb> {
    if t == TILE_VOID {
        None
    } else if t == TILE_WALL {
        Some(Rgb { r: 40, g: 60, b: 40 })
    } else if t == TILE_WINDOW {
        Some(Rgb { r: 80, g: 120, b: 180 })
    } else if t == TILE_GOAL {
        Some(Rgb { r: 255, g: 215, b: 0 })
    } else if t == TILE_STAIRS_UP {
        Some(Rgb { r: 200, g: 150, b: 50 })
    } else if t == TILE_STAIRS_DOWN {
        Some(Rgb { r: 150, g: 100, b: 30 })
    } else {
        Some(Rgb { r: 100, g: 140, b: 100 })
    }
}

/// The colour a tile is drawn in on the minimap, `None` for VOID.
pub fn minimap_color(t: TileType) -> (c: Option<Rgb>)
    ensures
        c == minimap_color_spec(t),
{
    if t == TILE_VOID {
        None
    } else if t == TILE_WALL {
        Some(Rgb { r: 40, g: 60, b: 40 })
    } else if t == TILE_WINDOW {
        Some(Rgb { r: 80, g: 120, b: 180 })
    } else if t == TILE_GOAL {
        Some(Rgb { r: 255, g: 215, b: 0 })
    } else if t == TILE_STAIRS_UP {
        Some(Rgb { r: 200, g: 150, b: 50 })
    } else if t == TILE_STAIRS_DOWN {
        Some(Rgb { r: 150, g: 100, b: 30 })
    } else {
        Some(Rgb { r: 100, g: 140, b: 100 })
    }
}

/// `a - b`, or 0 when `b` is larger.
pub open spec fn sat_sub(a: int, b: int) -> int {
    if a > b {
        a - b
    } else {
        0
    }
}

/// The top-left pixel of the minimap: flush right and vertically centred
/// (both 0 when the map is larger than the screen).
pub open spec fn minimap_origin_spec(fb_w: int, fb_h: int, map_w: int, map_h: int) -> (int, int) {
    (sat_sub(fb_w, map_w * 2), sat_sub(fb_h, map_h * 2) / 2)
}

/// Where the minimap's top-left pixel goes on a `fb_w` x `fb_h` screen.
pub fn minimap_origin(fb_w: usize, fb_h: usize, map_w: usize, map_h: usize) -> (r: (usize, usize))
    requires
        map_w * 2 <= usize::MAX,
        map_h * 2 <= usize::MAX,
    ensures
        (r.0 as int, r.1 as int) == minimap_origin_spec(
            fb_w as int,
            fb_h as int,
            map_w as int,
            map_h as int,
        ),
{
    let pw = map_w * MINIMAP_SCALE;
    let ph = map_h * MINIMAP_SCALE;
    (fb_w.saturating_sub(pw), fb_h.saturating_sub(ph) / 2)
}

/// The four pixels of cell `(x, y)` in colour `c`: left to right, then top
/// to bottom.
pub open spec fn block_pixels(ox: int, oy: int, x: int, y: int, c: Rgb) -> Seq<(usize, usize, Rgb)> {
    let px = ox + 2 * x;
    let py = oy + 2 * y;
    seq![
        (px as usize, py as usize, c),
        ((px + 1) as usize, py as usize, c),
        (px as usize, (py + 1) as usize, c),
        ((px + 1) as usize, (py + 1) as usize, c),
    ]
}

/// The pixels drawn for cell `(x, y)` of `m`.
pub open spec fn cell_pixels(m: &NobiscuitMap, ox: int, oy: int, x: int, y: int) -> Seq<(usize, usize, Rgb)> {
    match minimap_color_spec(m.cell(x, y)) {
        Some(c) => block_pixels(ox, oy, x, y, c),
        None => seq![],
    }
}

/// The pixels of the first `n` cells of row `y`, left to right.
pub open spec fn row_pixels(m: &NobiscuitMap, ox: int, oy: int, y: int, n: int) -> Seq<(usize, usize, Rgb)>
    decreases n,
{
    if n <= 0 {
        seq![]
    } else {
        row_pixels(m, ox, oy, y, n - 1) + cell_pixels(m, ox, oy, n - 1, y)
    }
}

/// The pixels of the first `n` rows, top to bottom.
pub open spec fn map_pixels(m: &NobiscuitMap, ox: int, oy: int, n: int) -> Seq<(usize, usize, Rgb)>
    decreases n,
{
    if n <= 0 {
        seq![]
    } else {
        map_pixels(m, ox, oy, n - 1) + row_pixels(m, ox, oy, n - 1, m.spec_width() as int)
    }
}

/// The pixels of the minimap of `map` on a `fb_w` x `fb_h` screen, in
/// drawing order, each with its colour. Every cell but a VOID one covers
/// `MINIMAP_SCALE` x `MINIMAP_SCALE` pixels.
pub fn minimap_pixels(map: &NobiscuitMap, fb_w: usize, fb_h: usize) -> (r: Vec<(usize, usize, Rgb)>)
    requires
        map.wf(),
        map.spec_width() <= i32::MAX,
        map.spec_height() <= i32::MAX,
    ensures
        ({
            let o = minimap_origin_spec(
                fb_w as int,
                fb_h as int,
                map.spec_width() as int,
                map.spec_height() as int,
            );
            r@ == map_pixels(map, o.0, o.1, map.spec_height() as int)
        }),
{
    let w = map.width();
    let h = map.height();
    let (ox, oy) = minimap_origin(fb_w, fb_h, w, h);
    let mut out: Vec<(usize, usize, Rgb)> = Vec::new();
    let mut my: usize = 0;
    while my < h
        invariant
            map.wf(),
            w == map.spec_width(),
            h == map.spec_height(),
            w <= i32::MAX,
            h <= i32::MAX,
            (ox as int, oy as int) == minimap_origin_spec(fb_w as int, fb_h as int, w as int, h as int),
            0 <= my <= h,
            out@ == map_pixels(map, ox as int, oy as int, my as int),
        decreases h - my,
    {
        let mut mx: usize = 0;
        while mx < w
            invariant
                map.wf(),
                w == map.spec_width(),
                h == map.spec_height(),
                w <= i32::MAX,
                h <= i32::MAX,
                (ox as int, oy as int) == minimap_origin_spec(fb_w as int, fb_h as int, w as int, h as int),
                0 <= my < h,
                0 <= mx <= w,
                out@ == map_pixels(map, ox as int, oy as int, my as int) + row_pixels(
                    map,
                    ox as int,
                    oy as int,
                    my as int,
                    mx as int,
                ),
            decreases w - mx,
        {
            let ghost before = out@;
            let tile = map.get(mx as i32, my as i32).unwrap_or(TILE_WALL);
            assert(tile == map.cell(mx as int, my as int));
            if let Some(c) = minimap_color(tile) {
                let px = ox + mx * MINIMAP_SCALE;
                let py = oy + my * MINIMAP_SCALE;
                out.push((px, py, c));
                out.push((px + 1, py, c));
                out.push((px, py + 1, c));
                out.push((px + 1, py + 1, c));
                assert(out@ =~= before + block_pixels(ox as int, oy as int, mx as int, my as int, c));
            } else {
                assert(out@ =~= before + Seq::<(usize, usize, Rgb)>::empty());
            }
            assert(row_pixels(map, ox as int, oy as int, my as int, mx + 1) == row_pixels(
                map,
                ox as int,
                oy as int,
                my as int,
                mx as int,
            ) + cell_pixels(map, ox as int, oy as int, mx as int, my as int));
            assert(out@ =~= map_pixels(map, ox as int, oy as int, my as int) + row_pixels(
                map,
                ox as int,
                oy as int,
                my as int,
                mx + 1,
            ));
            mx = mx + 1;
        }
        assert(out@ =~= map_pixels(map, ox as int, oy as int, my + 1));
        my = my + 1;
    }
    out
}

/// Only walls are drawn in the wall colour, VOID alone is left out, and
/// every EMPTY or door cell is drawn in the floor colour, as an opening.
pub proof fn lemma_minimap_colors(t: TileType)
    ensures
        minimap_color_spec(t) == Some(Rgb { r: 40, g: 60, b: 40 }) ==> t == TILE_WALL,
        (minimap_color_spec(t) is None) <==> t == TILE_VOID,
        t == TILE_EMPTY || is_door_tile(t) ==> minimap_color_spec(t) == Some(Rgb { r: 100, g: 140, b: 100 }),
{
}

/// Walls, windows, the goal, both kinds of stairs and open floor are told
/// apart on the minimap: tiles of different kinds among these get different
/// colours.
pub proof fn lemma_minimap_kinds_apart(t1: TileType, t2: TileType)
    requires
        t1 == TILE_WALL || t1 == TILE_WINDOW || t1 == TILE_GOAL || t1 == TILE_STAIRS_UP || t1 == TILE_STAIRS_DOWN || t1 == TILE_EMPTY,
        t2 == TILE_WALL || t2 == TILE_WINDOW || t2 == TILE_GOAL || t2 == TILE_STAIRS_UP || t2 == TILE_STAIRS_DOWN || t2 == TILE_EMPTY,
        t1 != t2,
    ensures
        minimap_color_spec(t1) != minimap_color_spec(t2),
{
}

} // verus!
