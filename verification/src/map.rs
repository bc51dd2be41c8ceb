//! The tile-map interface and the engine's plain grid map.
//!
//! `GridMap` keeps the engine's own tile numbering, in which only
//! EMPTY (0), GOAL (2), STAIRS_UP (4) and STAIRS_DOWN (5) can be walked on.

use vstd::prelude::*;
use crate::tiles::TileType;

verus! {

/// Engine numbering: walkable floor.
pub const GRID_TILE_EMPTY: TileType = 0;
/// Engine numbering: solid wall (the default of a new grid).
pub const GRID_TILE_WALL: TileType = 1;
/// Engine numbering: exit marker.
pub const GRID_TILE_GOAL: TileType = 2;
/// Engine numbering: window.
pub const GRID_TILE_WINDOW: TileType = 3;
/// Engine numbering: stairs up.
pub const GRID_TILE_STAIRS_UP: TileType = 4;
/// Engine numbering: stairs down.
pub const GRID_TILE_STAIRS_DOWN: TileType = 5;

/// Read access to a rectangular grid of tiles.
///
/// Every implementation answers `None` exactly outside the grid, and treats
/// every cell outside the grid as solid.
pub trait TileMap {
    /// Internal consistency of the map's storage.
    spec fn wf(&self) -> bool;

    /// Number of columns.
    spec fn spec_width(&self) -> usize;

    /// Number of rows.
    spec fn spec_height(&self) -> usize;

    /// The tile at `(x, y)`, or `None` outside the grid.
    spec fn spec_get(&self, x: int, y: int) -> Option<TileType>;

    /// Whether `(x, y)` blocks movement and rays.
    spec fn spec_is_solid(&self, x: int, y: int) -> bool;

    /// `spec_get` is `None` exactly outside the grid, and outside cells are solid.
    proof fn lemma_bounds(&self, x: int, y: int)
        ensures
            (self.spec_get(x, y) is None) <==> !(0 <= x < self.spec_width() && 0 <= y
                < self.spec_height()),
            self.spec_get(x, y) is None ==> self.spec_is_solid(x, y),
    ;

    fn width(&self) -> (r: usize)
        requires
            self.wf(),
        ensures
            r == self.spec_width(),
    ;

    fn height(&self) -> (r: usize)
        requires
            self.wf(),
        ensures
            r == self.spec_height(),
    ;

    fn get(&self, x: i32, y: i32) -> (r: Option<TileType>)
        requires
            self.wf(),
        ensures
            r == self.spec_get(x as int, y as int),
    ;

    fn is_solid(&self, x: i32, y: i32) -> (r: bool)
        requires
            self.wf(),
        ensures
            r == self.spec_is_solid(x as int, y as int),
    ;
}

/// Whether the engine numbering lets the player stand on `t`.
pub open spec fn grid_walkable(t: TileType) -> bool {
    t == GRID_TILE_EMPTY || t == GRID_TILE_GOAL || t == GRID_TILE_STAIRS_UP || t
        == GRID_TILE_STAIRS_DOWN
}

/// A dense grid of tiles in the engine's numbering, initially all walls.
pub struct GridMap {
    width: usize,
    height: usize,
    tiles: Vec<TileType>,
}

impl GridMap {

    /// The tile stored at an in-bounds cell.
    pub closed spec fn cell(&self, x: int, y: int) -> TileType {
        self.tiles@[y * self.width + x]
    }

    /// Create a `width` x `height` grid filled with walls.
    pub fn new(width: usize, height: usize) -> (m: Self)
        requires
            width * height <= usize::MAX,
        ensures
            m.wf(),
            m.spec_width() == width,
            m.spec_height() == height,
            forall|x: int, y: int|
                0 <= x < width && 0 <= y < height ==> #[trigger] m.cell(x, y) == GRID_TILE_WALL,
    {
        let m = GridMap { width, height, tiles: vec![GRID_TILE_WALL; width * height] };
        assert forall|x: int, y: int| 0 <= x < width && 0 <= y < height implies #[trigger] m.cell(x, y) == GRID_TILE_WALL by {
            crate::grid::lemma_index_in_bounds(x, y, width as int, height as int);
        }
        m
    }

    /// Store `tile` at `(x, y)`; a cell outside the grid is ignored.
    pub fn set(&mut self, x: usize, y: usize, tile: TileType)
        requires
            old(self).wf(),
        ensures
            final(self).wf(),
            final(self).spec_width() == old(self).spec_width(),
            final(self).spec_height() == old(self).spec_height(),
            forall|a: int, b: int|
                0 <= a < old(self).spec_width() && 0 <= b < old(self).spec_height() ==> #[trigger] final(self).cell(a, b) == if a == x && b == y && x < old(self).spec_width() && y < old(self).spec_height() {
                    tile
                } else {
                    old(self).cell(a, b)
                },
            write_step(old(self), final(self), (x, y, tile)),
    {
        if x < self.width && y < self.height {
            proof {
                crate::grid::lemma_index_in_bounds(x as int, y as int, self.width as int, self.height as int);
            }
            let idx = y * self.width + x;
            self.tiles.set(idx, tile);
            proof {
                assert forall|a: int, b: int|
                    0 <= a < old(self).spec_width() && 0 <= b < old(self).spec_height() implies #[trigger] self.cell(a, b) == if a == x && b == y { tile } else { old(self).cell(a, b) } by {
                    crate::grid::lemma_index_in_bounds(a, b, self.width as int, self.height as int);
                    crate::grid::lemma_index_injective(a, b, x as int, y as int, self.width as int);
                }
            }
        }
    }
}

impl TileMap for GridMap {
    closed spec fn wf(&self) -> bool {
        self.tiles.len() == self.width * self.height
    }

    closed spec fn spec_width(&self) -> usize {
        self.width
    }

    closed spec fn spec_height(&self) -> usize {
        self.height
    }

    open spec fn spec_get(&self, x: int, y: int) -> Option<TileType> {
        if 0 <= x < self.spec_width() && 0 <= y < self.spec_height() {
            Some(self.cell(x, y))
        } else {
            None
        }
    }

    open spec fn spec_is_solid(&self, x: int, y: int) -> bool {
        match self.spec_get(x, y) {
            Some(t) => !grid_walkable(t),
            None => true,
        }
    }

    proof fn lemma_bounds(&self, x: int, y: int) {
    }

    fn width(&self) -> (r: usize) {
        self.width
    }

    fn height(&self) -> (r: usize) {
        self.height
    }

    fn get(&self, x: i32, y: i32) -> (r: Option<TileType>) {
        if x >= 0 && y >= 0 && (x as usize) < self.width && (y as usize) < self.height {
            proof {
                crate::grid::lemma_index_in_bounds(x as int, y as int, self.width as int, self.height as int);
            }
            Some(self.tiles[y as usize * self.width + x as usize])
        } else {
            None
        }
    }

    fn is_solid(&self, x: i32, y: i32) -> (r: bool) {
        match self.get(x, y) {
            Some(t) => !(t == GRID_TILE_EMPTY || t == GRID_TILE_GOAL || t == GRID_TILE_STAIRS_UP
                || t == GRID_TILE_STAIRS_DOWN),
            None => true,
        }
    }
}

/// `m` is `m0` after the write `wr = (x, y, tile)`: same size, the cell
/// `(x, y)` holds `tile` when it lies on the map, every other cell is kept.
pub open spec fn write_step(m0: &GridMap, m: &GridMap, wr: (usize, usize, TileType)) -> bool {
    &&& m.wf()
    &&& m.spec_width() == m0.spec_width()
    &&& m.spec_height() == m0.spec_height()
    &&& forall|a: int, b: int|
        0 <= a < m0.spec_width() && 0 <= b < m0.spec_height() ==> #[trigger] m.cell(a, b) == if a == wr.0 && b == wr.1 {
            wr.2
        } else {
            m0.cell(a, b)
        }
}

/// The tile at `(a, b)` after the writes `writes`, in order, onto a cell
/// holding `t0`: the tile of the last write to `(a, b)`, else `t0`.
pub open spec fn last_write(writes: Seq<(usize, usize, TileType)>, a: int, b: int, t0: TileType) -> TileType
    decreases writes.len(),
{
    if writes.len() == 0 {
        t0
    } else if writes.last().0 == a && writes.last().1 == b {
        writes.last().2
    } else {
        last_write(writes.drop_last(), a, b, t0)
    }
}

/// Reading a map after any run of writes (`maps[i + 1]` is `maps[i]` after
/// `writes[i]`) gives, on the map, the tile of the last write to the cell or
/// else the tile that was there; off the map it gives nothing.
pub proof fn lemma_read_after_writes(maps: Seq<GridMap>, writes: Seq<(usize, usize, TileType)>, a: int, b: int)
    requires
        maps.len() == writes.len() + 1,
        maps[0].wf(),
        forall|i: int| 0 <= i < writes.len() ==> #[trigger] write_step(&maps[i], &maps[i + 1], writes[i]),
    ensures
        maps.last().spec_width() == maps[0].spec_width(),
        maps.last().spec_height() == maps[0].spec_height(),
        maps.last().spec_get(a, b) == if 0 <= a < maps[0].spec_width() && 0 <= b < maps[0].spec_height() {
            Some(last_write(writes, a, b, maps[0].cell(a, b)))
        } else {
            None
        },
    decreases writes.len(),
{
    if writes.len() > 0 {
        let n = writes.len() - 1;
        let ms = maps.drop_last();
        let ws = writes.drop_last();
        assert forall|i: int| 0 <= i < ws.len() implies #[trigger] write_step(&ms[i], &ms[i + 1], ws[i]) by {
            assert(write_step(&maps[i], &maps[i + 1], writes[i]));
        }
        lemma_read_after_writes(ms, ws, a, b);
        assert(write_step(&maps[n], &maps[n + 1], writes[n]));
        assert(ms.last() == maps[n]);
    }
}

} // verus!
