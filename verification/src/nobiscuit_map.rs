//! The game's tile map: a dense grid whose solidity follows the game's tiles.

use vstd::prelude::*;
use crate::map::TileMap;
use crate::tiles::{TileType, TILE_WALL, is_walkable, is_walkable_tile};

verus! {

/// A dense grid of tiles in the game's numbering, initially all walls.
///
/// Goals and stairs are walkable; doors, windows, shoji and VOID are solid.
pub struct NobiscuitMap {
    width: usize,
    height: usize,
    tiles: Vec<TileType>,
}

impl NobiscuitMap {
    /// Whether `(x, y)` lies inside the grid.
    pub open spec fn in_bounds(&self, x: int, y: int) -> bool {
        0 <= x < self.spec_width() && 0 <= y < self.spec_height()
    }

    /// A well-formed map's cell count fits in memory.
    pub proof fn lemma_wf_size(&self)
        requires
            self.wf(),
        ensures
            self.spec_width() * self.spec_height() <= usize::MAX,
    {
    }

    /// The tile stored at an in-bounds cell.
    pub closed spec fn cell(&self, x: int, y: int) -> TileType {
        self.tiles@[y * self.width + x]
    }

    /// Create a `width` x `height` grid filled with walls.
    pub fn new(width: usize, height: usize) -> (m: Self)
        requires
            width * height <= usize::MAX,
        ensures
            m.wf(),
            m.spec_width() == width,
            m.spec_height() == height,
            forall|x: int, y: int|
                0 <= x < width && 0 <= y < height ==> #[trigger] m.cell(x, y) == TILE_WALL,
    {
        let m = NobiscuitMap { width, height, tiles: vec![TILE_WALL; width * height] };
        assert forall|x: int, y: int| 0 <= x < width && 0 <= y < height implies #[trigger] m.cell(x, y) == TILE_WALL by {
            crate::grid::lemma_index_in_bounds(x, y, width as int, height as int);
        }
        m
    }

    /// Store `tile` at `(x, y)`; a cell outside the grid is ignored.
    pub fn set(&mut self, x: usize, y: usize, tile: TileType)
        requires
            old(self).wf(),
        ensures
            final(self).wf(),
            final(self).spec_width() == old(self).spec_width(),
            final(self).spec_height() == old(self).spec_height(),
            forall|a: int, b: int|
                0 <= a < old(self).spec_width() && 0 <= b < old(self).spec_height() ==> #[trigger] final(self).cell(a, b) == if a == x && b == y && x < old(self).spec_width() && y < old(self).spec_height() {
                    tile
                } else {
                    old(self).cell(a, b)
                },
    {
        if x < self.width && y < self.height {
            proof {
                crate::grid::lemma_index_in_bounds(x as int, y as int, self.width as int, self.height as int);
            }
            let idx = y * self.width + x;
            self.tiles.set(idx, tile);
            proof {
                assert forall|a: int, b: int|
                    0 <= a < old(self).spec_width() && 0 <= b < old(self).spec_height() implies #[trigger] self.cell(a, b) == if a == x && b == y { tile } else { old(self).cell(a, b) } by {
                    crate::grid::lemma_index_in_bounds(a, b, self.width as int, self.height as int);
                    crate::grid::lemma_index_injective(a, b, x as int, y as int, self.width as int);
                }
            }
        }
    }
}

impl TileMap for NobiscuitMap {
    closed spec fn wf(&self) -> bool {
        self.tiles.len() == self.width * self.height
    }

    closed spec fn spec_width(&self) -> usize {
        self.width
    }

    closed spec fn spec_height(&self) -> usize {
        self.height
    }

    open spec fn spec_get(&self, x: int, y: int) -> Option<TileType> {
        if 0 <= x < self.spec_width() && 0 <= y < self.spec_height() {
            Some(self.cell(x, y))
        } else {
            None
        }
    }

    open spec fn spec_is_solid(&self, x: int, y: int) -> bool {
        match self.spec_get(x, y) {
            Some(t) => !is_walkable_tile(t),
            None => true,
        }
    }

    proof fn lemma_bounds(&self, x: int, y: int) {
    }

    fn width(&self) -> (r: usize) {
        self.width
    }

    fn height(&self) -> (r: usize) {
        self.height
    }

    fn get(&self, x: i32, y: i32) -> (r: Option<TileType>) {
        if x >= 0 && y >= 0 && (x as usize) < self.width && (y as usize) < self.height {
            proof {
                crate::grid::lemma_index_in_bounds(x as int, y as int, self.width as int, self.height as int);
            }
            Some(self.tiles[y as usize * self.width + x as usize])
        } else {
            None
        }
    }

    fn is_solid(&self, x: i32, y: i32) -> (r: bool) {
        match self.get(x, y) {
            Some(t) => !is_walkable(t),
            None => true,
        }
    }
}

} // verus!
