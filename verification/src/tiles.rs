//! Tile IDs used by the game.
//!
//! IDs `0..=2` are the raycasting engine's reserved trio (EMPTY / WALL / VOID);
//! `3..=11` are this game's Japanese-house props.

use vstd::prelude::*;

verus! {

/// A tile ID.
pub type TileType = u8;

/// Walkable floor.
pub const TILE_EMPTY: TileType = 0;
/// Solid textured wall.
pub const TILE_WALL: TileType = 1;
/// Non-existent cell: impassable and never drawn.
pub const TILE_VOID: TileType = 2;
/// Exit marker (walkable).
pub const TILE_GOAL: TileType = 3;
/// Glass pane with wooden frame (solid).
pub const TILE_WINDOW: TileType = 4;
/// Stairs to the upper floor (walkable).
pub const TILE_STAIRS_UP: TileType = 5;
/// Stairs to the lower floor (walkable).
pub const TILE_STAIRS_DOWN: TileType = 6;
/// Fusuma sliding door (solid while closed).
pub const TILE_DOOR_FUSUMA: TileType = 7;
/// Kitchen door (solid while closed).
pub const TILE_DOOR_KITCHEN: TileType = 8;
/// Toilet door (solid while closed).
pub const TILE_DOOR_TOILET: TileType = 9;
/// Entrance (genkan) door (solid while closed).
pub const TILE_DOOR_GENKAN: TileType = 10;
/// Shoji screen (solid).
pub const TILE_SHOJI: TileType = 11;

/// Tiles the player can stand on.
pub open spec fn is_walkable_tile(t: TileType) -> bool {
    t == TILE_EMPTY || t == TILE_GOAL || t == TILE_STAIRS_UP || t == TILE_STAIRS_DOWN
}

/// The four door tiles (auto-opened in play).
pub open spec fn is_door_tile(t: TileType) -> bool {
    t == TILE_DOOR_FUSUMA || t == TILE_DOOR_KITCHEN || t == TILE_DOOR_TOILET
        || t == TILE_DOOR_GENKAN
}

/// Tiles a flood fill may walk through: walkable tiles and doors.
pub open spec fn is_passable_tile(t: TileType) -> bool {
    is_walkable_tile(t) || is_door_tile(t)
}

/// Whether `t` is one of the four door tiles.
pub fn is_door(t: TileType) -> (r: bool)
    ensures
        r == is_door_tile(t),
{
    t == TILE_DOOR_FUSUMA || t == TILE_DOOR_KITCHEN || t == TILE_DOOR_TOILET
        || t == TILE_DOOR_GENKAN
}

/// Whether the player can stand on `t`.
pub fn is_walkable(t: TileType) -> (r: bool)
    ensures
        r == is_walkable_tile(t),
{
    t == TILE_EMPTY || t == TILE_GOAL || t == TILE_STAIRS_UP || t == TILE_STAIRS_DOWN
}

} // verus!
