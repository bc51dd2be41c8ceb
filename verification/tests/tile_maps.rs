use nobiscuit::map::{GridMap, TileMap, GRID_TILE_EMPTY, GRID_TILE_GOAL, GRID_TILE_STAIRS_DOWN, GRID_TILE_STAIRS_UP, GRID_TILE_WALL, GRID_TILE_WINDOW};
use nobiscuit::nobiscuit_map::NobiscuitMap;
use nobiscuit::renderer::tile_hash;
use nobiscuit::tiles::{
    is_door, is_walkable, TILE_DOOR_FUSUMA, TILE_DOOR_GENKAN, TILE_DOOR_KITCHEN, TILE_DOOR_TOILET,
    TILE_EMPTY, TILE_GOAL, TILE_SHOJI, TILE_STAIRS_DOWN, TILE_STAIRS_UP, TILE_VOID, TILE_WALL,
    TILE_WINDOW,
};

#[test]
fn defaults_to_walls_and_walls_are_solid() {
    let m = NobiscuitMap::new(3, 3);
    assert_eq!(m.get(0, 0), Some(TILE_WALL));
    assert!(m.is_solid(0, 0));
}

#[test]
fn walkable_tiles() {
    let mut m = NobiscuitMap::new(4, 4);
    m.set(0, 0, TILE_EMPTY);
    m.set(1, 0, TILE_GOAL);
    m.set(2, 0, TILE_STAIRS_UP);
    m.set(3, 0, TILE_STAIRS_DOWN);
    for x in 0..4 {
        assert!(!m.is_solid(x, 0), "tile at x={x} should be walkable");
    }
}

#[test]
fn solid_tiles() {
    let mut m = NobiscuitMap::new(7, 1);
    m.set(0, 0, TILE_WALL);
    m.set(1, 0, TILE_VOID);
    m.set(2, 0, TILE_WINDOW);
    m.set(3, 0, TILE_SHOJI);
    m.set(4, 0, TILE_DOOR_FUSUMA);
    m.set(5, 0, TILE_DOOR_KITCHEN);
    m.set(6, 0, TILE_DOOR_GENKAN);
    for x in 0..7 {
        assert!(m.is_solid(x, 0), "tile at x={x} should be solid");
    }
}

#[test]
fn out_of_bounds_is_none_and_solid() {
    let m = NobiscuitMap::new(2, 2);
    assert_eq!(m.get(-1, 0), None);
    assert_eq!(m.get(5, 5), None);
    assert!(m.is_solid(-1, 0));
    assert!(m.is_solid(5, 5));
}

#[test]
fn set_outside_is_ignored_and_read_after_write() {
    let mut m = NobiscuitMap::new(3, 2);
    m.set(7, 7, TILE_EMPTY);
    m.set(2, 1, TILE_GOAL);
    assert_eq!(m.get(2, 1), Some(TILE_GOAL));
    assert_eq!(m.get(1, 1), Some(TILE_WALL));
    assert_eq!(m.width(), 3);
    assert_eq!(m.height(), 2);
}

#[test]
fn tile_classes() {
    assert!(is_walkable(TILE_EMPTY) && is_walkable(TILE_GOAL));
    assert!(is_walkable(TILE_STAIRS_UP) && is_walkable(TILE_STAIRS_DOWN));
    assert!(!is_walkable(TILE_WALL) && !is_walkable(TILE_VOID) && !is_walkable(TILE_DOOR_TOILET));
    assert!(is_door(TILE_DOOR_FUSUMA) && is_door(TILE_DOOR_TOILET) && is_door(TILE_DOOR_GENKAN));
    assert!(!is_door(TILE_SHOJI) && !is_door(TILE_EMPTY));
}

#[test]
fn grid_map_uses_engine_numbering() {
    let mut m = GridMap::new(6, 2);
    assert_eq!(m.get(0, 0), Some(GRID_TILE_WALL));
    m.set(0, 0, GRID_TILE_EMPTY);
    m.set(1, 0, GRID_TILE_GOAL);
    m.set(2, 0, GRID_TILE_STAIRS_UP);
    m.set(3, 0, GRID_TILE_STAIRS_DOWN);
    m.set(4, 0, GRID_TILE_WINDOW);
    for x in 0..4 {
        assert!(!m.is_solid(x, 0));
    }
    assert!(m.is_solid(4, 0));
    assert!(m.is_solid(5, 0));
    assert!(m.is_solid(-1, 0));
    assert_eq!(m.get(6, 0), None);
    m.set(9, 9, GRID_TILE_EMPTY);
    assert_eq!(m.width(), 6);
    assert_eq!(m.height(), 2);
}

#[test]
fn tile_hash_values() {
    assert_eq!(tile_hash(0, 0), 0);
    assert_eq!(tile_hash(1, 0), 2182377942);
    assert_eq!(tile_hash(0, 1), 3299714085);
    assert_eq!(tile_hash(3, 7), 260807386);
    assert_eq!(tile_hash(-1, -1), 731167729);
}

#[test]
fn tile_hashes_differ_along_a_row_and_a_column() {
    let row: Vec<u32> = (-20..20).map(|x| tile_hash(x, 5)).collect();
    let col: Vec<u32> = (-20..20).map(|y| tile_hash(5, y)).collect();
    for i in 0..row.len() {
        for j in (i + 1)..row.len() {
            assert_ne!(row[i], row[j]);
            assert_ne!(col[i], col[j]);
        }
    }
}

#[test]
fn grid_reads_give_the_last_write() {
    let mut m = GridMap::new(4, 3);
    m.set(1, 1, GRID_TILE_EMPTY);
    m.set(2, 1, GRID_TILE_GOAL);
    m.set(1, 1, GRID_TILE_STAIRS_UP);
    m.set(9, 9, GRID_TILE_EMPTY);
    assert_eq!(m.get(1, 1), Some(GRID_TILE_STAIRS_UP));
    assert_eq!(m.get(2, 1), Some(GRID_TILE_GOAL));
    assert_eq!(m.get(3, 2), Some(GRID_TILE_WALL));
    assert_eq!(m.get(9, 9), None);
    assert_eq!(m.get(-1, 0), None);
    assert_eq!(m.get(4, 0), None);
}
