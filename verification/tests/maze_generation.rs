use nobiscuit::map::TileMap;
use nobiscuit::maze::reach::{verify_connectivity, wall_off_unreachable};
use nobiscuit::maze::{generate_floor, generate_maze};
use nobiscuit::maze::goal_floor::generate_goal_floor;
use nobiscuit::maze::bsp::{bsp_split, CorridorStrip};
use nobiscuit::maze::Room;
use nobiscuit::maze::decor::place_doors;
use nobiscuit::tiles::TILE_DOOR_GENKAN;
use nobiscuit::nobiscuit_map::NobiscuitMap;
use nobiscuit::tiles::{
    TILE_DOOR_FUSUMA, TILE_EMPTY, TILE_GOAL, TILE_STAIRS_DOWN, TILE_STAIRS_UP, TILE_VOID,
    TILE_WALL,
};
use rand::rngs::StdRng;
use rand::SeedableRng;

/// Every walkable cell must be reachable from the spawn/stairs across a wide
/// range of seeds, sizes, and floors.
#[test]
fn all_walkable_cells_reachable_over_many_seeds() {
    for seed in 0..300u64 {
        let mut rng = StdRng::seed_from_u64(seed);
        for &(w, h) in &[(15, 13), (31, 25), (61, 45), (121, 91)] {
            for floor in 0..3 {
                let map = generate_floor(w, h, floor, 3, &mut rng);
                assert!(
                    verify_connectivity(&map, w, h),
                    "seed={seed} {w}x{h} floor={floor}"
                );
            }
        }
    }
}

/// The BSP layout is rooms + wide corridors, so 1-cell-wide passages (which
/// only come from spawn-correction paths and door openings) must stay rare.
#[test]
fn no_one_wide_dfs_corridors() {
    for seed in 0..40u64 {
        let mut rng = StdRng::seed_from_u64(seed);
        for &(w, h) in &[(31, 25), (61, 45)] {
            // Ground floor uses the BSP layout (not the template).
            let map = generate_floor(w, h, 0, 3, &mut rng);
            let mut empties = 0usize;
            let mut one_wide = 0usize;
            for y in 1..h - 1 {
                for x in 1..w - 1 {
                    if map.get(x as i32, y as i32) != Some(TILE_EMPTY) {
                        continue;
                    }
                    empties += 1;
                    let left = map.get(x as i32 - 1, y as i32) == Some(TILE_EMPTY);
                    let right = map.get(x as i32 + 1, y as i32) == Some(TILE_EMPTY);
                    let up = map.get(x as i32, y as i32 - 1) == Some(TILE_EMPTY);
                    let down = map.get(x as i32, y as i32 + 1) == Some(TILE_EMPTY);
                    let count = [left, right, up, down].iter().filter(|&&b| b).count();
                    // A 1-wide corridor cell: a straight run with empties only
                    // on one axis and <= 2 empty orthogonal neighbors.
                    let straight =
                        (left && right && !up && !down) || (up && down && !left && !right);
                    if count <= 2 && straight {
                        one_wide += 1;
                    }
                }
            }
            if empties > 0 {
                let ratio = one_wide as f64 / empties as f64;
                assert!(
                    ratio < 0.05,
                    "seed={seed} {w}x{h}: 1-wide ratio {ratio} ({one_wide}/{empties})"
                );
            }
        }
    }
}

/// The ground-floor spawn `(1,1)` must always be walkable.
#[test]
fn spawn_is_walkable() {
    for seed in 0..300u64 {
        let mut rng = StdRng::seed_from_u64(seed);
        for &(w, h) in &[(15, 13), (31, 25), (61, 45)] {
            let map = generate_floor(w, h, 0, 3, &mut rng);
            assert!(
                !map.is_solid(1, 1),
                "seed={seed} {w}x{h}: spawn (1,1) is solid"
            );
        }
    }
}

/// The top floor uses the fixed template: exactly one GOAL and no STAIRS_UP.
#[test]
fn top_floor_has_goal_and_template() {
    for seed in 0..50u64 {
        let mut rng = StdRng::seed_from_u64(seed);
        for &(w, h) in &[(15, 13), (31, 25), (61, 45)] {
            let map = generate_floor(w, h, 2, 3, &mut rng);
            let mut goals = 0;
            let mut ups = 0;
            for y in 0..h {
                for x in 0..w {
                    match map.get(x as i32, y as i32) {
                        Some(TILE_GOAL) => goals += 1,
                        Some(TILE_STAIRS_UP) => ups += 1,
                        _ => {}
                    }
                }
            }
            assert_eq!(goals, 1, "seed={seed} {w}x{h}: goal count");
            assert_eq!(ups, 0, "seed={seed} {w}x{h}: stairs-up count");
            assert!(verify_connectivity(&map, w, h));
        }
    }
}

#[test]
fn maze_outer_ring_is_never_walkable() {
    for seed in 0..20u64 {
        let mut rng = StdRng::seed_from_u64(seed);
        let (map, rooms) = generate_maze(31, 25, &mut rng);
        for y in 0..25i32 {
            for x in 0..31i32 {
                if x == 0 || y == 0 || x == 30 || y == 24 {
                    let t = map.get(x, y).unwrap();
                    assert!(t != TILE_EMPTY && t != TILE_GOAL, "seed={seed} ({x},{y})");
                }
            }
        }
        for r in &rooms {
            assert!(r.x >= 1 && r.y >= 1 && r.x + r.w <= 30 && r.y + r.h <= 24);
        }
    }
}

#[test]
fn lower_floors_have_no_goal_and_a_walkable_spawn() {
    for seed in 0..20u64 {
        let mut rng = StdRng::seed_from_u64(seed);
        for floor in 0..2 {
            let map = generate_floor(31, 25, floor, 3, &mut rng);
            assert_eq!(map.get(1, 1), Some(TILE_EMPTY));
            for y in 0..25 {
                for x in 0..31 {
                    assert_ne!(map.get(x, y), Some(TILE_GOAL));
                }
            }
        }
    }
}

#[test]
fn middle_floor_has_stairs_both_ways() {
    let mut rng = StdRng::seed_from_u64(7);
    let map = generate_floor(31, 25, 1, 3, &mut rng);
    let mut ups = 0;
    let mut downs = 0;
    for y in 0..25 {
        for x in 0..31 {
            match map.get(x, y) {
                Some(TILE_STAIRS_UP) => ups += 1,
                Some(TILE_STAIRS_DOWN) => downs += 1,
                _ => {}
            }
        }
    }
    assert!(ups >= 1 && downs >= 1);
}

#[test]
fn goal_floor_template_is_centered() {
    let map = generate_goal_floor(15, 13);
    // Template is 11x11, centred at offset (2, 1); goal at template (5, 4).
    assert_eq!(map.get(7, 5), Some(TILE_GOAL));
    assert_eq!(map.get(7, 9), Some(TILE_STAIRS_DOWN));
    assert_eq!(map.get(7, 7), Some(TILE_DOOR_FUSUMA));
    assert_eq!(map.get(1, 1), Some(TILE_VOID));
    assert_eq!(map.get(0, 0), Some(TILE_WALL));
    assert!(verify_connectivity(&map, 15, 13));
}

#[test]
fn wall_off_unreachable_repairs_an_isolated_cell() {
    let mut map = NobiscuitMap::new(7, 5);
    // A corridor from the spawn and an isolated EMPTY cell.
    map.set(1, 1, TILE_EMPTY);
    map.set(2, 1, TILE_EMPTY);
    map.set(5, 3, TILE_EMPTY);
    assert!(!verify_connectivity(&map, 7, 5));
    wall_off_unreachable(&mut map, 7, 5);
    assert_eq!(map.get(5, 3), Some(TILE_WALL));
    assert_eq!(map.get(2, 1), Some(TILE_EMPTY));
    assert!(verify_connectivity(&map, 7, 5));
}

#[test]
fn doors_count_as_passable_for_connectivity() {
    let mut map = NobiscuitMap::new(7, 3);
    map.set(1, 1, TILE_EMPTY);
    map.set(2, 1, TILE_DOOR_FUSUMA);
    map.set(3, 1, TILE_EMPTY);
    assert!(verify_connectivity(&map, 7, 3));
    map.set(2, 1, TILE_WALL);
    assert!(!verify_connectivity(&map, 7, 3));
}

#[test]
fn spawn_repair_opens_pocket_and_path_to_nearest_empty() {
    let mut map = NobiscuitMap::new(7, 7);
    map.set(3, 2, TILE_EMPTY);
    map.set(1, 4, TILE_EMPTY);
    map.set(2, 1, TILE_GOAL);
    nobiscuit::maze::connect::ensure_spawn_walkable(&mut map, 7, 7);
    let expected_empty = [(1, 1), (1, 2), (3, 1), (3, 2), (1, 4)];
    for y in 0..7i32 {
        for x in 0..7i32 {
            let want = if (x, y) == (2, 1) {
                TILE_GOAL
            } else if expected_empty.contains(&(x, y)) {
                TILE_EMPTY
            } else {
                TILE_WALL
            };
            assert_eq!(map.get(x, y), Some(want), "cell ({x}, {y})");
        }
    }
}

#[test]
fn spawn_repair_leaves_walkable_spawn_alone() {
    let mut map = NobiscuitMap::new(7, 7);
    map.set(1, 1, TILE_EMPTY);
    map.set(5, 5, TILE_EMPTY);
    nobiscuit::maze::connect::ensure_spawn_walkable(&mut map, 7, 7);
    for y in 0..7i32 {
        for x in 0..7i32 {
            let want = if (x, y) == (1, 1) || (x, y) == (5, 5) { TILE_EMPTY } else { TILE_WALL };
            assert_eq!(map.get(x, y), Some(want));
        }
    }
}

#[test]
fn islands_are_listed_in_scan_order() {
    let (w, h) = (7usize, 7usize);
    let mut mask = vec![false; w * h];
    for &(x, y) in &[(1usize, 1usize), (2, 1), (3, 1), (5, 1), (5, 5), (5, 4), (5, 3)] {
        mask[y * w + x] = true;
    }
    let islands = nobiscuit::maze::mask::find_islands(&mask, w, h);
    assert_eq!(islands, vec![vec![(1, 1), (3, 1)], vec![(5, 1)], vec![(5, 3), (5, 5)]]);
}

#[test]
fn bsp_leaves_share_only_walls_and_strips_cross_no_leaf() {
    for seed in 0..50u64 {
        let mut rng = StdRng::seed_from_u64(seed);
        let mut regions: Vec<(usize, usize, usize, usize)> = Vec::new();
        let mut strips: Vec<CorridorStrip> = Vec::new();
        let mut budget = 2usize;
        bsp_split(&mut regions, &mut strips, 0, 0, 31, 25, 0, &mut budget, &mut rng);
        assert!(!regions.is_empty());
        assert_eq!(strips.len(), 2 - budget);
        for (i, a) in regions.iter().enumerate() {
            assert!(a.0 % 2 == 0 && a.1 % 2 == 0 && a.2 % 2 == 1 && a.3 % 2 == 1, "{a:?}");
            assert!(a.2 >= 5 && a.3 >= 5);
            assert!(a.0 + a.2 <= 31 && a.1 + a.3 <= 25);
            for b in &regions[i + 1..] {
                let apart = a.0 + a.2 <= b.0 + 1
                    || b.0 + b.2 <= a.0 + 1
                    || a.1 + a.3 <= b.1 + 1
                    || b.1 + b.3 <= a.1 + 1;
                assert!(apart, "seed {seed}: {a:?} {b:?}");
            }
            for c in &strips {
                for across in c.pos + 1..=c.pos + 3 {
                    for along in c.from..=c.to {
                        let (x, y) = if c.horizontal { (along, across) } else { (across, along) };
                        let inside = a.0 <= x && x < a.0 + a.2 && a.1 <= y && y < a.1 + a.3;
                        assert!(!inside, "seed {seed}: strip cell ({x}, {y}) in {a:?}");
                    }
                }
            }
        }
    }
}

#[test]
fn mask_covers_forty_to_seventy_percent_of_nodes() {
    for seed in 0..100u64 {
        let mut rng = StdRng::seed_from_u64(seed);
        for &(w, h) in &[(15usize, 13usize), (31, 25), (61, 45)] {
            let mask = nobiscuit::maze::mask::generate_mask(w, h, &mut rng);
            let total = ((w - 1) / 2) * ((h - 1) / 2);
            let mut masked = 0;
            for y in (1..h - 1).step_by(2) {
                for x in (1..w - 1).step_by(2) {
                    if mask[y * w + x] {
                        masked += 1;
                    }
                }
            }
            assert!(masked >= total * 40 / 100, "seed {seed}: {masked} of {total}");
            assert!(masked <= total * 70 / 100 || masked <= 5, "seed {seed}: {masked} of {total}");
            assert!(mask[w + 1]);
            // A cell between two nodes is set exactly when both nodes are.
            for y in 1..h - 1 {
                for x in 1..w - 1 {
                    if x % 2 == 0 && y % 2 == 1 {
                        let both = x + 1 < w - 1 && mask[y * w + x - 1] && mask[y * w + x + 1];
                        assert_eq!(mask[y * w + x], both);
                    } else if x % 2 == 1 && y % 2 == 0 {
                        let both = y + 1 < h - 1 && mask[(y - 1) * w + x] && mask[(y + 1) * w + x];
                        assert_eq!(mask[y * w + x], both);
                    } else if x % 2 == 0 && y % 2 == 0 {
                        assert!(!mask[y * w + x]);
                    }
                }
            }
        }
    }
}

#[test]
fn doors_take_their_type_from_the_room() {
    for seed in 0..30u64 {
        let mut rng = StdRng::seed_from_u64(seed);
        let mut map = NobiscuitMap::new(11, 7);
        for y in 1..4 {
            for x in 1..4 {
                map.set(x, y, TILE_EMPTY);
            }
        }
        for y in 1..3 {
            for x in 7..9 {
                map.set(x, y, TILE_EMPTY);
            }
        }
        for y in 1..6 {
            map.set(5, y, TILE_EMPTY);
        }
        map.set(9, 5, TILE_GOAL);
        let rooms = vec![Room { x: 1, y: 1, w: 3, h: 3 }, Room { x: 7, y: 1, w: 2, h: 2 }];
        place_doors(&mut map, &rooms, 11, 7, &mut rng);
        let (mut fusuma, mut genkan) = (0, 0);
        for y in 0..7i32 {
            for x in 0..11i32 {
                match map.get(x, y) {
                    Some(TILE_DOOR_FUSUMA) => {
                        assert_eq!(x, 4, "seed {seed}");
                        fusuma += 1;
                    }
                    Some(TILE_DOOR_GENKAN) => {
                        assert_eq!(x, 6, "seed {seed}");
                        genkan += 1;
                    }
                    _ => {}
                }
            }
        }
        assert!((1..=2).contains(&fusuma) && (1..=2).contains(&genkan), "seed {seed}");
    }
}

#[test]
fn every_island_with_free_floor_gets_both_stairs() {
    for seed in 0..40u64 {
        let mut rng = StdRng::seed_from_u64(seed);
        let (w, h) = (31usize, 25usize);
        let map = nobiscuit::maze::floor::build_floor_layout(w, h, 1, 3, &mut rng);
        let mask: Vec<bool> = (0..w * h)
            .map(|i| map.get((i % w) as i32, (i / w) as i32) != Some(TILE_VOID))
            .collect();
        let islands = nobiscuit::maze::mask::find_islands(&mask, w, h);
        for island in &islands {
            let tiles: Vec<u8> = island.iter().map(|&(x, y)| map.get(x as i32, y as i32).unwrap()).collect();
            let free = island
                .iter()
                .zip(&tiles)
                .any(|(&p, &t)| p != (1, 1) && t == TILE_EMPTY);
            if free || tiles.contains(&TILE_STAIRS_UP) || tiles.contains(&TILE_STAIRS_DOWN) {
                assert!(tiles.contains(&TILE_STAIRS_DOWN), "seed {seed}");
                assert!(tiles.contains(&TILE_STAIRS_UP), "seed {seed}");
            }
        }
    }
}

#[test]
fn a_generated_maze_has_exactly_one_goal() {
    for seed in 0..60u64 {
        let mut rng = StdRng::seed_from_u64(seed);
        for &(w, h) in &[(15usize, 13usize), (31, 25)] {
            let (map, _rooms) = generate_maze(w, h, &mut rng);
            let mut goals = 0;
            for y in 0..h as i32 {
                for x in 0..w as i32 {
                    if map.get(x, y) == Some(TILE_GOAL) {
                        goals += 1;
                    }
                }
            }
            assert_eq!(goals, 1, "seed {seed}");
        }
    }
}

#[test]
fn rooms_facing_across_one_wall_get_exactly_one_door() {
    for seed in 0..30u64 {
        let mut rng = StdRng::seed_from_u64(seed);
        let mut map = NobiscuitMap::new(11, 7);
        for y in 1..4 {
            for x in 1..4 {
                map.set(x, y, TILE_EMPTY);
            }
            for x in 5..8 {
                map.set(x, y, TILE_EMPTY);
            }
        }
        let rooms = vec![Room { x: 1, y: 1, w: 3, h: 3 }, Room { x: 5, y: 1, w: 3, h: 3 }];
        nobiscuit::maze::connect::connect_rooms(&mut map, &rooms, &Vec::new(), 11, 7, &mut rng);
        let mut doors = Vec::new();
        for y in 0..7i32 {
            for x in 0..11i32 {
                if map.get(x, y) == Some(TILE_DOOR_FUSUMA) {
                    doors.push((x, y));
                }
            }
        }
        assert_eq!(doors.len(), 1, "seed {seed}");
        assert_eq!(doors[0].0, 4, "seed {seed}");
        assert!((1..=3).contains(&doors[0].1), "seed {seed}");
    }
}

#[test]
fn a_room_facing_a_corridor_opens_onto_it() {
    let mut rng = StdRng::seed_from_u64(7);
    let mut map = NobiscuitMap::new(11, 7);
    for y in 1..4 {
        for x in 1..4 {
            map.set(x, y, TILE_EMPTY);
        }
    }
    let corridor: Vec<(usize, usize)> = (1..6).map(|y| (5usize, y)).collect();
    for &(x, y) in &corridor {
        map.set(x, y, TILE_EMPTY);
    }
    let rooms = vec![Room { x: 1, y: 1, w: 3, h: 3 }];
    nobiscuit::maze::connect::connect_rooms(&mut map, &rooms, &corridor, 11, 7, &mut rng);
    let doors: Vec<(i32, i32)> = (0..7i32)
        .flat_map(|y| (0..11i32).map(move |x| (x, y)))
        .filter(|&(x, y)| map.get(x, y) == Some(TILE_DOOR_FUSUMA))
        .collect();
    assert_eq!(doors.len(), 1);
    assert_eq!(doors[0].0, 4);
}

#[test]
fn a_rectangle_within_the_leaf_size_stays_one_leaf() {
    let mut regions: Vec<(usize, usize, usize, usize)> = vec![];
    let mut corridors: Vec<CorridorStrip> = vec![];
    let mut budget = 2usize;
    let mut rng = StdRng::seed_from_u64(0);
    bsp_split(&mut regions, &mut corridors, 0, 0, 11, 11, 0, &mut budget, &mut rng);
    assert_eq!(regions, vec![(0, 0, 11, 11)]);
    assert!(corridors.is_empty());
    assert_eq!(budget, 2);
}

#[test]
fn leaves_and_bands_cover_the_rectangle() {
    for seed in 0..20u64 {
        let mut regions: Vec<(usize, usize, usize, usize)> = vec![];
        let mut corridors: Vec<CorridorStrip> = vec![];
        let mut budget = 2usize;
        let mut rng = StdRng::seed_from_u64(seed);
        bsp_split(&mut regions, &mut corridors, 0, 0, 41, 29, 0, &mut budget, &mut rng);
        for y in 0..29usize {
            for x in 0..41usize {
                let in_leaf = regions.iter().any(|r| r.0 <= x && x < r.0 + r.2 && r.1 <= y && y < r.1 + r.3);
                let in_band = corridors.iter().any(|c| {
                    let (across, along) = if c.horizontal { (y, x) } else { (x, y) };
                    c.pos + 1 <= across && across <= c.pos + 3 && c.from <= along + 1 && along <= c.to + 1
                });
                assert!(in_leaf || in_band, "seed {seed} cell ({x}, {y})");
            }
        }
    }
}

#[test]
fn sealing_twice_changes_nothing_more() {
    let mut map = NobiscuitMap::new(9, 7);
    for y in 1..6 {
        for x in 1..8 {
            map.set(x, y, TILE_VOID);
        }
    }
    map.set(3, 3, TILE_EMPTY);
    map.set(4, 3, TILE_EMPTY);
    nobiscuit::maze::decor::seal_void_boundaries(&mut map, 9, 7);
    let once: Vec<Option<u8>> = (0..7i32).flat_map(|y| (0..9i32).map(move |x| (x, y))).map(|(x, y)| map.get(x, y)).collect();
    assert_eq!(map.get(2, 2), Some(TILE_WALL));
    assert_eq!(map.get(1, 1), Some(TILE_VOID));
    nobiscuit::maze::decor::seal_void_boundaries(&mut map, 9, 7);
    let twice: Vec<Option<u8>> = (0..7i32).flat_map(|y| (0..9i32).map(move |x| (x, y))).map(|(x, y)| map.get(x, y)).collect();
    assert_eq!(once, twice);
}

#[test]
fn a_room_between_two_separate_corridors_opens_onto_both() {
    for seed in 0..20u64 {
        let mut rng = StdRng::seed_from_u64(seed);
        let mut map = NobiscuitMap::new(11, 7);
        for y in 1..4 {
            for x in 4..7 {
                map.set(x, y, TILE_EMPTY);
            }
        }
        let mut corridor: Vec<(usize, usize)> = Vec::new();
        for y in 1..6 {
            corridor.push((2, y));
            corridor.push((8, y));
        }
        for &(x, y) in &corridor {
            map.set(x, y, TILE_EMPTY);
        }
        let rooms = vec![Room { x: 4, y: 1, w: 3, h: 3 }];
        nobiscuit::maze::connect::connect_rooms(&mut map, &rooms, &corridor, 11, 7, &mut rng);
        let doors: Vec<(i32, i32)> = (0..7i32)
            .flat_map(|y| (0..11i32).map(move |x| (x, y)))
            .filter(|&(x, y)| map.get(x, y) == Some(TILE_DOOR_FUSUMA))
            .collect();
        assert_eq!(doors.len(), 2, "seed {seed}");
        assert!(doors.iter().any(|d| d.0 == 3), "seed {seed}");
        assert!(doors.iter().any(|d| d.0 == 7), "seed {seed}");
    }
}

#[test]
fn a_walled_in_room_gets_no_door() {
    for seed in 0..20u64 {
        let mut rng = StdRng::seed_from_u64(seed);
        let mut map = NobiscuitMap::new(9, 9);
        for y in 3..6 {
            for x in 3..6 {
                map.set(x, y, TILE_EMPTY);
            }
        }
        let before: Vec<Option<u8>> = (0..81i32).map(|i| map.get(i % 9, i / 9)).collect();
        let rooms = vec![Room { x: 3, y: 3, w: 3, h: 3 }];
        place_doors(&mut map, &rooms, 9, 9, &mut rng);
        let after: Vec<Option<u8>> = (0..81i32).map(|i| map.get(i % 9, i / 9)).collect();
        assert_eq!(before, after, "seed {seed}");
    }
}

#[test]
fn each_island_has_at_most_one_stair_of_each_kind() {
    for seed in 0..40u64 {
        let mut rng = StdRng::seed_from_u64(seed);
        let (w, h) = (31usize, 25usize);
        let map = nobiscuit::maze::floor::build_floor_layout(w, h, 1, 3, &mut rng);
        let mask: Vec<bool> = (0..w * h)
            .map(|i| map.get((i % w) as i32, (i / w) as i32) != Some(TILE_VOID))
            .collect();
        let islands = nobiscuit::maze::mask::find_islands(&mask, w, h);
        for island in &islands {
            let tiles: Vec<u8> = island.iter().map(|&(x, y)| map.get(x as i32, y as i32).unwrap()).collect();
            assert!(tiles.iter().filter(|&&t| t == TILE_STAIRS_DOWN).count() <= 1, "seed {seed}");
            assert!(tiles.iter().filter(|&&t| t == TILE_STAIRS_UP).count() <= 1, "seed {seed}");
        }
    }
}
