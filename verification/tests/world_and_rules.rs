use nobiscuit::game::{
    place_floor_items, Floor, GameState, OpenDoor, Sprite, StairDirection, StairTransition, World,
    SPRITE_BISCUIT, SPRITE_GOAL, SPRITE_STAIRS_DOWN, SPRITE_STAIRS_UP,
};
use nobiscuit::map::TileMap;
use nobiscuit::nobiscuit_map::NobiscuitMap;
use nobiscuit::tiles::{
    TILE_DOOR_FUSUMA, TILE_DOOR_KITCHEN, TILE_EMPTY, TILE_GOAL, TILE_STAIRS_DOWN, TILE_STAIRS_UP,
    TILE_WALL,
};
use rand::rngs::StdRng;
use rand::SeedableRng;

fn open_map(w: usize, h: usize) -> NobiscuitMap {
    let mut m = NobiscuitMap::new(w, h);
    for y in 1..h - 1 {
        for x in 1..w - 1 {
            m.set(x, y, TILE_EMPTY);
        }
    }
    m
}

fn world_of(maps: Vec<NobiscuitMap>, current: usize) -> World {
    let floors = maps.into_iter().map(|map| Floor { map, sprites: Vec::new() }).collect();
    World { floors, current_floor: current }
}

#[test]
fn world_new_builds_every_floor() {
    let mut rng = StdRng::seed_from_u64(3);
    let world = World::new(3, 31, 25, &mut rng);
    assert_eq!(world.floors.len(), 3);
    assert_eq!(world.current_floor, 0);
    // No biscuit on the ground-floor spawn.
    for s in &world.floors[0].sprites {
        if s.sprite_type == SPRITE_BISCUIT {
            assert!(!(s.x == 1 && s.y == 1));
        }
    }
    // The top floor carries exactly one goal sprite, on the goal tile.
    let top = &world.floors[2];
    let goals: Vec<&Sprite> = top.sprites.iter().filter(|s| s.sprite_type == SPRITE_GOAL).collect();
    assert_eq!(goals.len(), 1);
    assert_eq!(top.map.get(goals[0].x as i32, goals[0].y as i32), Some(TILE_GOAL));
}

#[test]
fn place_floor_items_counts_and_order() {
    let mut m = open_map(8, 5); // 6 x 3 = 18 EMPTY cells
    m.set(3, 1, TILE_STAIRS_UP);
    m.set(1, 3, TILE_STAIRS_DOWN);
    m.set(6, 3, TILE_GOAL);
    let mut rng = StdRng::seed_from_u64(1);
    let sprites = place_floor_items(&m, true, &mut rng);
    // Stairs first, in row-major order.
    assert_eq!(sprites[0], Sprite { x: 3, y: 1, sprite_type: SPRITE_STAIRS_UP });
    assert_eq!(sprites[1], Sprite { x: 1, y: 3, sprite_type: SPRITE_STAIRS_DOWN });
    // 15 EMPTY cells remain, minus the spawn corner: 14 candidates, 14/3 = 4,
    // raised to the minimum of 5.
    let biscuits: Vec<&Sprite> = sprites.iter().filter(|s| s.sprite_type == SPRITE_BISCUIT).collect();
    assert_eq!(biscuits.len(), 5);
    for (i, a) in biscuits.iter().enumerate() {
        assert_eq!(m.get(a.x as i32, a.y as i32), Some(TILE_EMPTY));
        assert!(!(a.x == 1 && a.y == 1));
        for b in biscuits.iter().skip(i + 1) {
            assert!(!(a.x == b.x && a.y == b.y));
        }
    }
    // The goal sprite comes last.
    assert_eq!(*sprites.last().unwrap(), Sprite { x: 6, y: 3, sprite_type: SPRITE_GOAL });
    assert_eq!(sprites.len(), 2 + 5 + 1);
}

#[test]
fn place_floor_items_third_of_many_cells() {
    let m = open_map(32, 32); // 900 EMPTY cells
    let mut rng = StdRng::seed_from_u64(9);
    let sprites = place_floor_items(&m, false, &mut rng);
    assert_eq!(sprites.len(), 300);
}

#[test]
fn place_floor_items_never_more_biscuits_than_cells() {
    let m = open_map(4, 3); // 2 EMPTY cells
    let mut rng = StdRng::seed_from_u64(2);
    let sprites = place_floor_items(&m, false, &mut rng);
    assert_eq!(sprites.len(), 2);
}

#[test]
fn biscuit_positions_depend_on_the_seed() {
    let m = open_map(22, 22); // 400 EMPTY cells, 133 biscuits
    let a = place_floor_items(&m, false, &mut StdRng::seed_from_u64(1));
    let b = place_floor_items(&m, false, &mut StdRng::seed_from_u64(2));
    assert_eq!(a.len(), 133);
    assert_ne!(a, b);
}

#[test]
fn check_stairs_directions() {
    let mut f0 = open_map(5, 5);
    f0.set(2, 1, TILE_STAIRS_UP);
    f0.set(3, 3, TILE_STAIRS_DOWN);
    let mut f1 = open_map(5, 5);
    f1.set(2, 2, TILE_STAIRS_DOWN);
    f1.set(3, 3, TILE_STAIRS_UP);
    let mut world = world_of(vec![f0, f1], 0);
    assert_eq!(
        world.check_stairs(2, 1),
        Some(StairTransition { target_floor: 1, direction: StairDirection::Up })
    );
    // No floor below the ground floor, nothing above the top floor.
    assert_eq!(world.check_stairs(3, 3), None);
    assert_eq!(world.check_stairs(1, 1), None);
    assert_eq!(world.check_stairs(-4, 1), None);
    world.current_floor = 1;
    assert_eq!(
        world.check_stairs(2, 2),
        Some(StairTransition { target_floor: 0, direction: StairDirection::Down })
    );
    assert_eq!(world.check_stairs(3, 3), None);
}

#[test]
fn change_floor_lands_on_matching_stairs() {
    let mut f0 = open_map(6, 5);
    f0.set(4, 3, TILE_STAIRS_UP);
    f0.set(2, 3, TILE_STAIRS_UP);
    let mut f1 = open_map(6, 5);
    f1.set(3, 2, TILE_STAIRS_DOWN);
    let mut world = world_of(vec![f0, f1], 0);
    assert_eq!(world.change_floor(1, StairDirection::Up), (3, 2));
    assert_eq!(world.current_floor, 1);
    // Going down lands on the first stairs up in row-major order.
    assert_eq!(world.change_floor(0, StairDirection::Down), (2, 3));
    assert_eq!(world.current_floor, 0);
}

#[test]
fn change_floor_falls_back_to_empty_then_spawn() {
    let mut f0 = NobiscuitMap::new(6, 5);
    f0.set(3, 2, TILE_EMPTY);
    f0.set(4, 3, TILE_EMPTY);
    let f1 = NobiscuitMap::new(6, 5);
    let mut world = world_of(vec![f0, f1], 1);
    assert_eq!(world.change_floor(0, StairDirection::Up), (3, 2));
    assert_eq!(world.change_floor(1, StairDirection::Down), (1, 1));
}

#[test]
fn doors_open_next_to_player_and_close_when_far() {
    let mut map = open_map(9, 3);
    map.set(2, 1, TILE_DOOR_FUSUMA);
    map.set(0, 1, TILE_DOOR_KITCHEN); // on the outer ring, also next to (1, 1)
    let mut state = GameState::new();
    state.update_doors(&mut map, 1, 1);
    assert_eq!(map.get(2, 1), Some(TILE_EMPTY));
    assert_eq!(map.get(0, 1), Some(TILE_EMPTY));
    assert_eq!(state.open_doors.len(), 2);
    // One step from the fusuma (still open), three from the kitchen door,
    // which closes with its own tile.
    state.update_doors(&mut map, 3, 1);
    assert_eq!(map.get(2, 1), Some(TILE_EMPTY));
    assert_eq!(map.get(0, 1), Some(TILE_DOOR_KITCHEN));
    assert_eq!(state.open_doors, vec![OpenDoor { x: 2, y: 1, tile: TILE_DOOR_FUSUMA }]);
    // Three steps away: the door closes with its own tile.
    state.update_doors(&mut map, 5, 1);
    assert_eq!(map.get(2, 1), Some(TILE_DOOR_FUSUMA));
    assert!(state.open_doors.is_empty());
}

#[test]
fn door_stays_open_when_its_cell_is_taken() {
    let mut map = open_map(9, 3);
    map.set(2, 1, TILE_DOOR_FUSUMA);
    let mut state = GameState::new();
    state.update_doors(&mut map, 1, 1);
    map.set(2, 1, TILE_WALL);
    state.update_doors(&mut map, 6, 1);
    assert_eq!(map.get(2, 1), Some(TILE_WALL));
    assert!(state.open_doors.is_empty());
}

#[test]
fn pick_up_eats_near_biscuits() {
    let mut state = GameState::new();
    let mut sprites = vec![
        Sprite { x: 1, y: 1, sprite_type: SPRITE_BISCUIT },
        Sprite { x: 5, y: 5, sprite_type: SPRITE_BISCUIT },
        Sprite { x: 1, y: 1, sprite_type: SPRITE_BISCUIT },
        Sprite { x: 7, y: 7, sprite_type: SPRITE_GOAL },
    ];
    let near = vec![true, false, true, false];
    let eaten = state.pick_up(&mut sprites, &near);
    assert_eq!(eaten, 2);
    assert_eq!(state.biscuits_eaten, 2);
    assert!(!state.escaped);
    assert_eq!(sprites.len(), 2);
    assert!(sprites.contains(&Sprite { x: 5, y: 5, sprite_type: SPRITE_BISCUIT }));
    assert!(sprites.contains(&Sprite { x: 7, y: 7, sprite_type: SPRITE_GOAL }));
}

#[test]
fn pick_up_reaching_the_goal_escapes() {
    let mut state = GameState::new();
    let mut sprites = vec![
        Sprite { x: 2, y: 2, sprite_type: SPRITE_GOAL },
        Sprite { x: 2, y: 2, sprite_type: SPRITE_BISCUIT },
    ];
    let near = vec![true, true];
    let eaten = state.pick_up(&mut sprites, &near);
    assert!(state.escaped);
    assert_eq!(eaten, 0);
    assert_eq!(sprites.len(), 2);
}

#[test]
fn update_does_nothing_after_death_and_starvation_kills() {
    let mut world = world_of(vec![open_map(5, 5)], 0);
    world.floors[0].sprites.push(Sprite { x: 1, y: 1, sprite_type: SPRITE_BISCUIT });
    let mut state = GameState::new();
    let eaten = state.update(&mut world, 1, 1, true, &vec![true]);
    assert_eq!(eaten, 0);
    assert!(!state.is_alive);
    assert_eq!(world.floors[0].sprites.len(), 1);
    let eaten = state.update(&mut world, 1, 1, false, &vec![true]);
    assert_eq!(eaten, 0);
    assert_eq!(world.floors[0].sprites.len(), 1);
}

#[test]
fn update_takes_stairs_with_bounce_guard() {
    let mut f0 = open_map(6, 5);
    f0.set(2, 2, TILE_STAIRS_UP);
    let f1 = open_map(6, 5);
    let mut world = world_of(vec![f0, f1], 0);
    let mut state = GameState::new();
    // Armed guard: standing on the arrival stair does nothing.
    state.mark_on_stair();
    state.update(&mut world, 2, 2, false, &vec![]);
    assert_eq!(state.floor_transition, None);
    assert!(state.on_stair_tile);
    // Stepping off releases the guard; stepping back on takes the stairs.
    state.update(&mut world, 3, 2, false, &vec![]);
    assert!(!state.on_stair_tile);
    state.update(&mut world, 2, 2, false, &vec![]);
    assert_eq!(
        state.floor_transition,
        Some(StairTransition { target_floor: 1, direction: StairDirection::Up })
    );
}

#[test]
fn update_eats_and_escapes() {
    let mut world = world_of(vec![open_map(6, 5)], 0);
    world.floors[0].sprites = vec![
        Sprite { x: 1, y: 1, sprite_type: SPRITE_BISCUIT },
        Sprite { x: 3, y: 3, sprite_type: SPRITE_GOAL },
    ];
    let mut state = GameState::new();
    let eaten = state.update(&mut world, 1, 1, false, &vec![true, false]);
    assert_eq!(eaten, 1);
    assert_eq!(state.biscuits_eaten, 1);
    assert_eq!(world.floors[0].sprites.len(), 1);
    let eaten = state.update(&mut world, 3, 3, false, &vec![true]);
    assert_eq!(eaten, 0);
    assert!(state.escaped);
}

#[test]
fn update_opens_doors_on_the_current_floor() {
    let mut f0 = open_map(6, 5);
    f0.set(2, 1, TILE_DOOR_FUSUMA);
    let mut world = world_of(vec![f0], 0);
    let mut state = GameState::new();
    state.update(&mut world, 1, 1, false, &vec![]);
    assert_eq!(world.current_map().get(2, 1), Some(TILE_EMPTY));
}

#[test]
fn pick_up_eats_biscuits_swapped_in_before_the_goal() {
    let mut state = GameState::new();
    let mut sprites = vec![
        Sprite { x: 1, y: 1, sprite_type: SPRITE_BISCUIT },
        Sprite { x: 3, y: 3, sprite_type: SPRITE_GOAL },
        Sprite { x: 2, y: 2, sprite_type: SPRITE_BISCUIT },
    ];
    let near = vec![true, true, true];
    let eaten = state.pick_up(&mut sprites, &near);
    assert_eq!(eaten, 2);
    assert_eq!(state.biscuits_eaten, 2);
    assert!(state.escaped);
    assert_eq!(sprites, vec![Sprite { x: 3, y: 3, sprite_type: SPRITE_GOAL }]);
}

#[test]
fn pick_up_keeps_swap_order() {
    let mut state = GameState::new();
    let mut sprites = vec![
        Sprite { x: 1, y: 1, sprite_type: SPRITE_BISCUIT },
        Sprite { x: 2, y: 2, sprite_type: SPRITE_BISCUIT },
        Sprite { x: 3, y: 3, sprite_type: SPRITE_BISCUIT },
        Sprite { x: 4, y: 4, sprite_type: SPRITE_BISCUIT },
    ];
    let near = vec![true, false, false, false];
    let eaten = state.pick_up(&mut sprites, &near);
    assert_eq!(eaten, 1);
    assert_eq!(
        sprites,
        vec![
            Sprite { x: 4, y: 4, sprite_type: SPRITE_BISCUIT },
            Sprite { x: 2, y: 2, sprite_type: SPRITE_BISCUIT },
            Sprite { x: 3, y: 3, sprite_type: SPRITE_BISCUIT },
        ]
    );
}

#[test]
fn transition_messages_count_floors_from_one() {
    let up = StairTransition { target_floor: 1, direction: StairDirection::Up };
    let down = StairTransition { target_floor: 0, direction: StairDirection::Down };
    let far = StairTransition { target_floor: 11, direction: StairDirection::Up };
    let s = |t| nobiscuit::game::transition_message(t).into_iter().collect::<String>();
    assert_eq!(s(up), "Going up to 2F...");
    assert_eq!(s(down), "Going down to 1F...");
    assert_eq!(s(far), "Going up to 12F...");
}

#[test]
fn leaving_a_floor_closes_every_open_door() {
    let mut map = open_map(9, 3);
    map.set(2, 1, TILE_DOOR_FUSUMA);
    map.set(0, 1, TILE_DOOR_KITCHEN);
    let mut state = GameState::new();
    state.update_doors(&mut map, 1, 1);
    assert_eq!(state.open_doors.len(), 2);
    state.restore_all_doors(&mut map);
    assert_eq!(map.get(2, 1), Some(TILE_DOOR_FUSUMA));
    assert_eq!(map.get(0, 1), Some(TILE_DOOR_KITCHEN));
    assert!(state.open_doors.is_empty());
}

#[test]
fn taking_a_floor_change_closes_doors_and_lands_on_the_stairs() {
    let mut f0 = open_map(6, 5);
    f0.set(2, 1, TILE_DOOR_FUSUMA);
    f0.set(4, 3, TILE_STAIRS_UP);
    let mut f1 = open_map(6, 5);
    f1.set(3, 2, TILE_STAIRS_DOWN);
    let mut world = world_of(vec![f0, f1], 0);
    let mut state = GameState::new();
    // Nothing pending: nothing happens.
    assert_eq!(state.take_floor_transition(&mut world), None);
    assert_eq!(world.current_floor, 0);
    assert!(!state.on_stair_tile);
    // Open the door, then take the stairs up.
    state.update_doors(&mut world.floors[0].map, 1, 1);
    assert_eq!(world.floors[0].map.get(2, 1), Some(TILE_EMPTY));
    state.floor_transition = Some(StairTransition { target_floor: 1, direction: StairDirection::Up });
    assert_eq!(state.take_floor_transition(&mut world), Some((3, 2)));
    assert_eq!(world.current_floor, 1);
    assert_eq!(world.floors[0].map.get(2, 1), Some(TILE_DOOR_FUSUMA));
    assert!(state.open_doors.is_empty());
    assert!(state.on_stair_tile);
    assert_eq!(state.floor_transition, None);
}
