use nobiscuit::input::{input_for_key, GameInput, Key};
use nobiscuit::phase::{phase_step, Phase, PhaseAction};
use nobiscuit::nobiscuit_map::NobiscuitMap;
use nobiscuit::player::{Dir, Player, PlayerAction};
use nobiscuit::tiles::{TILE_DOOR_FUSUMA, TILE_EMPTY, TILE_STAIRS_UP};

const ALL: [Dir; 4] = [Dir::East, Dir::South, Dir::West, Dir::North];

#[test]
fn direction_steps() {
    assert_eq!((Dir::East.dx(), Dir::East.dy()), (1, 0));
    assert_eq!((Dir::South.dx(), Dir::South.dy()), (0, 1));
    assert_eq!((Dir::West.dx(), Dir::West.dy()), (-1, 0));
    assert_eq!((Dir::North.dx(), Dir::North.dy()), (0, -1));
}

#[test]
fn turns_cancel_and_cycle() {
    for d in ALL {
        assert_eq!(d.turn_right().turn_left(), d);
        assert_eq!(d.turn_left().turn_right(), d);
        assert_eq!(d.turn_left().turn_left().turn_left().turn_left(), d);
        let back = d.turn_left().turn_left();
        assert_eq!((back.dx(), back.dy()), (-d.dx(), -d.dy()));
    }
    assert_eq!(Dir::East.turn_left(), Dir::North);
    assert_eq!(Dir::East.turn_right(), Dir::South);
}

fn corridor() -> NobiscuitMap {
    let mut m = NobiscuitMap::new(6, 3);
    m.set(1, 1, TILE_EMPTY);
    m.set(2, 1, TILE_EMPTY);
    m.set(3, 1, TILE_STAIRS_UP);
    m.set(4, 1, TILE_DOOR_FUSUMA);
    m
}

#[test]
fn player_moves_onto_free_tiles_only() {
    let map = corridor();
    let mut p = Player::new(1, 1);
    assert_eq!(p.facing, Dir::East);
    assert_eq!(p.update(Some(GameInput::MoveForward), &map), PlayerAction::Moved { x: 2, y: 1 });
    assert_eq!(p.update(Some(GameInput::MoveForward), &map), PlayerAction::Moved { x: 3, y: 1 });
    // A closed door is solid.
    assert_eq!(p.update(Some(GameInput::MoveForward), &map), PlayerAction::Stay);
    assert_eq!((p.grid_x, p.grid_y), (3, 1));
    // Backward without turning.
    assert_eq!(p.update(Some(GameInput::MoveBackward), &map), PlayerAction::Moved { x: 2, y: 1 });
    assert_eq!(p.facing, Dir::East);
}

#[test]
fn player_turns_and_ignores_other_commands() {
    let map = corridor();
    let mut p = Player::new(1, 1);
    assert_eq!(
        p.update(Some(GameInput::TurnLeft), &map),
        PlayerAction::Turned { from: Dir::East, to: Dir::North }
    );
    // North of (1, 1) is the outer wall.
    assert_eq!(p.update(Some(GameInput::MoveForward), &map), PlayerAction::Stay);
    assert_eq!(
        p.update(Some(GameInput::TurnRight), &map),
        PlayerAction::Turned { from: Dir::North, to: Dir::East }
    );
    assert_eq!(p.update(Some(GameInput::ToggleMinimap), &map), PlayerAction::Stay);
    assert_eq!(p.update(None, &map), PlayerAction::Stay);
    assert_eq!((p.grid_x, p.grid_y, p.facing), (1, 1, Dir::East));
}

#[test]
fn key_bindings() {
    assert_eq!(input_for_key(Key::Char('w'), false), Some(GameInput::MoveForward));
    assert_eq!(input_for_key(Key::Up, false), Some(GameInput::MoveForward));
    assert_eq!(input_for_key(Key::Char('s'), false), Some(GameInput::MoveBackward));
    assert_eq!(input_for_key(Key::Down, false), Some(GameInput::MoveBackward));
    assert_eq!(input_for_key(Key::Char('a'), false), Some(GameInput::TurnLeft));
    assert_eq!(input_for_key(Key::Left, false), Some(GameInput::TurnLeft));
    assert_eq!(input_for_key(Key::Char('d'), false), Some(GameInput::TurnRight));
    assert_eq!(input_for_key(Key::Right, false), Some(GameInput::TurnRight));
    assert_eq!(input_for_key(Key::Char('m'), false), Some(GameInput::ToggleMinimap));
    assert_eq!(input_for_key(Key::Char('q'), false), Some(GameInput::Quit));
    assert_eq!(input_for_key(Key::Esc, false), Some(GameInput::Quit));
    assert_eq!(input_for_key(Key::Char('y'), false), Some(GameInput::Retry));
    assert_eq!(input_for_key(Key::Char('n'), false), Some(GameInput::Decline));
    assert_eq!(input_for_key(Key::Char('c'), true), Some(GameInput::Quit));
    assert_eq!(input_for_key(Key::Char('c'), false), None);
    assert_eq!(input_for_key(Key::Char('W'), false), None);
    assert_eq!(input_for_key(Key::Other, false), None);
}

#[test]
fn phase_steps_follow_the_screens() {
    let opening = Phase::Opening { spins: 0 };
    // No key: nothing changes.
    assert_eq!(phase_step(opening, false, None, false, false), (opening, PhaseAction::Stay));
    // Confirming before any spin spins instead.
    assert_eq!(
        phase_step(opening, true, None, true, false),
        (Phase::Opening { spins: 1 }, PhaseAction::Shake)
    );
    assert_eq!(
        phase_step(Phase::Opening { spins: 3 }, true, Some(GameInput::TurnLeft), false, false),
        (Phase::Opening { spins: 4 }, PhaseAction::Shake)
    );
    assert_eq!(
        phase_step(Phase::Opening { spins: u32::MAX }, true, None, false, false),
        (Phase::Opening { spins: u32::MAX }, PhaseAction::Shake)
    );
    assert_eq!(
        phase_step(Phase::Opening { spins: 2 }, true, None, true, false),
        (Phase::Playing, PhaseAction::StartRun)
    );
    assert_eq!(
        phase_step(Phase::Opening { spins: 2 }, true, Some(GameInput::Quit), true, false),
        (Phase::Opening { spins: 2 }, PhaseAction::Quit)
    );
    // During a run only quit matters; retry waits for the result screen.
    assert_eq!(phase_step(Phase::Playing, true, Some(GameInput::Retry), false, false), (Phase::Playing, PhaseAction::Stay));
    assert_eq!(phase_step(Phase::Playing, true, Some(GameInput::Quit), false, false), (Phase::Playing, PhaseAction::Quit));
    assert_eq!(
        phase_step(Phase::Playing, true, Some(GameInput::Retry), false, true),
        (Phase::Opening { spins: 0 }, PhaseAction::Stay)
    );
    assert_eq!(phase_step(Phase::Playing, true, Some(GameInput::Decline), false, true), (Phase::Playing, PhaseAction::Quit));
    assert_eq!(phase_step(Phase::Playing, true, Some(GameInput::MoveForward), false, true), (Phase::Playing, PhaseAction::Stay));
}
