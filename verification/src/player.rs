//! Grid movement: the facing direction, turns, and steps onto free tiles.
//!
//! The smooth animation between tiles is drawn by the front end; this
//! module decides where the player stands and faces.

use vstd::prelude::*;
use crate::input::GameInput;
use crate::map::TileMap;
use crate::nobiscuit_map::NobiscuitMap;

verus! {

/// Cardinal direction, in 90-degree steps clockwise from east.
#[derive(Clone, Copy, PartialEq, Eq, Debug, Structural)]
pub enum Dir {
    East,
    South,
    West,
    North,
}

impl Dir {
    /// Column step of one move in this direction.
    pub open spec fn step_x(self) -> int {
        match self {
            Dir::East => 1,
            Dir::West => -1,
            _ => 0,
        }
    }

    /// Row step of one move in this direction.
    pub open spec fn step_y(self) -> int {
        match self {
            Dir::South => 1,
            Dir::North => -1,
            _ => 0,
        }
    }

    /// A quarter turn counter-clockwise.
    pub open spec fn left_of(self) -> Dir {
        match self {
            Dir::East => Dir::North,
            Dir::North => Dir::West,
            Dir::West => Dir::South,
            Dir::South => Dir::East,
        }
    }

    /// A quarter turn clockwise.
    pub open spec fn right_of(self) -> Dir {
        match self {
            Dir::East => Dir::South,
            Dir::South => Dir::West,
            Dir::West => Dir::North,
            Dir::North => Dir::East,
        }
    }

    /// Column step: 1 east, -1 west, 0 otherwise.
    pub fn dx(self) -> (r: i32)
        ensures
            r == self.step_x(),
    {
        match self {
            Dir::East => 1,
            Dir::West => -1,
            _ => 0,
        }
    }

    /// Row step: 1 south, -1 north, 0 otherwise.
    pub fn dy(self) -> (r: i32)
        ensures
            r == self.step_y(),
    {
        match self {
            Dir::South => 1,
            Dir::North => -1,
            _ => 0,
        }
    }

    /// The direction after turning left.
    pub fn turn_left(self) -> (r: Dir)
        ensures
            r == self.left_of(),
    {
        match self {
            Dir::East => Dir::North,
            Dir::North => Dir::West,
            Dir::West => Dir::South,
            Dir::South => Dir::East,
        }
    }

    /// The direction after turning right.
    pub fn turn_right(self) -> (r: Dir)
        ensures
            r == self.right_of(),
    {
        match self {
            Dir::East => Dir::South,
            Dir::South => Dir::West,
            Dir::West => Dir::North,
            Dir::North => Dir::East,
        }
    }
}

/// Turning left undoes turning right, and the other way round.
pub proof fn lemma_turns_cancel(d: Dir)
    ensures
        d.right_of().left_of() == d,
        d.left_of().right_of() == d,
{
}

/// Four quarter turns in one sense bring the player back to where they faced.
pub proof fn lemma_four_turns(d: Dir)
    ensures
        d.left_of().left_of().left_of().left_of() == d,
        d.right_of().right_of().right_of().right_of() == d,
{
}

/// Two left turns face the opposite way: every step is reversed, and each
/// step moves exactly one tile along one axis.
pub proof fn lemma_about_face(d: Dir)
    ensures
        d.left_of().left_of().step_x() == -d.step_x(),
        d.left_of().left_of().step_y() == -d.step_y(),
        d.left_of().left_of() == d.right_of().right_of(),
        d.step_x() * d.step_x() + d.step_y() * d.step_y() == 1,
{
}

/// What a player's turn of input did.
#[derive(Clone, Copy, PartialEq, Eq, Debug, Structural)]
pub enum PlayerAction {
    /// Nothing: no input, a blocked step, or a command for something else.
    Stay,
    /// A quarter turn from one direction to another.
    Turned { from: Dir, to: Dir },
    /// A step onto tile `(x, y)`.
    Moved { x: i32, y: i32 },
}

/// The player's grid position and facing.
pub struct Player {
    /// Tile column.
    pub grid_x: i32,
    /// Tile row.
    pub grid_y: i32,
    /// The way the player looks.
    pub facing: Dir,
}

/// Where a step from `p` in direction `d` on `map` ends, if the target is free.
pub open spec fn step_target(p: &Player, d: Dir, map: &NobiscuitMap) -> Option<(i32, i32)> {
    let nx = p.grid_x + d.step_x();
    let ny = p.grid_y + d.step_y();
    if map.spec_is_solid(nx, ny) {
        None
    } else {
        Some((nx as i32, ny as i32))
    }
}

/// A grid position from which one step cannot overflow.
pub open spec fn steppable(p: &Player) -> bool {
    i32::MIN < p.grid_x < i32::MAX && i32::MIN < p.grid_y < i32::MAX
}

impl Player {
    /// A player on tile `(x, y)`, facing east.
    pub fn new(x: i32, y: i32) -> (p: Player)
        ensures
            p.grid_x == x,
            p.grid_y == y,
            p.facing == Dir::East,
    {
        Player { grid_x: x, grid_y: y, facing: Dir::East }
    }

    /// React to one command while the player stands still: turn left or
    /// right, or step forward or backward (without turning) onto a tile that
    /// is not solid. Other commands, and no command, change nothing.
    pub fn update(&mut self, input: Option<GameInput>, map: &NobiscuitMap) -> (act: PlayerAction)
        requires
            map.wf(),
            steppable(old(self)),
        ensures
            match input {
                Some(GameInput::TurnLeft) => {
                    &&& final(self).facing == old(self).facing.left_of()
                    &&& final(self).grid_x == old(self).grid_x
                    &&& final(self).grid_y == old(self).grid_y
                    &&& act == PlayerAction::Turned { from: old(self).facing, to: final(self).facing }
                },
                Some(GameInput::TurnRight) => {
                    &&& final(self).facing == old(self).facing.right_of()
                    &&& final(self).grid_x == old(self).grid_x
                    &&& final(self).grid_y == old(self).grid_y
                    &&& act == PlayerAction::Turned { from: old(self).facing, to: final(self).facing }
                },
                Some(GameInput::MoveForward) => moved(old(self), final(self), old(self).facing, map, act),
                Some(GameInput::MoveBackward) => moved(
                    old(self),
                    final(self),
                    old(self).facing.left_of().left_of(),
                    map,
                    act,
                ),
                _ => {
                    &&& final(self).grid_x == old(self).grid_x
                    &&& final(self).grid_y == old(self).grid_y
                    &&& final(self).facing == old(self).facing
                    &&& act == PlayerAction::Stay
                },
            },
    {
        match input {
            Some(GameInput::TurnLeft) => {
                let from = self.facing;
                self.facing = self.facing.turn_left();
                PlayerAction::Turned { from, to: self.facing }
            },
            Some(GameInput::TurnRight) => {
                let from = self.facing;
                self.facing = self.facing.turn_right();
                PlayerAction::Turned { from, to: self.facing }
            },
            Some(GameInput::MoveForward) => {
                let dir = self.facing;
                self.try_grid_move(dir, map)
            },
            Some(GameInput::MoveBackward) => {
                let reverse = self.facing.turn_left().turn_left();
                self.try_grid_move(reverse, map)
            },
            _ => PlayerAction::Stay,
        }
    }

    /// Step one tile in direction `dir` unless the target tile is solid.
    fn try_grid_move(&mut self, dir: Dir, map: &NobiscuitMap) -> (act: PlayerAction)
        requires
            map.wf(),
            steppable(old(self)),
        ensures
            moved(old(self), final(self), dir, map, act),
    {
        let nx = self.grid_x + dir.dx();
        let ny = self.grid_y + dir.dy();
        if !map.is_solid(nx, ny) {
            self.grid_x = nx;
            self.grid_y = ny;
            PlayerAction::Moved { x: nx, y: ny }
        } else {
            PlayerAction::Stay
        }
    }
}

/// `p` went from `p0` one step in direction `d` when the target is free on
/// `map`, and stayed put otherwise; the facing never changes.
pub open spec fn moved(p0: &Player, p: &Player, d: Dir, map: &NobiscuitMap, act: PlayerAction) -> bool {
    &&& p.facing == p0.facing
    &&& match step_target(p0, d, map) {
        Some((x, y)) => p.grid_x == x && p.grid_y == y && act == (PlayerAction::Moved { x, y }),
        None => p.grid_x == p0.grid_x && p.grid_y == p0.grid_y && act == PlayerAction::Stay,
    }
}

/// A step only ever lands on a tile that is not solid, inside the map.
pub proof fn lemma_step_lands_free(p0: &Player, p: &Player, d: Dir, map: &NobiscuitMap, act: PlayerAction)
    requires
        steppable(p0),
        moved(p0, p, d, map, act),
        act is Moved,
    ensures
        !map.spec_is_solid(p.grid_x as int, p.grid_y as int),
        0 <= p.grid_x < map.spec_width(),
        0 <= p.grid_y < map.spec_height(),
{
    map.lemma_bounds(p0.grid_x + d.step_x(), p0.grid_y + d.step_y());
}

} // verus!
