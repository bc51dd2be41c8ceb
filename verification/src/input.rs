//! Player commands and the keys that give them.

use vstd::prelude::*;

verus! {

/// A command from the keyboard.
#[derive(Clone, Copy, PartialEq, Eq, Debug, Structural)]
pub enum GameInput {
    MoveForward,
    MoveBackward,
    TurnLeft,
    TurnRight,
    ToggleMinimap,
    /// Y: only meaningful on the result screen.
    Retry,
    /// N: only meaningful on the result screen.
    Decline,
    Quit,
}

/// A key press, as far as the game distinguishes keys.
#[derive(Clone, Copy, PartialEq, Eq, Debug, Structural)]
pub enum Key {
    Char(char),
    Up,
    Down,
    Left,
    Right,
    Esc,
    Other,
}

/// The command bound to `key` (`ctrl` tells whether Control was held):
/// W / Up forward, S / Down backward, A / Left and D / Right turn, M toggles
/// the minimap, Y retries, N declines, and Q, Esc and Ctrl-C quit.
pub open spec fn key_command(key: Key, ctrl: bool) -> Option<GameInput> {
    match key {
        Key::Char('w') | Key::Up => Some(GameInput::MoveForward),
        Key::Char('s') | Key::Down => Some(GameInput::MoveBackward),
        Key::Char('a') | Key::Left => Some(GameInput::TurnLeft),
        Key::Char('d') | Key::Right => Some(GameInput::TurnRight),
        Key::Char('m') => Some(GameInput::ToggleMinimap),
        Key::Char('q') => Some(GameInput::Quit),
        Key::Char('y') => Some(GameInput::Retry),
        Key::Char('n') => Some(GameInput::Decline),
        Key::Char('c') => if ctrl { Some(GameInput::Quit) } else { None },
        Key::Esc => Some(GameInput::Quit),
        _ => None,
    }
}

/// Map a key press to its command, if any.
pub fn input_for_key(key: Key, ctrl: bool) -> (r: Option<GameInput>)
    ensures
        r == key_command(key, ctrl),
{
    match key {
        Key::Char('w') | Key::Up => Some(GameInput::MoveForward),
        Key::Char('s') | Key::Down => Some(GameInput::MoveBackward),
        Key::Char('a') | Key::Left => Some(GameInput::TurnLeft),
        Key::Char('d') | Key::Right => Some(GameInput::TurnRight),
        Key::Char('m') => Some(GameInput::ToggleMinimap),
        Key::Char('q') => Some(GameInput::Quit),
        Key::Char('y') => Some(GameInput::Retry),
        Key::Char('n') => Some(GameInput::Decline),
        Key::Char('c') if ctrl => Some(GameInput::Quit),
        Key::Esc => Some(GameInput::Quit),
        _ => None,
    }
}

} // verus!
