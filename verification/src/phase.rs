//! The screens of a run and what a key press does on each.

use vstd::prelude::*;
use crate::input::GameInput;

verus! {

/// Which screen the game shows.
#[derive(Clone, Copy, PartialEq, Eq, Debug, Structural)]
pub enum Phase {
    /// The lottery machine, spun `spins` times so far.
    Opening { spins: u32 },
    /// A run in progress, or its result screen once the run has ended.
    Playing,
}

/// What the front end does after a frame's key press (or its absence).
#[derive(Clone, Copy, PartialEq, Eq, Debug, Structural)]
pub enum PhaseAction {
    /// Nothing beyond the usual frame (during a run: play it).
    Stay,
    /// Shake the lottery machine.
    Shake,
    /// Build a new run and start playing it.
    StartRun,
    /// Leave the game.
    Quit,
}

/// The screen after a frame and what to do: `pressed` tells whether a key
/// was pressed, `input` is its command, `confirm` whether it was Enter or
/// Space, and `run_over` whether the run has ended (death or escape).
///
/// On the opening screen quit leaves, a confirming key after at least one
/// spin starts a run, and any other key spins (the count stops at its
/// maximum) and shakes the machine. During a run quit leaves; once the run
/// is over, retry goes back to an unspun opening screen and quit or decline
/// leave.
pub open spec fn next_phase(phase: Phase, pressed: bool, input: Option<GameInput>, confirm: bool, run_over: bool) -> (Phase, PhaseAction) {
    match phase {
        Phase::Opening { spins } => if !pressed {
            (phase, PhaseAction::Stay)
        } else if input == Some(GameInput::Quit) {
            (phase, PhaseAction::Quit)
        } else if confirm && spins > 0 {
            (Phase::Playing, PhaseAction::StartRun)
        } else {
            (Phase::Opening { spins: if spins < u32::MAX { (spins + 1) as u32 } else { spins } }, PhaseAction::Shake)
        },
        Phase::Playing => if !run_over {
            if input == Some(GameInput::Quit) {
                (phase, PhaseAction::Quit)
            } else {
                (phase, PhaseAction::Stay)
            }
        } else if input == Some(GameInput::Retry) {
            (Phase::Opening { spins: 0 }, PhaseAction::Stay)
        } else if input == Some(GameInput::Quit) || input == Some(GameInput::Decline) {
            (phase, PhaseAction::Quit)
        } else {
            (phase, PhaseAction::Stay)
        },
    }
}

/// Decide the screen after a frame and what the front end does next.
pub fn phase_step(phase: Phase, pressed: bool, input: Option<GameInput>, confirm: bool, run_over: bool) -> (r: (Phase, PhaseAction))
    ensures
        r == next_phase(phase, pressed, input, confirm, run_over),
{
    let quit = match input {
        Some(GameInput::Quit) => true,
        _ => false,
    };
    match phase {
        Phase::Opening { spins } => {
            if !pressed {
                (phase, PhaseAction::Stay)
            } else if quit {
                (phase, PhaseAction::Quit)
            } else if confirm && spins > 0 {
                (Phase::Playing, PhaseAction::StartRun)
            } else {
                (Phase::Opening { spins: spins.saturating_add(1) }, PhaseAction::Shake)
            }
        },
        Phase::Playing => {
            if !run_over {
                if quit {
                    (phase, PhaseAction::Quit)
                } else {
                    (phase, PhaseAction::Stay)
                }
            } else {
                match input {
                    Some(GameInput::Retry) => (Phase::Opening { spins: 0 }, PhaseAction::Stay),
                    Some(GameInput::Quit) | Some(GameInput::Decline) => (phase, PhaseAction::Quit),
                    _ => (phase, PhaseAction::Stay),
                }
            }
        },
    }
}

/// Quit always leaves: on the opening screen, during a run and on the
/// result screen, a key whose command is quit ends the game.
pub proof fn lemma_quit_always_leaves(phase: Phase, confirm: bool, run_over: bool)
    ensures
        next_phase(phase, true, Some(GameInput::Quit), confirm, run_over).1 == PhaseAction::Quit,
{
}

/// On the result screen, decline leaves and retry goes back to an unspun
/// lottery machine; during a run neither does anything.
pub proof fn lemma_result_screen_keys(confirm: bool)
    ensures
        next_phase(Phase::Playing, true, Some(GameInput::Decline), confirm, true).1 == PhaseAction::Quit,
        next_phase(Phase::Playing, true, Some(GameInput::Retry), confirm, true) == (Phase::Opening { spins: 0 }, PhaseAction::Stay),
        next_phase(Phase::Playing, true, Some(GameInput::Decline), confirm, false) == (Phase::Playing, PhaseAction::Stay),
        next_phase(Phase::Playing, true, Some(GameInput::Retry), confirm, false) == (Phase::Playing, PhaseAction::Stay),
{
}

/// On the lottery screen a key that neither quits nor confirms after a spin
/// spins once more (the count stops at its maximum) and shakes the machine,
/// and a confirming key after at least one spin starts a run.
pub proof fn lemma_opening_keys(spins: u32, input: Option<GameInput>, confirm: bool, run_over: bool)
    ensures
        input != Some(GameInput::Quit) && !(confirm && spins > 0) ==> {
            let r = next_phase(Phase::Opening { spins }, true, input, confirm, run_over);
            &&& r.1 == PhaseAction::Shake
            &&& r.0 matches Phase::Opening { spins: s2 } && (spins < u32::MAX ==> s2 == spins + 1) && (spins == u32::MAX
                ==> s2 == spins)
        },
        input != Some(GameInput::Quit) && confirm && spins > 0 ==> next_phase(Phase::Opening { spins }, true, input, confirm, run_over)
            == (Phase::Playing, PhaseAction::StartRun),
{
}

/// A frame without a key press changes no screen and leaves nothing.
pub proof fn lemma_no_key_no_change(phase: Phase, input: Option<GameInput>, confirm: bool, run_over: bool)
    requires
        input is None,
    ensures
        next_phase(phase, false, input, confirm, run_over) == (phase, PhaseAction::Stay),
{
}

} // verus!
