//! High-level application modes and the pause flag that gate the tick
//! pipeline.

use vstd::prelude::*;

verus! {

/// The high-level screen the application is on.
#[derive(Clone, Copy, PartialEq, Eq, Structural, Debug)]
pub enum ApplicationState {
    Loading,
    Menu,
    InGame,
    Editor,
}

/// The play mode within a game session.
#[derive(Clone, Copy, PartialEq, Eq, Structural, Debug)]
pub enum ModeState {
    NotInGame,
    Singleplayer,
}

impl Default for ModeState {
    fn default() -> (r: ModeState)
        ensures
            r == ModeState::Singleplayer,
    {
        ModeState::Singleplayer
    }
}

/// Whether the simulation is frozen.
#[derive(Clone, Copy, PartialEq, Eq, Structural, Debug)]
pub enum PauseState {
    Unpaused,
    Paused,
}

impl Default for PauseState {
    fn default() -> (r: PauseState)
        ensures
            r == PauseState::Unpaused,
    {
        PauseState::Unpaused
    }
}

/// One pause keypress flips the pause state.
pub fn toggle_pause(state: PauseState) -> (r: PauseState)
    ensures
        state == PauseState::Unpaused ==> r == PauseState::Paused,
        state == PauseState::Paused ==> r == PauseState::Unpaused,
{
    match state {
        PauseState::Unpaused => PauseState::Paused,
        PauseState::Paused => PauseState::Unpaused,
    }
}

/// The tick pipeline advances only in an unpaused game session.
pub fn pipeline_active(app: ApplicationState, pause: PauseState) -> (r: bool)
    ensures
        r == (app == ApplicationState::InGame && pause == PauseState::Unpaused),
{
    match (app, pause) {
        (ApplicationState::InGame, PauseState::Unpaused) => true,
        _ => false,
    }
}

/// The pause marker carried on the player entity.
#[derive(Clone, Copy, PartialEq, Eq, Structural, Debug)]
pub struct Pause {
    pub active: bool,
}

} // verus!
