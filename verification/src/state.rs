use vstd::prelude::*;

verus! {

/// The top-level application state machine. Gameplay systems run only in `InRun`.
#[derive(Debug, Clone, Copy, PartialEq, Eq, Hash, Structural)]
pub enum GameState {
    /// Local-profile splash before the main menu.
    Login,
    /// Main menu.
    Menu,
    /// Hero selection before a run starts.
    CharacterSelect,
    /// Active gameplay.
    InRun,
    /// Gameplay frozen, world preserved.
    Paused,
    /// Run ended (death or final clear).
    GameOver,
    /// Level-up talent-choice overlay.
    TalentPicker,
    /// Encounter-cleared branch picker.
    MapSelect,
    /// Merchant interaction overlay.
    Merchant,
    /// Read-only run-history list.
    Scoreboard,
}

impl Default for GameState {
    fn default() -> (s: GameState)
        ensures
            s == GameState::InRun,
    {
        GameState::InRun
    }
}

/// The pause key's transition from `state`: play pauses, a paused game resumes, and every
/// other state ignores the key.
pub open spec fn spec_toggle_pause(state: GameState) -> Option<GameState> {
    match state {
        GameState::InRun => Some(GameState::Paused),
        GameState::Paused => Some(GameState::InRun),
        _ => None,
    }
}

/// The state to switch to when the pause key is pressed in `state`, if any.
pub fn toggle_pause(state: GameState) -> (next: Option<GameState>)
    ensures
        next == spec_toggle_pause(state),
{
    match state {
        GameState::InRun => Some(GameState::Paused),
        GameState::Paused => Some(GameState::InRun),
        _ => None,
    }
}

/// Pressing pause twice returns to where play was: from `InRun` or `Paused`, two presses lead
/// back to the same state; every other state is left alone by the key.
pub proof fn lemma_toggle_pause_twice(state: GameState)
    ensures
        (state == GameState::InRun || state == GameState::Paused) ==> spec_toggle_pause(
            spec_toggle_pause(state)->0,
        ) == Some(state),
        !(state == GameState::InRun || state == GameState::Paused) ==> spec_toggle_pause(state) is None,
{
}

} // verus!
