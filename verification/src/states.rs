//! Top-level application state, shared by both apps so state transitions stay in lockstep.

use vstd::prelude::*;

verus! {

/// Which screen the app is on: the menu, or a match.
#[derive(Debug, Clone, Copy, PartialEq, Eq, Hash, Structural)]
pub enum AppState {
    MainMenu,
    Game,
}

impl Default for AppState {
    /// Apps start on the main menu.
    fn default() -> (s: AppState)
        ensures
            s == AppState::MainMenu,
    {
        AppState::MainMenu
    }
}

/// The current input mode while in [`AppState::Game`].
///
/// - `BuildMode`: press-and-drag pans the camera over the map.
/// - `PlayMode`: a joystick drives the player's hero.
#[derive(Debug, Clone, Copy, PartialEq, Eq, Hash, Structural)]
pub enum GameMode {
    BuildMode,
    PlayMode,
}

impl Default for GameMode {
    /// A match starts in build mode.
    fn default() -> (m: GameMode)
        ensures
            m == GameMode::BuildMode,
    {
        GameMode::BuildMode
    }
}

impl GameMode {
    /// The mode the debug toggle button switches to from this one.
    pub open spec fn spec_toggled(self) -> GameMode {
        match self {
            GameMode::BuildMode => GameMode::PlayMode,
            GameMode::PlayMode => GameMode::BuildMode,
        }
    }

    /// The mode the debug toggle button switches to from this one.
    pub fn toggled(&self) -> (next: GameMode)
        ensures
            next == self.spec_toggled(),
            next != *self,
    {
        match self {
            GameMode::BuildMode => GameMode::PlayMode,
            GameMode::PlayMode => GameMode::BuildMode,
        }
    }
}

/// Toggling the mode twice comes back to where it started.
pub proof fn lemma_toggle_twice(m: GameMode)
    ensures
        m.spec_toggled().spec_toggled() == m,
{
}

} // verus!
