//! Scene switching requests.

use vstd::prelude::*;

verus! {

/// What a scene asks of the application after an update.
pub enum SceneAction {
    /// Switch to the scene of this name.
    Switch(String),
    /// Quit the game.
    Quit,
    /// Turn vertical sync on or off.
    VsyncToggle(bool),
    /// Nothing to do (`None` in the game's own vocabulary).
    Nothing,
}

} // verus!
