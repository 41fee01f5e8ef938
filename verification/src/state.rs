use vstd::prelude::*;

verus! {

/// The three modes of the editor. They exclude each other, and one is
/// entered only on request.
#[derive(Clone, Copy, Debug, PartialEq, Eq, Structural, Hash)]
pub enum EditorState {
    /// The editor is showing.
    Editor,
    /// The editor is preparing to run the game.
    GamePrepare,
    /// The game is playing.
    Game,
}

impl Default for EditorState {
    /// The mode at startup: the game is playing.
    fn default() -> (state: EditorState)
        ensures
            state == EditorState::Game,
    {
        EditorState::Game
    }
}

/// The two groups of systems: those of the editor and those of the game.
#[derive(Clone, Copy, Debug, PartialEq, Eq, Structural, Hash)]
pub enum EditorSet {
    Editor,
    Game,
}

} // verus!
