//! The screens of the game and what each one draws.

use vstd::prelude::*;

verus! {

/// The screen the game is on.
#[derive(Clone, Copy, Debug, PartialEq, Eq, Structural)]
pub enum GameState {
    MainMenu,
    SinglePlayer,
    MultiPlayer,
    Credits,
    Quit,
}

/// A screen that draws itself each frame and says which screen comes next.
pub trait Drawable {
    fn draw(&mut self) -> Result<GameState, String>;
}

} // verus!
