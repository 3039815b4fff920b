use vstd::prelude::*;

verus! {

/// The screen or phase the game is in.
#[derive(Clone, Copy, PartialEq, Eq, Structural, Debug)]
pub enum ProcState {
    MainMenu,
    Help,
    GameOver,
    Playing,
    PostMove,
    Restart,
    Chat,
    GotPackage(i32, i32),
    DeliveredPackage,
    LookMode,
}

} // verus!
