use vstd::prelude::*;

verus! {

/// What happened to a skater in its last turn.  `GameOver` carries the time.
#[derive(Debug, Clone, Copy, PartialEq, Eq, Structural)]
pub enum PlayerEvent {
    Wait,
    Move,
    OnRail,
    OffRail,
    FallOver,
    GameOver(i32),
}

} // verus!
