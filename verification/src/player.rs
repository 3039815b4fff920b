use vstd::prelude::*;

verus! {

/// Who takes a turn: the human skater or a computer-driven one.
#[derive(Clone, Copy, PartialEq, Eq, Structural, Debug)]
pub enum PlayerType {
    Human,
    AI,
}

} // verus!
