use vstd::prelude::*;

verus! {

/// What stands on a cell of the map.  A rail carries its direction.
#[derive(Clone, Copy, PartialEq, Eq, Structural, PartialOrd, Ord, Hash, Debug)]
pub enum Obstacle {
    Platform,
    Pit,
    Rail(i32, i32),
    Wall,
}

} // verus!
