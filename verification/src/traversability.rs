use vstd::prelude::*;

verus! {

/// How a move from one cell to another goes.
#[derive(Clone, Copy, PartialEq, Eq, Structural, Hash, Debug)]
pub enum Traversability {
    Up,
    Down,
    Flat,
    No,
}

} // verus!
