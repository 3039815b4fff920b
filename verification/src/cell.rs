use vstd::prelude::*;
use core::cmp::Ordering;
use crate::obstacle::Obstacle;

verus! {

/// A cell of the map with what stands on it.  Cells compare by `x * y + x`.
#[derive(Clone, Copy, Hash)]
pub struct Cell {
    pub x: i32,
    pub y: i32,
    pub obstacle: Obstacle,
}

/// The number by which cells are compared: `x * y + x`.
pub open spec fn cell_rank(c: Cell) -> int {
    c.x * c.y + c.x
}

impl Cell {
    pub fn new(x: i32, y: i32, obstacle: Obstacle) -> (c: Self)
        ensures
            c.x == x,
            c.y == y,
            c.obstacle == obstacle,
    {
        Cell { x, y, obstacle }
    }

    /// `x * y + x`, computed without overflow.
    pub fn rank(&self) -> (r: i64)
        ensures
            r == cell_rank(*self),
    {
        let x = self.x as i64;
        let y = self.y as i64;
        assert(-0x4000_0000_0000_0000 <= x * y <= 0x4000_0000_0000_0000) by (nonlinear_arith)
            requires
                -0x8000_0000 <= x <= 0x7fff_ffff,
                -0x8000_0000 <= y <= 0x7fff_ffff,
        ;
        x * y + x
    }
}

impl PartialEq for Cell {
    fn eq(&self, other: &Self) -> (r: bool) {
        self.rank() == other.rank()
    }
}

impl vstd::std_specs::cmp::PartialEqSpecImpl for Cell {
    open spec fn obeys_eq_spec() -> bool {
        true
    }

    open spec fn eq_spec(&self, other: &Cell) -> bool {
        cell_rank(*self) == cell_rank(*other)
    }
}

impl Eq for Cell {

}

impl PartialOrd for Cell {
    fn partial_cmp(&self, other: &Self) -> (r: Option<Ordering>) {
        let l = self.rank();
        let r = other.rank();
        if l < r {
            Some(Ordering::Less)
        } else if l == r {
            Some(Ordering::Equal)
        } else {
            Some(Ordering::Greater)
        }
    }
}

impl vstd::std_specs::cmp::PartialOrdSpecImpl for Cell {
    open spec fn obeys_partial_cmp_spec() -> bool {
        true
    }

    open spec fn partial_cmp_spec(&self, other: &Cell) -> Option<Ordering> {
        if cell_rank(*self) < cell_rank(*other) {
            Some(Ordering::Less)
        } else if cell_rank(*self) == cell_rank(*other) {
            Some(Ordering::Equal)
        } else {
            Some(Ordering::Greater)
        }
    }
}

} // verus!
