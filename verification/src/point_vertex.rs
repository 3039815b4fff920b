use vstd::prelude::*;
use core::cmp::Ordering;

verus! {

/// A grid point with a height.
#[derive(Clone, Copy, PartialEq, Eq, Structural, Hash, Debug)]
pub struct PointVertex {
    pub x: u32,
    pub y: u32,
    pub height: u32,
}

/// The number by which points are ordered: `x * y + x`.
pub open spec fn vertex_rank(p: PointVertex) -> int {
    p.x * p.y + p.x
}

impl PointVertex {
    pub fn new(x: u32, y: u32, height: u32) -> (p: PointVertex)
        ensures
            p.x == x,
            p.y == y,
            p.height == height,
    {
        PointVertex { x, y, height }
    }

    /// `x * y + x`, computed without overflow.
    pub fn rank(&self) -> (r: u64)
        ensures
            r == vertex_rank(*self),
    {
        let x = self.x as u64;
        let y = self.y as u64;
        assert(x * y <= 0xffff_fffe_0000_0001) by (nonlinear_arith)
            requires
                x <= 0xffff_ffff,
                y <= 0xffff_ffff,
        ;
        x * y + x
    }
}

impl PartialOrd for PointVertex {
    fn partial_cmp(&self, other: &Self) -> (r: Option<Ordering>) {
        let l = self.rank();
        let r = other.rank();
        if l < r {
            Some(Ordering::Less)
        } else if l == r {
            Some(Ordering::Equal)
        } else {
            Some(Ordering::Greater)
        }
    }
}

impl vstd::std_specs::cmp::PartialOrdSpecImpl for PointVertex {
    open spec fn obeys_partial_cmp_spec() -> bool {
        true
    }

    open spec fn partial_cmp_spec(&self, other: &PointVertex) -> Option<Ordering> {
        if vertex_rank(*self) < vertex_rank(*other) {
            Some(Ordering::Less)
        } else if vertex_rank(*self) == vertex_rank(*other) {
            Some(Ordering::Equal)
        } else {
            Some(Ordering::Greater)
        }
    }
}

} // verus!
