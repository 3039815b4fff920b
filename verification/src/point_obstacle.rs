use vstd::prelude::*;
use crate::point_vertex::PointVertex;

verus! {

/// What stands at a grid point, with the point itself.
pub enum Obstacle {
    Platform(PointVertex),
    Pit(PointVertex),
    Rail(PointVertex),
}

} // verus!
