//! Projection of points onto a plane.
use vstd::prelude::*;
use crate::points::Point;

verus! {

/// Maps a point in `N` dimensions to a point of the plane.
pub trait Projection<const N: usize> {
    fn project(&self, point: &Point<N>) -> Point<2>;
}

} // verus!
