//! Figures: points in `N` dimensions joined by edges.
use vstd::prelude::*;

verus! {

/// A point with `N` integer coordinates.
pub struct Point<const N: usize> {
    pub coords: [i64; N],
}

/// An edge between the points at two indices of a figure.
pub struct Edge {
    pub points: (usize, usize),
}

/// Points and the edges between them.
pub struct Figure<const N: usize> {
    pub points: Vec<Point<N>>,
    pub edges: Vec<Edge>,
}

/// A reason why a figure could not be read.
pub struct Error {
    pub cause: String,
}

impl<const N: usize> Figure<N> {
    /// Whether both ends of `e` are points of the figure.
    pub open spec fn has_ends(&self, e: &Edge) -> bool {
        e.points.0 < self.points.len() && e.points.1 < self.points.len()
    }

    /// The two points that `e` joins.
    pub fn edge_points(&self, e: &Edge) -> (r: (&Point<N>, &Point<N>))
        requires
            self.has_ends(e),
        ensures
            *r.0 == self.points@[e.points.0 as int],
            *r.1 == self.points@[e.points.1 as int],
    {
        (&self.points[e.points.0], &self.points[e.points.1])
    }
}

pub trait PointAdder<const N: usize> {
    fn add_point(&mut self, c: [i64; N]) -> &Self;
}

pub trait EdgeAdder {
    fn add_edge(&mut self, start: usize, end: usize) -> &Self;
}

impl<const N: usize> PointAdder<N> for Figure<N> {
    /// Appends a point with coordinates `c`.
    fn add_point(&mut self, c: [i64; N]) -> (r: &Self)
        ensures
            final(self).points@ == old(self).points@.push(Point { coords: c }),
            final(self).edges@ == old(self).edges@,
            *r == *final(self),
    {
        self.points.push(Point { coords: c });
        self
    }
}

impl<const N: usize> EdgeAdder for Figure<N> {
    /// Appends an edge from point `start` to point `end`.
    fn add_edge(&mut self, start: usize, end: usize) -> (r: &Self)
        ensures
            final(self).edges@ == old(self).edges@.push(Edge { points: (start, end) }),
            final(self).points@ == old(self).points@,
            *r == *final(self),
    {
        self.edges.push(Edge { points: (start, end) });
        self
    }
}

} // verus!
