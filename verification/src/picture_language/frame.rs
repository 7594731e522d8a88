use vstd::prelude::*;
use crate::picture_language::scalar::Scalar;
use crate::picture_language::scalar::larger;
use crate::picture_language::scalar::sum_milli;
use crate::picture_language::segment::Segment;
use crate::picture_language::vector::Vector;

verus! {

/// An origin and two edges: the parallelogram onto which the unit square is
/// mapped. Nothing is asked of the edges; a collapsed frame is a frame.
#[derive(Clone, Copy, Debug, PartialEq, Eq, Structural)]
pub struct Frame {
    pub origin: Vector,
    pub edge1: Vector,
    pub edge2: Vector,
}

impl Frame {
    /// Where the frame puts the unit-square point `v`:
    /// the origin, plus the first edge scaled by `v.x`, plus the second edge
    /// scaled by `v.y`.
    pub open spec fn mapped(self, v: Vector) -> Vector {
        self.origin.plus(self.edge1.scaled(v.x)).plus(self.edge2.scaled(v.y))
    }

    /// Both ends of `s` mapped.
    pub open spec fn mapped_segment(self, s: Segment) -> Segment {
        Segment { start: self.mapped(s.start), end: self.mapped(s.end) }
    }

    /// The same edges with the origin moved by `v`.
    pub open spec fn transformed(self, v: Vector) -> Frame {
        Frame { origin: self.origin.plus(v), edge1: self.edge1, edge2: self.edge2 }
    }

    /// Largest stored x among the origin and the far ends of the two edges.
    pub open spec fn largest_x(self) -> int {
        larger(
            larger(
                self.origin.x.milli as int,
                sum_milli(self.origin.x.milli as int, self.edge1.x.milli as int),
            ),
            sum_milli(self.origin.x.milli as int, self.edge2.x.milli as int),
        )
    }

    /// Largest stored y among the origin and the far ends of the two edges.
    pub open spec fn largest_y(self) -> int {
        larger(
            larger(
                self.origin.y.milli as int,
                sum_milli(self.origin.y.milli as int, self.edge1.y.milli as int),
            ),
            sum_milli(self.origin.y.milli as int, self.edge2.y.milli as int),
        )
    }

    pub fn new(origin: Vector, edge1: Vector, edge2: Vector) -> (r: Frame)
        ensures
            r == (Frame { origin, edge1, edge2 }),
    {
        Frame { origin, edge1, edge2 }
    }

    /// Maps a point of the unit square into the frame.
    pub fn map(&self, v: Vector) -> (r: Vector)
        ensures
            r == self.mapped(v),
    {
        self.origin + self.edge1.scale(v.x) + self.edge2.scale(v.y)
    }

    /// Maps both ends of a segment of the unit square into the frame.
    pub fn map_segment(&self, s: Segment) -> (r: Segment)
        ensures
            r == self.mapped_segment(s),
    {
        Segment::new(self.map(s.start), self.map(s.end))
    }

    /// The frame of the same shape that starts where the second edge ends.
    pub fn below(&self) -> (r: Frame)
        ensures
            r == self.transformed(self.edge2),
    {
        Frame::new(self.origin + Vector::new(self.edge2.x, self.edge2.y), self.edge1, self.edge2)
    }

    /// The frame of the same shape that starts where the first edge ends.
    pub fn right(&self) -> (r: Frame)
        ensures
            r == self.transformed(self.edge1),
    {
        Frame::new(self.origin + Vector::new(self.edge1.x, self.edge1.y), self.edge1, self.edge2)
    }

    /// Horizontal extent, taken over three corners only: the corner opposite
    /// the origin is not looked at.
    pub fn x_max(&self) -> (r: Scalar)
        ensures
            r.milli == self.largest_x(),
    {
        self.origin.x.max(self.origin.x.plus(self.edge1.x)).max(self.origin.x.plus(self.edge2.x))
    }

    /// Vertical extent, taken over three corners only: the corner opposite
    /// the origin is not looked at.
    pub fn y_max(&self) -> (r: Scalar)
        ensures
            r.milli == self.largest_y(),
    {
        self.origin.y.max(self.origin.y.plus(self.edge1.y)).max(self.origin.y.plus(self.edge2.y))
    }

    /// The frame moved by `v`, edges unchanged.
    pub fn transform(&self, v: Vector) -> (r: Frame)
        ensures
            r == self.transformed(v),
    {
        Frame::new(self.origin + v, self.edge1, self.edge2)
    }
}

/// A point of the unit square goes to the origin plus each edge scaled by
/// the point's coordinate along it.
pub proof fn lemma_map_is_affine(frame: Frame, a: Scalar, b: Scalar)
    requires
        0 <= a.milli <= 1000,
        0 <= b.milli <= 1000,
    ensures
        frame.mapped(Vector { x: a, y: b }) == frame.origin.plus(frame.edge1.scaled(a)).plus(
            frame.edge2.scaled(b),
        ),
{
}

/// The corner `(0, 0)` of the unit square goes to the origin, and the corner
/// `(1, 1)` to the origin plus both edges.
pub proof fn lemma_map_corners(frame: Frame)
    ensures
        frame.mapped(Vector::of(0, 0)) == frame.origin,
        frame.mapped(Vector::of(1000, 1000)) == frame.origin.plus(frame.edge1).plus(frame.edge2),
{
    lemma_scaled_by_zero(frame.edge1);
    lemma_scaled_by_zero(frame.edge2);
    lemma_scaled_by_one(frame.edge1);
    lemma_scaled_by_one(frame.edge2);
    lemma_plus_zero(frame.origin);
}

/// A moved frame puts the corner `(0, 0)` at the old origin plus the move.
pub proof fn lemma_transform_moves_origin(frame: Frame, v: Vector)
    ensures
        frame.transformed(v).mapped(Vector::of(0, 0)) == frame.origin.plus(v),
{
    lemma_scaled_by_zero(frame.edge1);
    lemma_scaled_by_zero(frame.edge2);
    lemma_plus_zero(frame.origin.plus(v));
}

/// Scaling by zero gives the zero vector.
pub proof fn lemma_scaled_by_zero(v: Vector)
    ensures
        v.scaled(Scalar { milli: 0 }) == Vector::of(0, 0),
{
    assert(v.x.milli * 0 == 0);
    assert(v.y.milli * 0 == 0);
}

/// Scaling by one changes nothing.
pub proof fn lemma_scaled_by_one(v: Vector)
    ensures
        v.scaled(Scalar { milli: 1000 }) == v,
{
    let x = v.x.milli as int;
    let y = v.y.milli as int;
    assert((x * 1000) / 1000 == x) by (nonlinear_arith);
    assert((y * 1000) / 1000 == y) by (nonlinear_arith);
    assert(((-(x * 1000)) / 1000) == -x) by (nonlinear_arith);
    assert(((-(y * 1000)) / 1000) == -y) by (nonlinear_arith);
}

/// Adding the zero vector changes nothing.
pub proof fn lemma_plus_zero(v: Vector)
    ensures
        v.plus(Vector::of(0, 0)) == v,
{
}

} // verus!
