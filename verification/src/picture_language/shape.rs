use vstd::prelude::*;
use crate::picture_language::scalar::Scalar;
use crate::picture_language::segment::Segment;
use crate::picture_language::vector::Vector;
use speedy2d::color::Color;

verus! {

/// The colour type of the drawing backend. The library never looks inside a
/// colour: it only hands on the value it was given.
#[verifier::external_type_specification]
#[verifier::external_body]
pub struct ExColor(speedy2d::color::Color);

/// `Clone::clone` of the backend's colour. The type is `Copy` and its `Clone`
/// is derived, so the clone is the colour itself.
pub assume_specification[ <speedy2d::color::Color as core::clone::Clone>::clone ](
    colour: &speedy2d::color::Color,
) -> (r: speedy2d::color::Color)
    ensures
        r == *colour,
;

/// A finished drawable, in absolute coordinates.
#[derive(Debug, PartialEq, Clone)]
pub enum Shape {
    /// One stroked segment: the segment, its thickness, its colour.
    Line(Segment, Scalar, Color),
    /// A batch of stroked segments, each as a pair of end points.
    PolyLine(Vec<(Vector, Vector)>, Scalar, Color),
    /// A disc: centre, radius, colour.
    Circle(Vector, Scalar, Color),
}

/// The end points of each segment, in order.
pub open spec fn end_points(segments: Seq<Segment>) -> Seq<(Vector, Vector)> {
    Seq::new(segments.len(), |i: int| (segments[i].start, segments[i].end))
}

impl Shape {
    pub fn new_line(segment: Segment, thickness: Scalar, colour: Color) -> (r: Shape)
        ensures
            r == Shape::Line(segment, thickness, colour),
    {
        Shape::Line(segment, thickness, colour)
    }

    /// A polyline that holds the end points of each segment of `s`, in order.
    pub fn new_poly_line(s: Vec<Segment>, thickness: Scalar, colour: Color) -> (r: Shape)
        ensures
            r matches Shape::PolyLine(pairs, t, c) && pairs@ == end_points(s@) && t == thickness
                && c == colour,
    {
        let mut pairs: Vec<(Vector, Vector)> = Vec::new();
        let mut i: usize = 0;
        while i < s.len()
            invariant
                i <= s@.len(),
                pairs@.len() == i,
                forall|k: int| 0 <= k < i ==> #[trigger] pairs@[k] == (s@[k].start, s@[k].end),
            decreases s@.len() - i,
        {
            pairs.push((s[i].start, s[i].end));
            i += 1;
        }
        assert(pairs@ =~= end_points(s@));
        Shape::PolyLine(pairs, thickness, colour)
    }

    pub fn new_circle(centre: &Vector, radius: Scalar, colour: Color) -> (r: Shape)
        ensures
            r == Shape::Circle(*centre, radius, colour),
    {
        Shape::Circle(*centre, radius, colour)
    }
}

} // verus!
