use vstd::prelude::*;
use crate::picture_language::vector::Vector;

verus! {

/// A directed line from `start` to `end`.
#[derive(Clone, Copy, Debug, PartialEq, Eq, Structural)]
pub struct Segment {
    pub start: Vector,
    pub end: Vector,
}

/// Why a path could not be built.
#[derive(Clone, Copy, Debug, PartialEq, Eq, Structural)]
pub enum PathError {
    /// The sequence of points was empty.
    InvalidInput,
}

/// The segments that join each point of `points` to the next one.
pub open spec fn path_segments(points: Seq<Vector>) -> Seq<Segment> {
    Seq::new(
        (points.len() - 1) as nat,
        |i: int| Segment { start: points[i], end: points[i + 1] },
    )
}

impl Segment {
    pub fn new(start: Vector, end: Vector) -> (r: Segment)
        ensures
            r == (Segment { start, end }),
    {
        Segment { start, end }
    }

    /// Joins consecutive points. One point gives no segment; no point at all
    /// is an error.
    pub fn open_path(v: &[Vector]) -> (r: Result<Vec<Segment>, PathError>)
        ensures
            v@.len() == 0 <==> r == Err::<Vec<Segment>, PathError>(PathError::InvalidInput),
            v@.len() > 0 ==> r is Ok && r->Ok_0@ == path_segments(v@),
            r is Ok ==> r->Ok_0@.len() == v@.len() - 1 && forall|i: int|
                0 <= i < v@.len() - 1 ==> #[trigger] r->Ok_0@[i] == (Segment {
                    start: v@[i],
                    end: v@[i + 1],
                }),
    {
        if v.len() == 0 {
            return Err(PathError::InvalidInput);
        }
        let mut segments: Vec<Segment> = Vec::new();
        let mut i: usize = 1;
        while i < v.len()
            invariant
                1 <= i <= v@.len(),
                segments@.len() == i - 1,
                forall|k: int|
                    0 <= k < i - 1 ==> #[trigger] segments@[k] == (Segment {
                        start: v@[k],
                        end: v@[k + 1],
                    }),
            decreases v@.len() - i,
        {
            segments.push(Segment::new(v[i - 1], v[i]));
            i += 1;
        }
        assert(segments@ =~= path_segments(v@));
        Ok(segments)
    }
}

} // verus!
