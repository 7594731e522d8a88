use vstd::prelude::*;
use crate::picture_language::composite_painter::CompositePainter;
use crate::picture_language::frame::Frame;
use crate::picture_language::frame::lemma_plus_zero;
use crate::picture_language::scalar::Scalar;
use crate::picture_language::segment::Segment;
use crate::picture_language::shape::Shape;
use crate::picture_language::vector::Vector;
use speedy2d::color::Color;

verus! {

/// Accumulates shapes drawn relative to one frame until they are painted.
#[derive(Debug, PartialEq, Clone)]
pub struct Painter {
    pub frame: Frame,
    shapes: Vec<Shape>,
}

/// What a painter is, to its callers: its frame and the shapes it has
/// accumulated and not yet handed out, oldest first.
pub struct PainterView {
    pub frame: Frame,
    pub pending: Seq<Shape>,
}

/// One line shape for each unit-square segment, mapped through `frame`.
pub open spec fn line_shapes(
    frame: Frame,
    unit_segments: Seq<Segment>,
    thickness: Scalar,
    colour: Color,
) -> Seq<Shape> {
    Seq::new(
        unit_segments.len(),
        |i: int| Shape::Line(frame.mapped_segment(unit_segments[i]), thickness, colour),
    )
}

impl PainterView {
    /// A painter over `frame` that has accumulated nothing.
    pub open spec fn fresh(frame: Frame) -> PainterView {
        PainterView { frame, pending: Seq::empty() }
    }

    /// The painter after the given unit-square segments were rendered.
    pub open spec fn with_lines(
        self,
        unit_segments: Seq<Segment>,
        thickness: Scalar,
        colour: Color,
    ) -> PainterView {
        PainterView {
            frame: self.frame,
            pending: self.pending + line_shapes(self.frame, unit_segments, thickness, colour),
        }
    }

    /// The painter after a circle was rendered: the centre is mapped, the
    /// radius is kept as given.
    pub open spec fn with_circle(self, centre: Vector, radius: Scalar, colour: Color) -> PainterView {
        PainterView {
            frame: self.frame,
            pending: self.pending.push(Shape::Circle(self.frame.mapped(centre), radius, colour)),
        }
    }

    /// What painting hands out.
    pub open spec fn painted(self) -> Seq<Shape> {
        self.pending
    }

    /// The painter that painting leaves behind.
    pub open spec fn drained(self) -> PainterView {
        PainterView::fresh(self.frame)
    }
}

impl View for Painter {
    type V = PainterView;

    closed spec fn view(&self) -> PainterView {
        PainterView { frame: self.frame, pending: self.shapes@ }
    }
}

impl Painter {
    /// The frame this painter draws in.
    pub fn frame(&self) -> (r: Frame)
        ensures
            r == self@.frame,
    {
        self.frame
    }

    pub fn new(frame: Frame) -> (r: Painter)
        ensures
            r@ == PainterView::fresh(frame),
    {
        Painter { frame, shapes: Vec::new() }
    }

    /// A new painter over the frame below this one. It shares nothing with
    /// this painter.
    pub fn below(&self) -> (r: Painter)
        ensures
            r@ == PainterView::fresh(self@.frame.transformed(self@.frame.edge2)),
    {
        Painter { frame: self.frame.below(), shapes: Vec::new() }
    }

    /// A new painter over the frame to the right of this one. It shares
    /// nothing with this painter.
    pub fn right(&self) -> (r: Painter)
        ensures
            r@ == PainterView::fresh(self@.frame.transformed(self@.frame.edge1)),
    {
        Painter { frame: self.frame.right(), shapes: Vec::new() }
    }

    /// Maps each segment through the frame and appends it as a line, in the
    /// order given.
    pub fn render_lines(&mut self, unit_segments: &Vec<Segment>, thickness: Scalar, colour: Color)
        ensures
            final(self)@ == old(self)@.with_lines(unit_segments@, thickness, colour),
    {
        let mut i: usize = 0;
        while i < unit_segments.len()
            invariant
                i <= unit_segments@.len(),
                self.frame == old(self).frame,
                self.shapes@.len() == old(self).shapes@.len() + i,
                forall|k: int|
                    0 <= k < old(self).shapes@.len() ==> #[trigger] self.shapes@[k] == old(
                        self,
                    ).shapes@[k],
                forall|k: int|
                    0 <= k < i ==> #[trigger] self.shapes@[old(self).shapes@.len() + k]
                        == Shape::Line(
                        self.frame.mapped_segment(unit_segments@[k]),
                        thickness,
                        colour,
                    ),
            decreases unit_segments@.len() - i,
        {
            let mapped = self.frame.map_segment(unit_segments[i]);
            self.shapes.push(Shape::new_line(mapped, thickness, colour));
            i += 1;
        }
        let ghost added = line_shapes(self.frame, unit_segments@, thickness, colour);
        assert forall|j: int| 0 <= j < self.shapes@.len() implies self.shapes@[j] == (old(
            self,
        ).shapes@ + added)[j] by {
            if j >= old(self).shapes@.len() {
                let k = j - old(self).shapes@.len();
                assert(self.shapes@[old(self).shapes@.len() + k] == added[k]);
            }
        }
        assert(self.shapes@ =~= old(self).shapes@ + added);
    }

    /// Maps the centre through the frame and appends a circle. The radius is
    /// not scaled by the frame.
    pub fn render_circle(&mut self, centre: &Vector, radius: Scalar, colour: Color)
        ensures
            final(self)@ == old(self)@.with_circle(*centre, radius, colour),
    {
        let centre = self.frame.map(*centre);
        self.shapes.push(Shape::new_circle(&centre, radius, colour));
    }

    /// Hands out the accumulated shapes, oldest first, and leaves the painter
    /// empty.
    pub fn paint(&mut self) -> (r: Vec<Shape>)
        ensures
            r@ == old(self)@.painted(),
            final(self)@ == old(self)@.drained(),
    {
        let mut result: Vec<Shape> = Vec::new();
        core::mem::swap(&mut self.shapes, &mut result);
        result
    }

    /// `count` painters meant to step to the right by this frame's extent.
    /// The step never leaves zero, so each of them stands on this frame.
    pub fn tessellate_to_right(&self, count: usize) -> (r: CompositePainter)
        ensures
            r@.len() == count,
            forall|i: int| 0 <= i < count ==> #[trigger] r@[i] == PainterView::fresh(self@.frame),
    {
        self.tessellate(Vector::new(self.frame.x_max(), Scalar::zero()), count)
    }

    /// `count` painters meant to step down by this frame's extent. The step
    /// never leaves zero, so each of them stands on this frame.
    pub fn tessellate_to_down(&self, count: usize) -> (r: CompositePainter)
        ensures
            r@.len() == count,
            forall|i: int| 0 <= i < count ==> #[trigger] r@[i] == PainterView::fresh(self@.frame),
    {
        self.tessellate(Vector::new(Scalar::zero(), self.frame.y_max()), count)
    }

    /// `count` fresh painters. The initial translation is not used: the
    /// running translation starts at zero and is doubled before each copy,
    /// so every copy stands on this frame.
    pub fn tessellate(&self, _translate_initial: Vector, count: usize) -> (r: CompositePainter)
        ensures
            r@.len() == count,
            forall|i: int| 0 <= i < count ==> #[trigger] r@[i] == PainterView::fresh(self@.frame),
    {
        let mut translate = Vector::zero();
        let mut painters: Vec<Painter> = Vec::new();
        let mut i: usize = 0;
        while i < count
            invariant
                i <= count,
                translate == Vector::of(0, 0),
                painters@.len() == i,
                forall|k: int| 0 <= k < i ==> (#[trigger] painters@[k])@ == PainterView::fresh(
                    self.frame,
                ),
            decreases count - i,
        {
            translate = translate + translate;
            proof {
                lemma_plus_zero(self.frame.origin);
            }
            painters.push(self.transform(translate));
            i += 1;
        }
        CompositePainter::new(painters)
    }

    fn transform(&self, v: Vector) -> (r: Painter)
        ensures
            r@ == PainterView::fresh(self@.frame.transformed(v)),
    {
        Painter::new(self.frame.transform(v))
    }
}

/// After painting, painting again hands out nothing, whatever had been
/// rendered before.
pub proof fn lemma_second_paint_is_empty(painter: PainterView)
    ensures
        painter.drained().painted() == Seq::<Shape>::empty(),
        painter.drained().drained() == painter.drained(),
{
}

} // verus!
