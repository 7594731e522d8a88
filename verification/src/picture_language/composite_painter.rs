use vstd::prelude::*;
use crate::picture_language::painter::Painter;
use crate::picture_language::painter::PainterView;
use crate::picture_language::scalar::Scalar;
use crate::picture_language::scalar::larger;
use crate::picture_language::segment::Segment;
use crate::picture_language::shape::Shape;
use crate::picture_language::vector::Vector;
use speedy2d::color::Color;

verus! {

/// An ordered group of painters that are drawn on together.
#[derive(Debug, PartialEq, Clone)]
pub struct CompositePainter {
    painters: Vec<Painter>,
}

/// The pending shapes of every painter, joined in the painters' order.
pub open spec fn all_pending(painters: Seq<PainterView>) -> Seq<Shape>
    decreases painters.len(),
{
    if painters.len() == 0 {
        Seq::empty()
    } else {
        all_pending(painters.drop_last()) + painters.last().pending
    }
}

/// Largest horizontal extent among the painters' frames, and at least zero.
pub open spec fn largest_x_of(painters: Seq<PainterView>) -> int
    decreases painters.len(),
{
    if painters.len() == 0 {
        0
    } else {
        larger(largest_x_of(painters.drop_last()), painters.last().frame.largest_x())
    }
}

/// Largest vertical extent among the painters' frames, and at least zero.
pub open spec fn largest_y_of(painters: Seq<PainterView>) -> int
    decreases painters.len(),
{
    if painters.len() == 0 {
        0
    } else {
        larger(largest_y_of(painters.drop_last()), painters.last().frame.largest_y())
    }
}

/// Fresh painters over the frames of `painters`, each moved by `v`.
pub open spec fn moved_afresh(painters: Seq<PainterView>, v: Vector) -> Seq<PainterView> {
    Seq::new(painters.len(), |i: int| PainterView::fresh(painters[i].frame.transformed(v)))
}

impl View for CompositePainter {
    type V = Seq<PainterView>;

    closed spec fn view(&self) -> Seq<PainterView> {
        Seq::new(self.painters@.len(), |i: int| self.painters@[i]@)
    }
}

impl CompositePainter {
    pub fn new(painters: Vec<Painter>) -> (r: CompositePainter)
        ensures
            r@.len() == painters@.len(),
            forall|i: int| 0 <= i < painters@.len() ==> #[trigger] r@[i] == painters@[i]@,
    {
        CompositePainter { painters }
    }

    /// Renders the same unit-square segments on every painter, in order.
    pub fn render_lines(&mut self, unit_segments: &Vec<Segment>, thickness: Scalar, colour: Color)
        ensures
            final(self)@.len() == old(self)@.len(),
            forall|i: int|
                0 <= i < old(self)@.len() ==> #[trigger] final(self)@[i] == old(
                    self,
                )@[i].with_lines(unit_segments@, thickness, colour),
    {
        let mut i: usize = 0;
        while i < self.painters.len()
            invariant
                i <= self.painters@.len(),
                self.painters@.len() == old(self).painters@.len(),
                forall|k: int|
                    0 <= k < i ==> (#[trigger] self.painters@[k])@ == old(
                        self,
                    ).painters@[k]@.with_lines(unit_segments@, thickness, colour),
                forall|k: int|
                    i <= k < self.painters@.len() ==> #[trigger] self.painters@[k] == old(
                        self,
                    ).painters@[k],
            decreases self.painters@.len() - i,
        {
            self.painters[i].render_lines(unit_segments, thickness, colour);
            i += 1;
        }
    }

    /// Renders the same circle on every painter, in order.
    pub fn render_circle(&mut self, centre: &Vector, radius: Scalar, colour: Color)
        ensures
            final(self)@.len() == old(self)@.len(),
            forall|i: int|
                0 <= i < old(self)@.len() ==> #[trigger] final(self)@[i] == old(
                    self,
                )@[i].with_circle(*centre, radius, colour),
    {
        let mut i: usize = 0;
        while i < self.painters.len()
            invariant
                i <= self.painters@.len(),
                self.painters@.len() == old(self).painters@.len(),
                forall|k: int|
                    0 <= k < i ==> (#[trigger] self.painters@[k])@ == old(
                        self,
                    ).painters@[k]@.with_circle(*centre, radius, colour),
                forall|k: int|
                    i <= k < self.painters@.len() ==> #[trigger] self.painters@[k] == old(
                        self,
                    ).painters@[k],
            decreases self.painters@.len() - i,
        {
            self.painters[i].render_circle(centre, radius, colour);
            i += 1;
        }
    }

    /// Paints every painter in order and joins what they hand out. Every
    /// painter is left empty.
    pub fn paint(&mut self) -> (r: Vec<Shape>)
        ensures
            r@ == all_pending(old(self)@),
            final(self)@.len() == old(self)@.len(),
            forall|i: int|
                0 <= i < old(self)@.len() ==> #[trigger] final(self)@[i] == old(self)@[i].drained(),
    {
        let mut result: Vec<Shape> = Vec::new();
        let mut i: usize = 0;
        while i < self.painters.len()
            invariant
                i <= self.painters@.len(),
                self.painters@.len() == old(self).painters@.len(),
                result@ == all_pending(old(self)@.take(i as int)),
                forall|k: int|
                    0 <= k < i ==> (#[trigger] self.painters@[k])@ == old(
                        self,
                    ).painters@[k]@.drained(),
                forall|k: int|
                    i <= k < self.painters@.len() ==> #[trigger] self.painters@[k] == old(
                        self,
                    ).painters@[k],
            decreases self.painters@.len() - i,
        {
            let mut drained = self.painters[i].paint();
            result.append(&mut drained);
            proof {
                let before = old(self)@;
                assert(before.take(i + 1).drop_last() =~= before.take(i as int));
                assert(before.take(i + 1).last() == before[i as int]);
            }
            i += 1;
        }
        assert(old(self)@.take(i as int) =~= old(self)@);
        result
    }

    /// Fresh painters over every frame moved right by the largest horizontal
    /// extent among the frames (zero if none is larger). Shapes still pending
    /// are not carried over.
    pub fn to_right(&self) -> (r: CompositePainter)
        ensures
            r@ == moved_afresh(self@, Vector::of(largest_x_of(self@), 0)),
    {
        let mut x_max = Scalar::zero();
        let mut i: usize = 0;
        while i < self.painters.len()
            invariant
                i <= self.painters@.len(),
                x_max.milli == largest_x_of(self@.take(i as int)),
            decreases self.painters@.len() - i,
        {
            proof {
                assert(self@.take(i + 1).drop_last() =~= self@.take(i as int));
            }
            x_max = x_max.max(self.painters[i].frame().x_max());
            i += 1;
        }
        assert(self@.take(i as int) =~= self@);
        self.transform(Vector::new(x_max, Scalar::zero()))
    }

    /// Fresh painters over every frame moved down by the largest vertical
    /// extent among the frames (zero if none is larger). Shapes still pending
    /// are not carried over.
    pub fn to_below(&self) -> (r: CompositePainter)
        ensures
            r@ == moved_afresh(self@, Vector::of(0, largest_y_of(self@))),
    {
        let mut y_max = Scalar::zero();
        let mut i: usize = 0;
        while i < self.painters.len()
            invariant
                i <= self.painters@.len(),
                y_max.milli == largest_y_of(self@.take(i as int)),
            decreases self.painters@.len() - i,
        {
            proof {
                assert(self@.take(i + 1).drop_last() =~= self@.take(i as int));
            }
            y_max = y_max.max(self.painters[i].frame().y_max());
            i += 1;
        }
        assert(self@.take(i as int) =~= self@);
        self.transform(Vector::new(Scalar::zero(), y_max))
    }

    fn transform(&self, v: Vector) -> (r: CompositePainter)
        ensures
            r@ == moved_afresh(self@, v),
    {
        let mut moved: Vec<Painter> = Vec::new();
        let mut i: usize = 0;
        while i < self.painters.len()
            invariant
                i <= self.painters@.len(),
                moved@.len() == i,
                forall|k: int|
                    0 <= k < i ==> (#[trigger] moved@[k])@ == PainterView::fresh(
                        self.painters@[k]@.frame.transformed(v),
                    ),
            decreases self.painters@.len() - i,
        {
            moved.push(Painter::new(self.painters[i].frame().transform(v)));
            i += 1;
        }
        let r = CompositePainter::new(moved);
        assert(r@ =~= moved_afresh(self@, v));
        r
    }
}

/// The largest extents are at least zero and at least the extent of every
/// frame in the group.
pub proof fn lemma_largest_bounds(painters: Seq<PainterView>, i: int)
    requires
        0 <= i < painters.len(),
    ensures
        largest_x_of(painters) >= 0,
        largest_y_of(painters) >= 0,
        largest_x_of(painters) >= painters[i].frame.largest_x(),
        largest_y_of(painters) >= painters[i].frame.largest_y(),
    decreases painters.len(),
{
    lemma_largest_not_negative(painters.drop_last());
    if i < painters.len() - 1 {
        lemma_largest_bounds(painters.drop_last(), i);
    }
}

/// The largest extents are never negative.
pub proof fn lemma_largest_not_negative(painters: Seq<PainterView>)
    ensures
        largest_x_of(painters) >= 0,
        largest_y_of(painters) >= 0,
    decreases painters.len(),
{
    if painters.len() > 0 {
        lemma_largest_not_negative(painters.drop_last());
    }
}

/// Painting a group twice in a row hands out nothing the second time.
pub proof fn lemma_second_group_paint_is_empty(painters: Seq<PainterView>)
    requires
        forall|i: int| 0 <= i < painters.len() ==> (#[trigger] painters[i]).pending.len() == 0,
    ensures
        all_pending(painters) == Seq::<Shape>::empty(),
    decreases painters.len(),
{
    if painters.len() > 0 {
        lemma_second_group_paint_is_empty(painters.drop_last());
        assert(all_pending(painters) =~= Seq::<Shape>::empty());
    }
}

} // verus!
