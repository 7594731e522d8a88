use sicp::picture_language::composite_painter::CompositePainter;
use sicp::picture_language::frame::Frame;
use sicp::picture_language::painter::Painter;
use sicp::picture_language::scalar::Scalar;
use sicp::picture_language::segment::{PathError, Segment};
use sicp::picture_language::shape::Shape;
use sicp::picture_language::vector::Vector;
use speedy2d::color::Color;

fn whole(x: i32, y: i32) -> Vector {
    Vector::new(Scalar::from_int(x), Scalar::from_int(y))
}

fn half() -> Scalar {
    Scalar::from_milli(500)
}

#[test]
fn vector_add() {
    assert_eq!(whole(1, 2) + whole(3, 4), whole(4, 6));
}

#[test]
fn vector_subtract() {
    assert_eq!(whole(1, 2) - whole(3, 4), whole(-2, -2));
}

#[test]
fn scale() {
    assert_eq!(whole(1, 2).scale(Scalar::from_int(10)), whole(10, 20));
}

#[test]
fn segment_add() {
    let v1 = whole(1, 2);
    let v2 = whole(3, 4);
    let v3 = whole(4, 6);
    let path = vec![v1, v2, v3, v1];
    assert_eq!(
        Segment::open_path(&path),
        Ok(vec![Segment::new(v1, v2), Segment::new(v2, v3), Segment::new(v3, v1),])
    );
}

#[test]
fn open_path_of_one_point_is_empty() {
    assert_eq!(Segment::open_path(&[whole(1, 2)]), Ok(vec![]));
}

#[test]
fn open_path_of_no_point_is_an_error() {
    assert_eq!(Segment::open_path(&[]), Err(PathError::InvalidInput));
}

#[test]
fn map_from_origin() {
    let f = Frame::new(Vector::zero(), whole(100, 0), whole(0, 200));
    assert_eq!(f.map(Vector::zero()), Vector::zero());
    assert_eq!(f.map(whole(1, 1)), whole(100, 200));
    assert_eq!(f.map(Vector::new(half(), half())), whole(50, 100));
}

#[test]
fn map_off_origin() {
    let f = Frame::new(whole(10, 20), whole(100, 0), whole(0, 200));
    assert_eq!(f.map(Vector::zero()), whole(10, 20));
    assert_eq!(f.map(whole(1, 1)), whole(110, 220));
    assert_eq!(f.map(Vector::new(half(), half())), whole(60, 120));
}

#[test]
fn map_is_origin_plus_scaled_edges() {
    let f = Frame::new(whole(10, 20), whole(100, 20), whole(20, 200));
    let a = Scalar::from_milli(250);
    let b = Scalar::from_milli(750);
    assert_eq!(
        f.map(Vector::new(a, b)),
        f.origin + f.edge1.scale(a) + f.edge2.scale(b)
    );
    assert_eq!(f.map(Vector::new(a, b)), whole(50, 175));
    assert_eq!(f.map(Vector::one()), f.origin + f.edge1 + f.edge2);
}

#[test]
fn transform_moves_the_origin_only() {
    let f = Frame::new(whole(10, 20), whole(100, 20), whole(20, 200));
    let v = whole(-3, 7);
    let moved = f.transform(v);
    assert_eq!(moved.map(Vector::zero()), f.origin + v);
    assert_eq!(moved.edge1, f.edge1);
    assert_eq!(moved.edge2, f.edge2);
}

#[test]
fn below_and_right_keep_the_shape() {
    let f = Frame::new(whole(10, 20), whole(100, 20), whole(20, 200));
    assert_eq!(f.below(), Frame::new(whole(30, 220), whole(100, 20), whole(20, 200)));
    assert_eq!(f.right(), Frame::new(whole(110, 40), whole(100, 20), whole(20, 200)));
}

#[test]
fn extent_looks_at_three_corners() {
    let f = Frame::new(whole(10, 20), whole(100, 20), whole(20, 200));
    assert_eq!(f.x_max(), Scalar::from_int(110));
    assert_eq!(f.y_max(), Scalar::from_int(220));
    let leftward = Frame::new(whole(10, 20), whole(-5, -1), whole(-2, -8));
    assert_eq!(leftward.x_max(), Scalar::from_int(10));
    assert_eq!(leftward.y_max(), Scalar::from_int(20));
}

#[test]
fn map_segment_maps_both_ends() {
    let f = Frame::new(whole(10, 20), whole(100, 0), whole(0, 200));
    let s = Segment::new(Vector::zero(), whole(1, 1));
    assert_eq!(f.map_segment(s), Segment::new(whole(10, 20), whole(110, 220)));
}

#[test]
fn scalar_arithmetic_rounds_toward_zero_and_saturates() {
    assert_eq!(Scalar::from_milli(1).times(Scalar::from_milli(999)), Scalar::from_milli(0));
    assert_eq!(Scalar::from_milli(-1).times(Scalar::from_milli(999)), Scalar::from_milli(0));
    assert_eq!(Scalar::from_milli(-1500).times(Scalar::from_milli(1500)), Scalar::from_milli(-2250));
    assert_eq!(Scalar::from_milli(333).times(Scalar::from_int(3)), Scalar::from_milli(999));
    assert_eq!(Scalar::from_milli(i64::MAX).plus(Scalar::one()), Scalar::from_milli(i64::MAX));
    assert_eq!(Scalar::from_milli(i64::MIN).minus(Scalar::one()), Scalar::from_milli(i64::MIN));
    assert_eq!(
        Scalar::from_milli(i64::MAX).times(Scalar::from_int(2)),
        Scalar::from_milli(i64::MAX)
    );
    assert_eq!(
        Scalar::from_milli(i64::MIN).times(Scalar::from_int(2)),
        Scalar::from_milli(i64::MIN)
    );
    assert_eq!(Scalar::from_int(-2).max(Scalar::from_int(-3)), Scalar::from_int(-2));
}

#[test]
fn shapes_are_plain_data() {
    let s = Segment::new(whole(1, 2), whole(3, 4));
    let t = Segment::new(whole(3, 4), whole(5, 6));
    assert_eq!(
        Shape::new_line(s, Scalar::one(), Color::RED),
        Shape::Line(s, Scalar::one(), Color::RED)
    );
    assert_eq!(
        Shape::new_poly_line(vec![s, t], Scalar::one(), Color::GREEN),
        Shape::PolyLine(
            vec![(whole(1, 2), whole(3, 4)), (whole(3, 4), whole(5, 6))],
            Scalar::one(),
            Color::GREEN
        )
    );
    assert_eq!(
        Shape::new_circle(&whole(1, 2), half(), Color::BLACK),
        Shape::Circle(whole(1, 2), half(), Color::BLACK)
    );
    assert_ne!(
        Shape::new_circle(&whole(1, 2), half(), Color::BLACK),
        Shape::new_circle(&whole(1, 2), half(), Color::RED)
    );
}

#[test]
fn painter_maps_lines_and_keeps_the_radius() {
    let f = Frame::new(whole(10, 20), whole(100, 0), whole(0, 200));
    let mut p = Painter::new(f);
    let cross = vec![
        Segment::new(whole(1, 0), whole(0, 1)),
        Segment::new(Vector::zero(), whole(1, 1)),
    ];
    p.render_lines(&cross, Scalar::one(), Color::RED);
    p.render_circle(&Vector::new(half(), half()), Scalar::from_milli(300), Color::GREEN);
    assert_eq!(
        p.paint(),
        vec![
            Shape::Line(Segment::new(whole(110, 20), whole(10, 220)), Scalar::one(), Color::RED),
            Shape::Line(Segment::new(whole(10, 20), whole(110, 220)), Scalar::one(), Color::RED),
            Shape::Circle(whole(60, 120), Scalar::from_milli(300), Color::GREEN),
        ]
    );
}

#[test]
fn second_paint_is_empty() {
    let mut p = Painter::new(Frame::new(Vector::zero(), whole(100, 0), whole(0, 200)));
    p.render_circle(&Vector::zero(), Scalar::one(), Color::RED);
    p.render_lines(&vec![Segment::new(Vector::zero(), whole(1, 1))], Scalar::one(), Color::RED);
    assert_eq!(p.paint().len(), 2);
    assert_eq!(p.paint(), vec![]);
    p.render_circle(&Vector::zero(), Scalar::one(), Color::RED);
    assert_eq!(p.paint().len(), 1);
    assert_eq!(p.paint(), vec![]);
}

#[test]
fn sibling_painters_start_empty() {
    let f = Frame::new(whole(10, 20), whole(100, 20), whole(20, 200));
    let mut p = Painter::new(f);
    p.render_circle(&Vector::zero(), Scalar::one(), Color::RED);
    let mut below = p.below();
    let mut right = p.right();
    assert_eq!(below.frame, f.below());
    assert_eq!(right.frame, f.right());
    assert_eq!(below.paint(), vec![]);
    assert_eq!(right.paint(), vec![]);
    assert_eq!(p.paint().len(), 1);
}

#[test]
fn composite_paints_children_in_order() {
    let f1 = Frame::new(Vector::zero(), whole(100, 0), whole(0, 200));
    let f2 = Frame::new(whole(10, 20), whole(100, 0), whole(0, 200));
    let mut first = Painter::new(f1);
    first.render_circle(&Vector::zero(), Scalar::from_int(7), Color::BLACK);
    let mut both = CompositePainter::new(vec![first, Painter::new(f2)]);
    both.render_lines(&vec![Segment::new(Vector::zero(), whole(1, 1))], Scalar::one(), Color::RED);
    both.render_circle(&whole(1, 0), Scalar::from_int(3), Color::GREEN);
    assert_eq!(
        both.paint(),
        vec![
            Shape::Circle(whole(0, 0), Scalar::from_int(7), Color::BLACK),
            Shape::Line(Segment::new(whole(0, 0), whole(100, 200)), Scalar::one(), Color::RED),
            Shape::Circle(whole(100, 0), Scalar::from_int(3), Color::GREEN),
            Shape::Line(Segment::new(whole(10, 20), whole(110, 220)), Scalar::one(), Color::RED),
            Shape::Circle(whole(110, 20), Scalar::from_int(3), Color::GREEN),
        ]
    );
    assert_eq!(both.paint(), vec![]);
}

#[test]
fn to_right_moves_every_child_by_the_largest_extent() {
    let narrow = Frame::new(whole(10, 5), whole(40, 0), whole(0, 30));
    let wide = Frame::new(whole(20, 0), whole(60, 0), whole(0, 10));
    assert_eq!(narrow.x_max(), Scalar::from_int(50));
    assert_eq!(wide.x_max(), Scalar::from_int(80));
    let mut first = Painter::new(narrow);
    first.render_circle(&Vector::zero(), Scalar::one(), Color::RED);
    let group = CompositePainter::new(vec![first, Painter::new(wide)]);
    let moved = group.to_right();
    assert_eq!(
        moved,
        CompositePainter::new(vec![
            Painter::new(narrow.transform(whole(80, 0))),
            Painter::new(wide.transform(whole(80, 0))),
        ])
    );
    let mut moved = moved;
    assert_eq!(moved.paint(), vec![]);
}

#[test]
fn to_below_moves_every_child_by_the_largest_extent() {
    let narrow = Frame::new(whole(10, 5), whole(40, 0), whole(0, 30));
    let wide = Frame::new(whole(20, 0), whole(60, 0), whole(0, 10));
    let group = CompositePainter::new(vec![Painter::new(narrow), Painter::new(wide)]);
    assert_eq!(
        group.to_below(),
        CompositePainter::new(vec![
            Painter::new(narrow.transform(whole(0, 35))),
            Painter::new(wide.transform(whole(0, 35))),
        ])
    );
}

#[test]
fn extent_of_a_group_is_never_negative() {
    let left = Frame::new(whole(-100, -100), whole(10, 0), whole(0, 10));
    let group = CompositePainter::new(vec![Painter::new(left)]);
    assert_eq!(group.to_right(), CompositePainter::new(vec![Painter::new(left)]));
    assert_eq!(group.to_below(), CompositePainter::new(vec![Painter::new(left)]));
    let nobody = CompositePainter::new(vec![]);
    assert_eq!(nobody.to_right(), CompositePainter::new(vec![]));
}

#[test]
fn tessellated_copies_all_stand_on_the_same_frame() {
    let f = Frame::new(whole(10, 20), whole(100, 20), whole(20, 200));
    let mut p = Painter::new(f);
    p.render_circle(&Vector::zero(), Scalar::one(), Color::RED);
    let copies = CompositePainter::new(vec![Painter::new(f), Painter::new(f), Painter::new(f)]);
    assert_eq!(p.tessellate_to_right(3), copies);
    assert_eq!(p.tessellate_to_down(3), copies);
    assert_eq!(p.tessellate(whole(5, 5), 3), copies);
    assert_eq!(p.tessellate_to_right(0), CompositePainter::new(vec![]));
}

#[test]
fn a_cloned_shape_is_the_same_shape() {
    let line = Shape::new_line(
        Segment::new(whole(1, 2), whole(3, 4)),
        Scalar::from_milli(1500),
        Color::GREEN,
    );
    assert_eq!(line.clone(), line);
    let disc = Shape::new_circle(&whole(1, 2), half(), Color::from_rgb(0.25, 0.5, 0.75));
    assert_eq!(disc.clone(), disc);
    assert_ne!(disc.clone(), Shape::new_circle(&whole(1, 2), half(), Color::BLACK));
    let mut p = Painter::new(Frame::new(Vector::zero(), whole(1, 0), whole(0, 1)));
    p.render_circle(&Vector::zero(), half(), Color::RED);
    let mut copy = p.clone();
    assert_eq!(copy.paint(), p.paint());
}
