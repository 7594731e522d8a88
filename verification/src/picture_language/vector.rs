use vstd::prelude::*;
use vstd::std_specs::ops::AddSpecImpl;
use vstd::std_specs::ops::SubSpecImpl;
use crate::picture_language::scalar::Scalar;
use crate::picture_language::scalar::sum_milli;
use crate::picture_language::scalar::difference_milli;
use crate::picture_language::scalar::product_milli;

verus! {

/// A point or displacement in the plane.
#[derive(Clone, Copy, Debug, PartialEq, Eq, Structural)]
pub struct Vector {
    pub x: Scalar,
    pub y: Scalar,
}

impl Vector {
    /// The vector whose stored components are `x` and `y`.
    pub open spec fn of(x: int, y: int) -> Vector
        recommends
            i64::MIN <= x <= i64::MAX,
            i64::MIN <= y <= i64::MAX,
    {
        Vector { x: Scalar { milli: x as i64 }, y: Scalar { milli: y as i64 } }
    }

    /// Componentwise sum.
    pub open spec fn plus(self, rhs: Vector) -> Vector {
        Vector::of(
            sum_milli(self.x.milli as int, rhs.x.milli as int),
            sum_milli(self.y.milli as int, rhs.y.milli as int),
        )
    }

    /// Componentwise difference.
    pub open spec fn minus(self, rhs: Vector) -> Vector {
        Vector::of(
            difference_milli(self.x.milli as int, rhs.x.milli as int),
            difference_milli(self.y.milli as int, rhs.y.milli as int),
        )
    }

    /// Both components multiplied by `s`.
    pub open spec fn scaled(self, s: Scalar) -> Vector {
        Vector::of(
            product_milli(self.x.milli as int, s.milli as int),
            product_milli(self.y.milli as int, s.milli as int),
        )
    }

    pub fn new(x: Scalar, y: Scalar) -> (r: Vector)
        ensures
            r == (Vector { x, y }),
    {
        Vector { x, y }
    }

    pub fn zero() -> (r: Vector)
        ensures
            r == Vector::of(0, 0),
    {
        Vector { x: Scalar::zero(), y: Scalar::zero() }
    }

    pub fn one() -> (r: Vector)
        ensures
            r == Vector::of(1000, 1000),
    {
        Vector { x: Scalar::one(), y: Scalar::one() }
    }

    pub fn scale(&self, s: Scalar) -> (r: Vector)
        ensures
            r == self.scaled(s),
    {
        Vector { x: self.x.times(s), y: self.y.times(s) }
    }
}

impl core::ops::Add for Vector {
    type Output = Vector;

    fn add(self, rhs: Vector) -> (r: Vector) {
        Vector { x: self.x.plus(rhs.x), y: self.y.plus(rhs.y) }
    }
}

impl AddSpecImpl for Vector {
    open spec fn obeys_add_spec() -> bool {
        true
    }

    open spec fn add_req(self, rhs: Vector) -> bool {
        true
    }

    open spec fn add_spec(self, rhs: Vector) -> Vector {
        self.plus(rhs)
    }
}

impl core::ops::Sub for Vector {
    type Output = Vector;

    fn sub(self, rhs: Vector) -> (r: Vector) {
        Vector { x: self.x.minus(rhs.x), y: self.y.minus(rhs.y) }
    }
}

impl SubSpecImpl for Vector {
    open spec fn obeys_sub_spec() -> bool {
        true
    }

    open spec fn sub_req(self, rhs: Vector) -> bool {
        true
    }

    open spec fn sub_spec(self, rhs: Vector) -> Vector {
        self.minus(rhs)
    }
}

} // verus!
