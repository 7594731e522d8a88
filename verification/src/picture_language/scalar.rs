use vstd::prelude::*;

verus! {

/// Number of stored units that make up the value one.
pub const UNITS_PER_ONE: i64 = 1000;

/// A coordinate or length, held exactly as a whole number of thousandths.
///
/// Arithmetic saturates at the ends of the representable range, so every
/// operation is total.
#[derive(Clone, Copy, Debug, PartialEq, Eq, Structural)]
pub struct Scalar {
    pub milli: i64,
}

/// `v` brought into the range of the stored integer.
pub open spec fn saturate(v: int) -> int {
    if v < i64::MIN {
        i64::MIN as int
    } else if v > i64::MAX {
        i64::MAX as int
    } else {
        v
    }
}

/// The quotient of `n` by the positive `d`, rounded toward zero.
pub open spec fn div_toward_zero(n: int, d: int) -> int
    recommends
        d > 0,
{
    if n >= 0 {
        n / d
    } else {
        -((-n) / d)
    }
}

/// Sum of two stored values.
pub open spec fn sum_milli(a: int, b: int) -> int {
    saturate(a + b)
}

/// Difference of two stored values.
pub open spec fn difference_milli(a: int, b: int) -> int {
    saturate(a - b)
}

/// Product of two stored values, as a stored value.
pub open spec fn product_milli(a: int, b: int) -> int {
    saturate(div_toward_zero(a * b, 1000))
}

/// The larger of two integers.
pub open spec fn larger(a: int, b: int) -> int {
    if a >= b {
        a
    } else {
        b
    }
}

fn saturate_wide(v: i128) -> (r: i64)
    ensures
        r == saturate(v as int),
{
    if v < -9223372036854775808i128 {
        i64::MIN
    } else if v > 9223372036854775807i128 {
        i64::MAX
    } else {
        v as i64
    }
}

impl Scalar {
    /// The scalar that stores `milli` thousandths.
    pub fn from_milli(milli: i64) -> (r: Scalar)
        ensures
            r.milli == milli,
    {
        Scalar { milli }
    }

    /// The scalar whose value is the whole number `n`.
    pub fn from_int(n: i32) -> (r: Scalar)
        ensures
            r.milli == n * 1000,
    {
        let wide: i64 = n as i64;
        Scalar { milli: wide * 1000 }
    }

    /// The value zero.
    pub fn zero() -> (r: Scalar)
        ensures
            r.milli == 0,
    {
        Scalar { milli: 0 }
    }

    /// The value one.
    pub fn one() -> (r: Scalar)
        ensures
            r.milli == 1000,
    {
        Scalar { milli: 1000 }
    }

    /// The sum, saturating.
    pub fn plus(self, rhs: Scalar) -> (r: Scalar)
        ensures
            r.milli == sum_milli(self.milli as int, rhs.milli as int),
    {
        let wide: i128 = self.milli as i128 + rhs.milli as i128;
        Scalar { milli: saturate_wide(wide) }
    }

    /// The difference, saturating.
    pub fn minus(self, rhs: Scalar) -> (r: Scalar)
        ensures
            r.milli == difference_milli(self.milli as int, rhs.milli as int),
    {
        let wide: i128 = self.milli as i128 - rhs.milli as i128;
        Scalar { milli: saturate_wide(wide) }
    }

    /// The product, rounded toward zero and saturating.
    pub fn times(self, rhs: Scalar) -> (r: Scalar)
        ensures
            r.milli == product_milli(self.milli as int, rhs.milli as int),
    {
        let a: i128 = self.milli as i128;
        let b: i128 = rhs.milli as i128;
        assert(-0x8000_0000_0000_0000 * 0x8000_0000_0000_0000 <= a * b <= 0x8000_0000_0000_0000
            * 0x8000_0000_0000_0000) by (nonlinear_arith)
            requires
                -0x8000_0000_0000_0000 <= a < 0x8000_0000_0000_0000,
                -0x8000_0000_0000_0000 <= b < 0x8000_0000_0000_0000,
        ;
        let wide: i128 = a * b;
        let quotient: i128 = if wide >= 0 {
            wide / 1000
        } else {
            -((-wide) / 1000)
        };
        Scalar { milli: saturate_wide(quotient) }
    }

    /// The larger of the two.
    pub fn max(self, rhs: Scalar) -> (r: Scalar)
        ensures
            r.milli == larger(self.milli as int, rhs.milli as int),
    {
        if self.milli >= rhs.milli {
            self
        } else {
            rhs
        }
    }
}

} // verus!
