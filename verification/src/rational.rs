use vstd::prelude::*;
use vstd::std_specs::ops::AddSpecImpl;
use vstd::std_specs::ops::SubSpecImpl;
use crate::gcd::gcd;
use crate::gcd::gcd_spec;
use crate::gcd::magnitude;
use crate::gcd::is_multiple;
use crate::gcd::lemma_gcd_divides;

verus! {

/// A fraction, kept reduced and with a denominator that is not negative.
#[derive(Debug, PartialEq, Clone, Copy)]
pub struct Rational {
    pub numerator: isize,
    pub denominator: isize,
}

/// The quotient of `n` by a nonzero `d`, rounded toward zero.
pub open spec fn quotient(n: int, d: int) -> int
    recommends
        d != 0,
{
    if n >= 0 && d > 0 {
        n / d
    } else if n >= 0 {
        -(n / (-d))
    } else if d > 0 {
        -((-n) / d)
    } else {
        (-n) / (-d)
    }
}

/// The fraction can be formed in the machine integer: the two parts are not
/// both zero, and neither the common divisor nor the reduced parts fall
/// outside the integer's range.
pub open spec fn can_reduce(numerator: int, denominator: int) -> bool {
    let g = gcd_spec(numerator, denominator);
    &&& g != 0
    &&& !(numerator == isize::MIN && denominator == -1)
    &&& !(numerator == isize::MIN && g == -1)
    &&& !(denominator == isize::MIN && g == -1)
    &&& !(denominator == isize::MIN && g == 1)
}

/// The numerator of the reduced fraction.
pub open spec fn reduced_numerator(numerator: int, denominator: int) -> int {
    quotient(numerator, gcd_spec(numerator, denominator))
}

/// The denominator of the reduced fraction.
pub open spec fn reduced_denominator(numerator: int, denominator: int) -> int {
    magnitude(quotient(denominator, gcd_spec(numerator, denominator)))
}

/// The numerator of the sum before reduction fits the machine integer, and
/// so do the products it is made of and the product of the denominators.
pub open spec fn parts_fit(a: Rational, b: Rational, sign: int) -> bool {
    let left = a.numerator * b.denominator;
    let right = b.numerator * a.denominator;
    let below = a.denominator * b.denominator;
    &&& isize::MIN <= left <= isize::MAX
    &&& isize::MIN <= right <= isize::MAX
    &&& isize::MIN <= left + sign * right <= isize::MAX
    &&& isize::MIN <= below <= isize::MAX
    &&& can_reduce(left + sign * right, below)
}

/// Dividing a multiple of `d` by `d` leaves nothing over.
pub proof fn lemma_quotient_of_multiple(n: int, d: int)
    requires
        d != 0,
        is_multiple(n, d),
    ensures
        quotient(n, d) * d == n,
{
    let k = choose|k: int| n == #[trigger] (k * d);
    if n >= 0 && d > 0 {
        assert(n == d * k) by (nonlinear_arith)
            requires
                n == k * d,
        ;
        vstd::arithmetic::div_mod::lemma_div_multiples_vanish(k, d);
    } else if n >= 0 {
        assert(n == (-d) * (-k)) by (nonlinear_arith)
            requires
                n == k * d,
        ;
        vstd::arithmetic::div_mod::lemma_div_multiples_vanish(-k, -d);
        assert((-(-k)) * d == n) by (nonlinear_arith)
            requires
                n == k * d,
        ;
    } else if d > 0 {
        assert(-n == d * (-k)) by (nonlinear_arith)
            requires
                n == k * d,
        ;
        vstd::arithmetic::div_mod::lemma_div_multiples_vanish(-k, d);
        assert((-(-k)) * d == n) by (nonlinear_arith)
            requires
                n == k * d,
        ;
    } else {
        assert(-n == (-d) * k) by (nonlinear_arith)
            requires
                n == k * d,
        ;
        vstd::arithmetic::div_mod::lemma_div_multiples_vanish(k, -d);
    }
}

/// The reduced parts, multiplied by the common divisor, give back the parts
/// of the fraction, the denominator without its sign.
pub proof fn lemma_reduction_is_exact(numerator: int, denominator: int)
    requires
        gcd_spec(numerator, denominator) != 0,
    ensures
        reduced_numerator(numerator, denominator) * gcd_spec(numerator, denominator)
            == numerator,
        reduced_denominator(numerator, denominator) * magnitude(
            gcd_spec(numerator, denominator),
        ) == magnitude(denominator),
        reduced_denominator(numerator, denominator) >= 0,
{
    let g = gcd_spec(numerator, denominator);
    lemma_gcd_divides(numerator, denominator);
    lemma_quotient_of_multiple(numerator, g);
    lemma_quotient_of_multiple(denominator, g);
    let q = quotient(denominator, g);
    assert(magnitude(q) * magnitude(g) == magnitude(denominator)) by (nonlinear_arith)
        requires
            q * g == denominator,
            magnitude(q) == if q < 0 {
                -q
            } else {
                q
            },
            magnitude(g) == if g < 0 {
                -g
            } else {
                g
            },
            magnitude(denominator) == if denominator < 0 {
                -denominator
            } else {
                denominator
            },
    ;
}

impl Rational {
    /// The fraction `numerator / denominator`, reduced by the common divisor
    /// that Euclid's algorithm finds: dividing by it leaves nothing over, and
    /// the denominator loses its sign.
    pub fn new(numerator: isize, denominator: isize) -> (r: Self)
        requires
            can_reduce(numerator as int, denominator as int),
        ensures
            r.numerator == reduced_numerator(numerator as int, denominator as int),
            r.denominator == reduced_denominator(numerator as int, denominator as int),
            r.numerator * gcd_spec(numerator as int, denominator as int) == numerator,
            r.denominator * magnitude(gcd_spec(numerator as int, denominator as int))
                == magnitude(denominator as int),
    {
        proof {
            lemma_reduction_is_exact(numerator as int, denominator as int);
        }
        let g = gcd(numerator, denominator);
        let below = divide(denominator, g);
        proof {
            lemma_quotient_above_least(denominator as int, g as int);
        }
        Self {
            numerator: divide(numerator, g),
            denominator: if below < 0 {
                -below
            } else {
                below
            },
        }
    }
}

/// The machine's division, which rounds toward zero.
fn divide(n: isize, d: isize) -> (r: isize)
    requires
        d != 0,
        !(n == isize::MIN && d == -1),
    ensures
        r == quotient(n as int, d as int),
{
    proof {
        lemma_quotient_in_range(n as int, d as int);
        assert(0int / (d as int) == 0) by (nonlinear_arith)
            requires
                d != 0,
        ;
        assert(0int / (-(d as int)) == 0) by (nonlinear_arith)
            requires
                d != 0,
        ;
    }
    match n.checked_div(d) {
        Some(q) => q,
        None => vstd::pervasive::unreached(),
    }
}

/// The quotient of two machine integers is a machine integer, but for the
/// least one divided by minus one.
pub proof fn lemma_quotient_in_range(n: int, d: int)
    requires
        isize::MIN <= n <= isize::MAX,
        d != 0,
        !(n == isize::MIN && d == -1),
    ensures
        isize::MIN <= quotient(n, d) <= isize::MAX,
{
    if n >= 0 && d > 0 {
        assert(0 <= n / d <= n) by (nonlinear_arith)
            requires
                n >= 0,
                d > 0,
        ;
    } else if n >= 0 {
        assert(0 <= n / (-d) <= n) by (nonlinear_arith)
            requires
                n >= 0,
                -d > 0,
        ;
    } else if d > 0 {
        assert(0 <= (-n) / d <= -n) by (nonlinear_arith)
            requires
                -n > 0,
                d > 0,
        ;
    } else if d == -1 {
        assert((-n) / 1 == -n);
    } else {
        assert(0 <= (-n) / (-d) < -n) by (nonlinear_arith)
            requires
                -n > 0,
                -d >= 2,
        ;
    }
}

/// A quotient is the least machine integer only where the least machine
/// integer is divided by one.
pub proof fn lemma_quotient_above_least(n: int, d: int)
    requires
        isize::MIN <= n <= isize::MAX,
        d != 0,
        !(n == isize::MIN && d == 1),
    ensures
        quotient(n, d) > isize::MIN,
{
    if n >= 0 && d > 0 {
        assert(n / d >= 0) by (nonlinear_arith)
            requires
                n >= 0,
                d > 0,
        ;
    } else if n >= 0 {
        assert(n / (-d) <= n) by (nonlinear_arith)
            requires
                n >= 0,
                -d > 0,
        ;
    } else if d > 0 {
        if d == 1 {
            assert((-n) / 1 == -n);
        } else {
            assert((-n) / d < -n) by (nonlinear_arith)
                requires
                    -n > 0,
                    d >= 2,
            ;
        }
    } else {
        assert((-n) / (-d) >= 0) by (nonlinear_arith)
            requires
                -n > 0,
                -d > 0,
        ;
    }
}

impl core::ops::Add for Rational {
    type Output = Rational;

    fn add(self, rhs: Rational) -> (r: Rational) {
        Self::new(
            self.numerator * rhs.denominator + rhs.numerator * self.denominator,
            self.denominator * rhs.denominator,
        )
    }
}

impl AddSpecImpl for Rational {
    open spec fn obeys_add_spec() -> bool {
        true
    }

    open spec fn add_req(self, rhs: Rational) -> bool {
        parts_fit(self, rhs, 1)
    }

    open spec fn add_spec(self, rhs: Rational) -> Rational {
        let above = self.numerator * rhs.denominator + rhs.numerator * self.denominator;
        let below = self.denominator * rhs.denominator;
        Rational {
            numerator: reduced_numerator(above, below) as isize,
            denominator: reduced_denominator(above, below) as isize,
        }
    }
}

impl core::ops::Sub for Rational {
    type Output = Rational;

    fn sub(self, rhs: Rational) -> (r: Rational) {
        Self::new(
            self.numerator * rhs.denominator - rhs.numerator * self.denominator,
            self.denominator * rhs.denominator,
        )
    }
}

impl SubSpecImpl for Rational {
    open spec fn obeys_sub_spec() -> bool {
        true
    }

    open spec fn sub_req(self, rhs: Rational) -> bool {
        parts_fit(self, rhs, -1)
    }

    open spec fn sub_spec(self, rhs: Rational) -> Rational {
        let above = self.numerator * rhs.denominator - rhs.numerator * self.denominator;
        let below = self.denominator * rhs.denominator;
        Rational {
            numerator: reduced_numerator(above, below) as isize,
            denominator: reduced_denominator(above, below) as isize,
        }
    }
}

} // verus!
