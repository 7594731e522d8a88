use vstd::prelude::*;
use vstd::std_specs::ops::AddSpecImpl;
use vstd::std_specs::ops::MulSpecImpl;
use crate::text::same_text;

verus! {

/// An algebraic expression over integer constants and named variables.
#[derive(Debug, PartialEq)]
pub enum Algebra {
    Constant(isize),
    Variable(String),
    Sum(Box<Algebra>, Box<Algebra>),
    Product(Box<Algebra>, Box<Algebra>),
    Power(Box<Algebra>, Box<Algebra>),
}

/// An expression as a mathematical value: constants are unbounded integers
/// and names are sequences of characters.
pub enum Expr {
    Constant(int),
    Variable(Seq<char>),
    Sum(Box<Expr>, Box<Expr>),
    Product(Box<Expr>, Box<Expr>),
    Power(Box<Expr>, Box<Expr>),
}

/// `v` is a value of the machine integer that holds constants.
pub open spec fn in_range(v: int) -> bool {
    isize::MIN <= v <= isize::MAX
}

/// The sum of two expressions, simplified: two constants are added, and a
/// constant zero on either side leaves the other side.
pub open spec fn sum_of(addend: Expr, augend: Expr) -> Expr {
    match (addend, augend) {
        (Expr::Constant(x), Expr::Constant(y)) => Expr::Constant(x + y),
        (Expr::Constant(x), other) if x == 0 => other,
        (other, Expr::Constant(y)) if y == 0 => other,
        _ => Expr::Sum(Box::new(addend), Box::new(augend)),
    }
}

/// The product of two expressions, simplified: two constants are
/// multiplied, a constant zero on either side gives zero, and a constant one
/// on either side leaves the other side.
pub open spec fn product_of(multiplier: Expr, multiplicand: Expr) -> Expr {
    match (multiplier, multiplicand) {
        (Expr::Constant(x), Expr::Constant(y)) => Expr::Constant(x * y),
        (Expr::Constant(x), _) if x == 0 => Expr::Constant(0),
        (_, Expr::Constant(y)) if y == 0 => Expr::Constant(0),
        (other, Expr::Constant(y)) if y == 1 => other,
        (Expr::Constant(x), other) if x == 1 => other,
        _ => Expr::Product(Box::new(multiplier), Box::new(multiplicand)),
    }
}

/// A power, simplified: the exponent zero gives one, the exponent one gives
/// the base.
pub open spec fn power_of(base: Expr, exponent: Expr) -> Expr {
    match exponent {
        Expr::Constant(n) if n == 0 => Expr::Constant(1),
        Expr::Constant(n) if n == 1 => base,
        _ => Expr::Power(Box::new(base), Box::new(exponent)),
    }
}

/// The derivative of `e` with respect to `variable`, by the rules for
/// constants, variables, sums, products and powers, simplified at each step.
pub open spec fn derivative(e: Expr, variable: Seq<char>) -> Expr
    decreases e,
{
    match e {
        Expr::Constant(_) => Expr::Constant(0),
        Expr::Variable(v) => if v == variable {
            Expr::Constant(1)
        } else {
            Expr::Constant(0)
        },
        Expr::Sum(addend, augend) => sum_of(
            derivative(*addend, variable),
            derivative(*augend, variable),
        ),
        Expr::Product(multiplier, multiplicand) => sum_of(
            product_of(*multiplier, derivative(*multiplicand, variable)),
            product_of(derivative(*multiplier, variable), *multiplicand),
        ),
        Expr::Power(base, exponent) => product_of(
            product_of(*exponent, power_of(*base, sum_of(*exponent, Expr::Constant(-1)))),
            derivative(*base, variable),
        ),
    }
}

/// The constant that simplifying the sum computes, if it computes one, is a
/// machine integer.
pub open spec fn sum_in_range(addend: Expr, augend: Expr) -> bool {
    match (addend, augend) {
        (Expr::Constant(x), Expr::Constant(y)) => in_range(x + y),
        _ => true,
    }
}

/// The constant that simplifying the product computes, if it computes one,
/// is a machine integer.
pub open spec fn product_in_range(multiplier: Expr, multiplicand: Expr) -> bool {
    match (multiplier, multiplicand) {
        (Expr::Constant(x), Expr::Constant(y)) => in_range(x * y),
        _ => true,
    }
}

/// Every constant computed on the way to the derivative is a machine
/// integer.
pub open spec fn derivative_in_range(e: Expr, variable: Seq<char>) -> bool
    decreases e,
{
    match e {
        Expr::Constant(_) => true,
        Expr::Variable(_) => true,
        Expr::Sum(addend, augend) => {
            &&& derivative_in_range(*addend, variable)
            &&& derivative_in_range(*augend, variable)
            &&& sum_in_range(derivative(*addend, variable), derivative(*augend, variable))
        },
        Expr::Product(multiplier, multiplicand) => {
            let left = product_of(*multiplier, derivative(*multiplicand, variable));
            let right = product_of(derivative(*multiplier, variable), *multiplicand);
            &&& derivative_in_range(*multiplicand, variable)
            &&& derivative_in_range(*multiplier, variable)
            &&& product_in_range(*multiplier, derivative(*multiplicand, variable))
            &&& product_in_range(derivative(*multiplier, variable), *multiplicand)
            &&& sum_in_range(left, right)
        },
        Expr::Power(base, exponent) => {
            let lowered = sum_of(*exponent, Expr::Constant(-1));
            let power = power_of(*base, lowered);
            let outer = product_of(*exponent, power);
            &&& sum_in_range(*exponent, Expr::Constant(-1))
            &&& product_in_range(*exponent, power)
            &&& derivative_in_range(*base, variable)
            &&& product_in_range(outer, derivative(*base, variable))
        },
    }
}

impl Algebra {
    /// The expression as a mathematical value.
    pub open spec fn model(&self) -> Expr
        decreases self,
    {
        match self {
            Algebra::Constant(c) => Expr::Constant(*c as int),
            Algebra::Variable(name) => Expr::Variable(name@),
            Algebra::Sum(a, b) => Expr::Sum(Box::new(a.model()), Box::new(b.model())),
            Algebra::Product(a, b) => Expr::Product(Box::new(a.model()), Box::new(b.model())),
            Algebra::Power(a, b) => Expr::Power(Box::new(a.model()), Box::new(b.model())),
        }
    }

    /// The simplified sum.
    pub fn new_sum(addend: Algebra, augend: Algebra) -> (r: Algebra)
        requires
            sum_in_range(addend@, augend@),
        ensures
            r@ == sum_of(addend@, augend@),
    {
        match (addend, augend) {
            (Algebra::Constant(x), Algebra::Constant(y)) => Algebra::Constant(x + y),
            (Algebra::Constant(0), x) => x,
            (x, Algebra::Constant(0)) => x,
            (addend, augend) => Algebra::Sum(Box::new(addend), Box::new(augend)),
        }
    }

    /// The simplified product.
    pub fn new_product(multiplier: Algebra, multiplicand: Algebra) -> (r: Algebra)
        requires
            product_in_range(multiplier@, multiplicand@),
        ensures
            r@ == product_of(multiplier@, multiplicand@),
    {
        match (multiplier, multiplicand) {
            (Algebra::Constant(x), Algebra::Constant(y)) => Algebra::Constant(x * y),
            (Algebra::Constant(0), _) => Algebra::Constant(0),
            (_, Algebra::Constant(0)) => Algebra::Constant(0),
            (x, Algebra::Constant(1)) => x,
            (Algebra::Constant(1), x) => x,
            (multiplier, multiplicand) => Algebra::Product(
                Box::new(multiplier),
                Box::new(multiplicand),
            ),
        }
    }

    /// The simplified power.
    pub fn new_power(base: Algebra, exponent: Algebra) -> (r: Algebra)
        ensures
            r@ == power_of(base@, exponent@),
    {
        match exponent {
            Algebra::Constant(0) => Algebra::Constant(1),
            Algebra::Constant(1) => base,
            exponent => Algebra::Power(Box::new(base), Box::new(exponent)),
        }
    }

    /// The derivative with respect to `variable`.
    pub fn derive(&self, variable: &str) -> (r: Algebra)
        requires
            derivative_in_range(self@, variable@),
        ensures
            r@ == derivative(self@, variable@),
        decreases self,
    {
        match self {
            Algebra::Constant(_) => Algebra::Constant(0),
            Algebra::Variable(v) => if same_text(v.as_str(), variable) {
                Algebra::Constant(1)
            } else {
                Algebra::Constant(0)
            },
            Algebra::Sum(addend, augend) => Algebra::new_sum(
                addend.derive(variable),
                augend.derive(variable),
            ),
            Algebra::Product(multiplier, multiplicand) => Algebra::new_sum(
                Algebra::new_product((**multiplier).clone(), multiplicand.derive(variable)),
                Algebra::new_product(multiplier.derive(variable), (**multiplicand).clone()),
            ),
            Algebra::Power(base, exponent) => Algebra::new_product(
                Algebra::new_product(
                    (**exponent).clone(),
                    Algebra::new_power(
                        (**base).clone(),
                        Algebra::new_sum((**exponent).clone(), Algebra::Constant(-1)),
                    ),
                ),
                Algebra::derive(base, variable),
            ),
        }
    }
}

impl View for Algebra {
    type V = Expr;

    open spec fn view(&self) -> Expr {
        self.model()
    }
}

impl Clone for Algebra {
    /// A copy with the same constants, names and structure.
    fn clone(&self) -> (r: Algebra)
        ensures
            r@ == self@,
        decreases self,
    {
        match self {
            Algebra::Constant(c) => Algebra::Constant(*c),
            Algebra::Variable(name) => Algebra::Variable(name.clone()),
            Algebra::Sum(a, b) => Algebra::Sum(Box::new((**a).clone()), Box::new((**b).clone())),
            Algebra::Product(a, b) => Algebra::Product(
                Box::new((**a).clone()),
                Box::new((**b).clone()),
            ),
            Algebra::Power(a, b) => Algebra::Power(
                Box::new((**a).clone()),
                Box::new((**b).clone()),
            ),
        }
    }
}

impl core::ops::Add for Algebra {
    type Output = Algebra;

    /// The simplified sum.
    fn add(self, rhs: Algebra) -> (r: Algebra)
        ensures
            r@ == sum_of(self@, rhs@),
    {
        Algebra::new_sum(self, rhs)
    }
}

impl AddSpecImpl for Algebra {
    open spec fn obeys_add_spec() -> bool {
        false
    }

    open spec fn add_req(self, rhs: Algebra) -> bool {
        sum_in_range(self@, rhs@)
    }

    open spec fn add_spec(self, rhs: Algebra) -> Algebra {
        self
    }
}

impl core::ops::Mul for Algebra {
    type Output = Algebra;

    /// The simplified product.
    fn mul(self, rhs: Algebra) -> (r: Algebra)
        ensures
            r@ == product_of(self@, rhs@),
    {
        Algebra::new_product(self, rhs)
    }
}

impl MulSpecImpl for Algebra {
    open spec fn obeys_mul_spec() -> bool {
        false
    }

    open spec fn mul_req(self, rhs: Algebra) -> bool {
        product_in_range(self@, rhs@)
    }

    open spec fn mul_spec(self, rhs: Algebra) -> Algebra {
        self
    }
}

} // verus!
