use vstd::prelude::*;

verus! {

/// Absolute value of an integer.
pub open spec fn magnitude(v: int) -> int {
    if v < 0 {
        -v
    } else {
        v
    }
}

/// What Euclid's algorithm reaches from `(a, b)`: `a` once `b` is zero,
/// otherwise the value reached from `b` and the non-negative remainder of
/// `a` by `b`.
pub open spec fn gcd_spec(a: int, b: int) -> int
    decreases magnitude(b),
{
    if b == 0 {
        a
    } else {
        gcd_spec(b, a % b)
    }
}

/// Greatest common divisor by Euclid's algorithm with the non-negative
/// remainder. The one excluded pair is the one whose remainder cannot be
/// computed in the machine type.
pub fn gcd(a: isize, b: isize) -> (r: isize)
    requires
        !(a == isize::MIN && b == -1),
    ensures
        r == gcd_spec(a as int, b as int),
    decreases magnitude(b as int),
{
    if b == 0 {
        a
    } else {
        match a.checked_rem_euclid(b) {
            Some(rest) => gcd(b, rest),
            None => vstd::pervasive::unreached(),
        }
    }
}

/// `n` is a whole multiple of `d`.
pub open spec fn is_multiple(n: int, d: int) -> bool {
    exists|k: int| n == #[trigger] (k * d)
}

/// What Euclid's algorithm reaches divides both numbers.
pub proof fn lemma_gcd_divides(a: int, b: int)
    ensures
        is_multiple(a, gcd_spec(a, b)),
        is_multiple(b, gcd_spec(a, b)),
    decreases magnitude(b),
{
    let g = gcd_spec(a, b);
    if b == 0 {
        assert(a == 1 * g);
        assert(b == 0 * g);
    } else {
        let r = a % b;
        lemma_gcd_divides(b, r);
        let kb = choose|k: int| b == #[trigger] (k * g);
        let kr = choose|k: int| r == #[trigger] (k * g);
        vstd::arithmetic::div_mod::lemma_fundamental_div_mod(a, b);
        let k = kb * (a / b) + kr;
        assert(a == k * g) by (nonlinear_arith)
            requires
                a == b * (a / b) + r,
                b == kb * g,
                r == kr * g,
                k == kb * (a / b) + kr,
        ;
    }
}

/// Whatever divides both numbers divides what Euclid's algorithm reaches:
/// among the common divisors it is the greatest.
pub proof fn lemma_gcd_is_greatest(a: int, b: int, d: int)
    requires
        is_multiple(a, d),
        is_multiple(b, d),
    ensures
        is_multiple(gcd_spec(a, b), d),
    decreases magnitude(b),
{
    if b != 0 {
        let r = a % b;
        let ka = choose|k: int| a == #[trigger] (k * d);
        let kb = choose|k: int| b == #[trigger] (k * d);
        vstd::arithmetic::div_mod::lemma_fundamental_div_mod(a, b);
        let k = ka - kb * (a / b);
        assert(r == k * d) by (nonlinear_arith)
            requires
                a == b * (a / b) + r,
                a == ka * d,
                b == kb * d,
                k == ka - kb * (a / b),
        ;
        lemma_gcd_is_greatest(b, r, d);
    }
}

/// Euclid's algorithm reaches zero only from two zeros.
pub proof fn lemma_gcd_zero(a: int, b: int)
    ensures
        gcd_spec(a, b) == 0 <==> (a == 0 && b == 0),
    decreases magnitude(b),
{
    if b != 0 {
        lemma_gcd_zero(b, a % b);
    }
}

} // verus!
