use vstd::prelude::*;

verus! {

/// `base` raised to the power `n`.
pub open spec fn power(base: nat, n: nat) -> nat
    decreases n,
{
    if n == 0 {
        1
    } else {
        base * power(base, (n - 1) as nat)
    }
}

/// Powers of a positive base are positive.
pub proof fn lemma_power_positive(base: nat, n: nat)
    requires
        base > 0,
    ensures
        power(base, n) > 0,
    decreases n,
{
    if n > 0 {
        lemma_power_positive(base, (n - 1) as nat);
        assert(base * power(base, (n - 1) as nat) > 0) by (nonlinear_arith)
            requires
                base > 0,
                power(base, (n - 1) as nat) > 0,
        ;
    }
}

/// A lower power of a positive base is no larger than a higher one.
pub proof fn lemma_power_grows(base: nat, k: nat, n: nat)
    requires
        base > 0,
        k <= n,
    ensures
        power(base, k) <= power(base, n),
    decreases n,
{
    if k < n {
        lemma_power_grows(base, k, (n - 1) as nat);
        lemma_power_positive(base, (n - 1) as nat);
        assert(power(base, (n - 1) as nat) <= base * power(base, (n - 1) as nat))
            by (nonlinear_arith)
            requires
                base > 0,
        ;
    }
}

/// Powers of zero are zero, but for the power zero.
pub proof fn lemma_power_of_zero(n: nat)
    ensures
        power(0, n) == if n == 0 {
            1nat
        } else {
            0nat
        },
{
    if n > 0 {
        assert(0 * power(0, (n - 1) as nat) == 0);
    }
}

/// Exponents add when powers are multiplied.
pub proof fn lemma_power_adds(base: nat, m: nat, n: nat)
    ensures
        power(base, m + n) == power(base, m) * power(base, n),
    decreases m,
{
    if m == 0 {
        assert(power(base, n) == 1 * power(base, n));
    } else {
        lemma_power_adds(base, (m - 1) as nat, n);
        assert(power(base, m + n) == base * power(base, (m - 1 + n) as nat));
        assert(base * (power(base, (m - 1) as nat) * power(base, n)) == (base * power(
            base,
            (m - 1) as nat,
        )) * power(base, n)) by (nonlinear_arith);
    }
}

/// Squaring the base halves the exponent.
pub proof fn lemma_power_of_square(base: nat, n: nat)
    ensures
        power(base * base, n) == power(base, 2 * n),
    decreases n,
{
    if n > 0 {
        lemma_power_of_square(base, (n - 1) as nat);
        lemma_power_adds(base, 2, (2 * (n - 1)) as nat);
        assert(power(base, 2) == base * base) by {
            assert(power(base, 1) == base * power(base, 0));
            assert(base * 1 == base);
        }
        assert(2 + 2 * (n - 1) == 2 * n);
    }
}

/// The power by repeated multiplication, as a linear recursion.
pub fn exponential(base: usize, n: usize) -> (r: usize)
    requires
        power(base as nat, n as nat) <= usize::MAX,
    ensures
        r == power(base as nat, n as nat),
    decreases n,
{
    if n == 0 {
        1
    } else {
        proof {
            if base == 0 {
                lemma_power_of_zero((n - 1) as nat);
            } else {
                lemma_power_grows(base as nat, (n - 1) as nat, n as nat);
            }
        }
        base * exponential(base, n - 1)
    }
}

/// The power by repeated multiplication, as a loop.
pub fn exponential_iter(base: usize, n: usize) -> (r: usize)
    requires
        power(base as nat, n as nat) <= usize::MAX,
    ensures
        r == power(base as nat, n as nat),
{
    let mut result: usize = 1;
    let mut nn: usize = n;
    while nn > 0
        invariant
            nn <= n,
            result == power(base as nat, (n - nn) as nat),
            power(base as nat, n as nat) <= usize::MAX,
        decreases nn,
    {
        proof {
            let done = (n - nn) as nat;
            assert(power(base as nat, done + 1) == base * power(base as nat, done));
            assert(result * base == base * result) by (nonlinear_arith);
            if base == 0 {
                lemma_power_of_zero(done + 1);
            } else {
                lemma_power_grows(base as nat, done + 1, n as nat);
            }
        }
        result *= base;
        nn -= 1;
    }
    result
}

/// The power by successive squaring: an even exponent is halved once, an odd
/// one is lowered by one.
pub fn fast_exponentiation(base: usize, exponent: usize) -> (r: usize)
    requires
        power(base as nat, exponent as nat) <= usize::MAX,
    ensures
        r == power(base as nat, exponent as nat),
    decreases exponent,
{
    if exponent == 0 {
        1
    } else if exponent % 2 == 0 {
        proof {
            let half = (exponent / 2) as nat;
            lemma_power_adds(base as nat, half, half);
            if base == 0 {
                lemma_power_of_zero(half);
            } else {
                lemma_power_grows(base as nat, half, exponent as nat);
            }
        }
        let exp = exponential(base, exponent / 2);
        exp * exp
    } else {
        proof {
            if base == 0 {
                lemma_power_of_zero((exponent - 1) as nat);
            } else {
                lemma_power_grows(base as nat, (exponent - 1) as nat, exponent as nat);
            }
        }
        base * fast_exponentiation(base, exponent - 1)
    }
}

/// The power by successive squaring, as a loop.
pub fn fast_exponential_iter(base_given: usize, exponent_given: usize) -> (r: usize)
    requires
        power(base_given as nat, exponent_given as nat) <= usize::MAX,
    ensures
        r == power(base_given as nat, exponent_given as nat),
{
    let mut exponent: usize = exponent_given;
    let mut base: usize = base_given;
    let mut result: usize = 1;
    while exponent > 0
        invariant
            result * power(base as nat, exponent as nat) == power(
                base_given as nat,
                exponent_given as nat,
            ),
            power(base_given as nat, exponent_given as nat) <= usize::MAX,
            result >= 1 || base == 0,
        decreases exponent,
    {
        let ghost total = power(base_given as nat, exponent_given as nat);
        let ghost rest = power(base as nat, exponent as nat);
        if exponent % 2 == 0 {
            proof {
                let half = (exponent / 2) as nat;
                lemma_power_of_square(base as nat, half);
                assert(2 * half == exponent);
                if base > 0 {
                    lemma_power_grows(base as nat, 2, exponent as nat);
                    lemma_power_adds(base as nat, 1, 1);
                    assert(power(base as nat, 1) == base * power(base as nat, 0));
                    assert(base * 1 == base);
                    assert(rest <= result * rest) by (nonlinear_arith)
                        requires
                            result >= 1,
                    ;
                } else {
                    assert(base * base == 0) by (nonlinear_arith)
                        requires
                            base == 0,
                    ;
                }
            }
            base = base * base;
            exponent /= 2;
        } else {
            proof {
                let lower = power(base as nat, (exponent - 1) as nat);
                assert(rest == base * lower);
                assert(result * (base * lower) == (result * base) * lower) by (nonlinear_arith);
                if base > 0 {
                    lemma_power_positive(base as nat, (exponent - 1) as nat);
                    assert(result * base <= (result * base) * lower) by (nonlinear_arith)
                        requires
                            lower >= 1,
                    ;
                    assert(result * base >= 1) by (nonlinear_arith)
                        requires
                            result >= 1,
                            base >= 1,
                    ;
                } else {
                    assert(result * base == 0) by (nonlinear_arith)
                        requires
                            base == 0,
                    ;
                }
            }
            result *= base;
            exponent -= 1;
        }
    }
    assert(result * 1 == result);
    result
}

/// The product by repeated addition, as a linear recursion.
pub fn multiply(a: usize, b: usize) -> (r: usize)
    requires
        a * b <= usize::MAX,
    ensures
        r == a * b,
    decreases b,
{
    if b == 0 {
        assert(a * 0 == 0);
        0
    } else {
        assert(a * b == a + a * (b - 1)) by (nonlinear_arith);
        assert(a * (b - 1) >= 0) by (nonlinear_arith)
            requires
                b >= 1,
        ;
        a + multiply(a, b - 1)
    }
}

/// The product by repeated addition, as a loop.
pub fn multiply_iter(a: usize, b: usize) -> (r: usize)
    requires
        a * b <= usize::MAX,
    ensures
        r == a * b,
{
    let mut result: usize = 0;
    let mut i: usize = 0;
    assert(a * 0 == 0);
    while i < b
        invariant
            i <= b,
            result == a * i,
            a * b <= usize::MAX,
        decreases b - i,
    {
        assert(a * (i + 1) == a * i + a) by (nonlinear_arith);
        assert(a * (i + 1) <= a * b) by (nonlinear_arith)
            requires
                i + 1 <= b,
        ;
        result += a;
        i += 1;
    }
    result
}

/// The product by doubling and halving.
pub fn fast_multiply_iter(a: usize, b: usize) -> (r: usize)
    requires
        a * b <= usize::MAX,
    ensures
        r == a * b,
{
    let mut aa: usize = a;
    let mut bb: usize = b;
    let mut result: usize = 0;
    while bb > 0
        invariant
            result + aa * bb == a * b,
            a * b <= usize::MAX,
        decreases bb,
    {
        if bb % 2 == 0 {
            proof {
                let half = (bb / 2) as int;
                assert(bb == 2 * half);
                assert(aa * (2 * half) == (aa * 2) * half) by (nonlinear_arith);
                assert(aa * 2 <= (aa * 2) * half) by (nonlinear_arith)
                    requires
                        half >= 1,
                ;
                assert(aa * bb >= 0) by (nonlinear_arith);
            }
            aa *= 2;
            bb /= 2;
        } else {
            proof {
                assert(aa * bb == aa + aa * (bb - 1)) by (nonlinear_arith);
                assert(aa * (bb - 1) >= 0) by (nonlinear_arith)
                    requires
                        bb >= 1,
                ;
            }
            result += aa;
            bb -= 1;
        }
    }
    assert(aa * 0 == 0);
    result
}

} // verus!
