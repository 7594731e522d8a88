use vstd::prelude::*;
use vstd::arithmetic::div_mod::lemma_fundamental_div_mod;
use vstd::arithmetic::div_mod::lemma_mod_multiples_basic;
use vstd::arithmetic::div_mod::lemma_mul_mod_noop_general;
use crate::exponential::power;
use crate::exponential::lemma_power_adds;
use crate::fermat::lemma_primes_meet_fermat;
use rand::Rng;

verus! {

/// `n` is at least two and nothing between one and `n` divides it.
pub open spec fn is_prime(n: nat) -> bool {
    n >= 2 && forall|d: nat| 2 <= d < n ==> #[trigger] (n % d) != 0
}

/// The divisor tried after `test_divisor`: three after two, otherwise the
/// next number of the same parity.
pub open spec fn next_divisor(test_divisor: nat) -> nat {
    if test_divisor == 2 {
        3
    } else {
        test_divisor + 2
    }
}

/// The first divisor of `n` in the run of trial divisors that starts at
/// `test_divisor`, as long as it is below `n` and its square does not exceed
/// `n`; `n` itself if there is none.
pub open spec fn first_divisor_from(n: nat, test_divisor: nat) -> nat
    recommends
        test_divisor > 0,
    decreases n + 2 - test_divisor,
{
    if test_divisor == 0 || test_divisor >= n || test_divisor * test_divisor > n {
        n
    } else if n % test_divisor == 0 {
        test_divisor
    } else {
        first_divisor_from(n, next_divisor(test_divisor))
    }
}

/// No trial divisor from `from` on (two, or an odd number) whose square is
/// at most `n` divides `n`.
pub open spec fn no_trial_divisor(n: nat, from: nat) -> bool {
    forall|c: nat|
        c >= from && (c == 2 || c % 2 == 1) && c * c <= n ==> #[trigger] (n % c) != 0
}

/// What the search from `test_divisor` returns is `n`, and then no trial
/// divisor divides `n`, or it is a divisor of `n` whose square is at most
/// `n`.
pub proof fn lemma_first_divisor(n: nat, test_divisor: nat)
    requires
        test_divisor == 2 || (test_divisor >= 3 && test_divisor % 2 == 1),
    ensures
        ({
            let r = first_divisor_from(n, test_divisor);
            if r == n {
                n % test_divisor == 0 || no_trial_divisor(n, test_divisor)
            } else {
                test_divisor <= r && r * r <= n && n % r == 0
            }
        }),
    decreases n + 2 - test_divisor,
{
    if test_divisor >= n || test_divisor * test_divisor > n {
        if test_divisor * test_divisor > n {
            assert forall|c: nat|
                c >= test_divisor && (c == 2 || c % 2 == 1) && c * c <= n implies #[trigger] (n
                % c) != 0 by {
                assert(c * c >= test_divisor * test_divisor) by (nonlinear_arith)
                    requires
                        c >= test_divisor,
                ;
            }
        } else {
            assert(test_divisor <= test_divisor * test_divisor) by (nonlinear_arith)
                requires
                    test_divisor >= 1,
            ;
            vstd::arithmetic::div_mod::lemma_mod_self_0(n as int);
        }
    } else if n % test_divisor == 0 {
    } else {
        assert(test_divisor <= test_divisor * test_divisor) by (nonlinear_arith)
            requires
                test_divisor >= 1,
        ;
        assert(test_divisor != n) by {
            if test_divisor == n {
                vstd::arithmetic::div_mod::lemma_mod_self_0(n as int);
            }
        }
        let next = next_divisor(test_divisor);
        lemma_first_divisor(n, next);
        let r = first_divisor_from(n, next);
        if r == n {
            if n % next == 0 {
                assert(next <= n) by {
                    if next > n {
                        vstd::arithmetic::div_mod::lemma_small_mod(n, next);
                    }
                }
                assert(next * next > n) by {
                    if next < n && next * next <= n {
                        assert(first_divisor_from(n, next) == next);
                    }
                    if next == n {
                        assert(next * next > n) by (nonlinear_arith)
                            requires
                                next == n,
                                next >= 3,
                        ;
                    }
                }
                assert forall|c: nat|
                    c >= next && (c == 2 || c % 2 == 1) && c * c <= n implies #[trigger] (n % c)
                    != 0 by {
                    assert(c * c >= next * next) by (nonlinear_arith)
                        requires
                            c >= next,
                    ;
                }
            }
            assert(no_trial_divisor(n, next));
            assert forall|c: nat|
                c >= test_divisor && (c == 2 || c % 2 == 1) && c * c <= n implies #[trigger] (n
                % c) != 0 by {
                if c != test_divisor {
                    assert(c >= next);
                }
            }
        }
    }
}

/// If no number from two on whose square is at most `n` divides `n`, then
/// `n` is prime.
pub proof fn lemma_prime_by_small_divisors(n: nat)
    requires
        n >= 2,
        forall|d: nat| d >= 2 && d * d <= n ==> #[trigger] (n % d) != 0,
    ensures
        is_prime(n),
{
    assert forall|d: nat| 2 <= d < n implies #[trigger] (n % d) != 0 by {
        if n % d == 0 {
            let e = n / d;
            lemma_fundamental_div_mod(n as int, d as int);
            assert(n == d * e);
            assert(e >= 2) by (nonlinear_arith)
                requires
                    n == d * e,
                    d < n,
                    d >= 2,
            ;
            lemma_mod_multiples_basic(d as int, e as int);
            assert(d * e == e * d) by (nonlinear_arith);
            assert(n % e == 0);
            if d <= e {
                assert(d * d <= d * e) by (nonlinear_arith)
                    requires
                        d <= e,
                ;
            } else {
                assert(e * e <= d * e) by (nonlinear_arith)
                    requires
                        e <= d,
                ;
            }
        }
    }
}

/// If neither two nor any odd number whose square is at most `n` divides
/// `n`, then `n` is prime.
pub proof fn lemma_prime_by_trial_divisors(n: nat)
    requires
        n >= 2,
        no_trial_divisor(n, 2),
    ensures
        is_prime(n),
{
    assert forall|d: nat| d >= 2 && d * d <= n implies #[trigger] (n % d) != 0 by {
        if d != 2 && d % 2 == 0 {
            if n % d == 0 {
                let half = d / 2;
                let e = n / d;
                lemma_fundamental_div_mod(n as int, d as int);
                assert(n == (half * e) * 2) by (nonlinear_arith)
                    requires
                        n == d * e,
                        d == 2 * half,
                ;
                lemma_mod_multiples_basic((half * e) as int, 2);
                assert(2 * 2 <= d * d) by (nonlinear_arith)
                    requires
                        d >= 2,
                ;
                assert(n % 2 != 0);
            }
        }
    }
    lemma_prime_by_small_divisors(n);
}

/// Primality by searching for the smallest divisor. Zero and one, which have
/// no divisor in the range searched, are reported as prime.
pub fn prime_naive(n: usize) -> (r: bool)
    requires
        5 * n + 4 <= usize::MAX,
    ensures
        n >= 2 ==> (r <==> is_prime(n as nat)),
        n < 2 ==> r,
        r <==> first_divisor_from(n as nat, 2) == n,
{
    proof {
        lemma_first_divisor(n as nat, 2);
        let d = first_divisor_from(n as nat, 2);
        if n >= 2 {
            if d == n {
                if n % 2 == 0 {
                    if n > 2 {
                        assert(2 * 2 <= n);
                    }
                    assert(n == 2);
                    assert(is_prime(2)) by {
                        assert forall|k: nat| 2 <= k < 2 implies #[trigger] (2nat % k) != 0 by {}
                    }
                } else {
                    lemma_prime_by_trial_divisors(n as nat);
                }
            } else {
                assert(d < n) by (nonlinear_arith)
                    requires
                        d * d <= n,
                        d >= 2,
                ;
                assert(n as nat % d == 0);
            }
        }
    }
    find_divisor(n, 2) == n
}

/// The smallest divisor of `n` among the trial divisors from `test_divisor`
/// on whose square is at most `n`, or `n`.
pub fn find_divisor(n: usize, test_divisor: usize) -> (r: usize)
    requires
        test_divisor > 0,
        test_divisor * test_divisor <= usize::MAX,
        5 * n + 4 <= usize::MAX,
    ensures
        r == first_divisor_from(n as nat, test_divisor as nat),
    decreases n + 2 - test_divisor,
{
    if test_divisor * test_divisor > n {
        n
    } else if n % test_divisor == 0 {
        assert(test_divisor <= test_divisor * test_divisor) by (nonlinear_arith)
            requires
                test_divisor >= 1,
        ;
        test_divisor
    } else {
        proof {
            let t = test_divisor as int;
            assert(t != 1);
            assert(t <= t * t) by (nonlinear_arith)
                requires
                    t >= 1,
            ;
            assert((t + 2) * (t + 2) == t * t + 4 * t + 4) by (nonlinear_arith);
            assert(3 * 3 == 9);
            if t == n {
                vstd::arithmetic::div_mod::lemma_mod_self_0(t);
            }
        }
        find_divisor(
            n,
            if test_divisor == 2 {
                3
            } else {
                test_divisor + 2
            },
        )
    }
}

/// The whole part of the square root of `n`.
pub fn square_root(n: usize) -> (r: usize)
    ensures
        r * r <= n < (r + 1) * (r + 1),
{
    let mut r: usize = 0;
    assert(0 * 0 == 0);
    loop
        invariant
            r * r <= n,
        decreases n - r,
    {
        assert(r <= r * r) by (nonlinear_arith);
        if r == usize::MAX {
            assert((r + 1) * (r + 1) > n) by (nonlinear_arith)
                requires
                    r >= n,
            ;
            return r;
        }
        let next: usize = r + 1;
        let quotient: usize = n / next;
        proof {
            lemma_fundamental_div_mod(n as int, next as int);
        }
        if next > quotient {
            assert(next * next > n) by (nonlinear_arith)
                requires
                    n == next * quotient + (n % next),
                    n % next < next,
                    next > quotient,
                    quotient >= 0,
            ;
            return r;
        }
        assert(next * next <= n) by (nonlinear_arith)
            requires
                n == next * quotient + (n % next),
                n % next >= 0,
                next <= quotient,
                next >= 1,
        ;
        assert(next <= next * next) by (nonlinear_arith)
            requires
                next >= 1,
        ;
        r = next;
    }
}

/// Primality by trying every divisor from two up to the square root. Zero
/// and one, which have no divisor in that range, are reported as prime.
pub fn prime_naive_iter(n: usize) -> (r: bool)
    ensures
        n >= 2 ==> (r <==> is_prime(n as nat)),
        n < 2 ==> r,
{
    let root = square_root(n);
    assert(root <= root * root) by (nonlinear_arith);
    let mut prime: usize = 2;
    while prime <= root
        invariant
            2 <= prime,
            prime <= root + 1 || root < 2,
            root * root <= n < (root + 1) * (root + 1),
            root <= n,
            forall|d: nat| 2 <= d < prime ==> #[trigger] (n as nat % d) != 0,
        decreases root + 1 - prime,
    {
        if n % prime == 0 {
            proof {
                assert(root < n) by (nonlinear_arith)
                    requires
                        root * root <= n,
                        root >= 2,
                ;
                assert(n as nat % (prime as nat) == 0);
            }
            return false;
        }
        assert(root < n) by (nonlinear_arith)
            requires
                root * root <= n,
                root >= 2,
        ;
        prime += 1;
    }
    proof {
        if n >= 2 {
            assert forall|d: nat| d >= 2 && d * d <= n implies #[trigger] (n as nat % d) != 0 by {
                if d > root {
                    assert(d * d >= (root + 1) * (root + 1)) by (nonlinear_arith)
                        requires
                            d >= root + 1,
                    ;
                }
            }
            lemma_prime_by_small_divisors(n as nat);
        }
    }
    true
}

/// What modular exponentiation returns: one for the exponent zero, whatever
/// the modulus, and otherwise the remainder of the power.
pub open spec fn exp_mod_spec(base: nat, exponent: nat, m: nat) -> nat
    recommends
        exponent == 0 || m > 0,
{
    if exponent == 0 {
        1
    } else {
        power(base, exponent) % m
    }
}

/// The remainder of `base` to the `exponent` by `m`, by successive squaring
/// with a reduction after every multiplication.
pub fn exp_mod(base: usize, exponent: usize, m: usize) -> (r: usize)
    requires
        exponent > 0 ==> m > 0 && (m - 1) * (m - 1) <= usize::MAX && base * (m - 1) <= usize::MAX,
    ensures
        r == exp_mod_spec(base as nat, exponent as nat, m as nat),
    decreases exponent,
{
    if exponent == 0 {
        1
    } else if exponent % 2 == 0 {
        let partial = exp_mod(base, exponent / 2, m);
        proof {
            let half = (exponent / 2) as nat;
            let full = power(base as nat, half);
            lemma_power_adds(base as nat, half, half);
            lemma_mul_mod_noop_general(full as int, full as int, m as int);
            assert(partial * partial <= (m - 1) * (m - 1)) by (nonlinear_arith)
                requires
                    partial <= m - 1,
            ;
        }
        (partial * partial) % m
    } else {
        let lower = exp_mod(base, exponent - 1, m);
        proof {
            let rest = power(base as nat, (exponent - 1) as nat);
            if exponent == 1 {
                assert(rest == 1);
                assert(base * 1 == base);
            } else {
                lemma_mul_mod_noop_general(base as int, rest as int, m as int);
                assert(base * lower <= base * (m - 1)) by (nonlinear_arith)
                    requires
                        lower <= m - 1,
                ;
            }
            assert(base * lower >= 0) by (nonlinear_arith);
        }
        (base * lower) % m
    }
}

/// `rand::Rng::gen_range` on `rand::thread_rng()` with the half-open range
/// from one to `n`. The range must not be empty; the number drawn lies in it.
/// Nothing else is known of the number.
#[verifier::external_body]
fn random_from_one_below(n: usize) -> (a: usize)
    requires
        n > 1,
    ensures
        1 <= a < n,
{
    rand::thread_rng().gen_range(1..n)
}

/// Whether `a` meets Fermat's condition for `n`: `a` to the `n` leaves the
/// remainder `a`.
pub fn fermat_check(n: usize, a: usize) -> (r: bool)
    requires
        n > 0,
        (n - 1) * (n - 1) <= usize::MAX,
        a * (n - 1) <= usize::MAX,
    ensures
        r <==> power(a as nat, n as nat) % (n as nat) == a,
{
    exp_mod(a, n, n) == a
}

/// Fermat's test with a number drawn at random from one to `n - 1`. The
/// answer is whether some number of that range meets Fermat's condition.
pub fn fermat_test(n: usize) -> (r: bool)
    requires
        n > 1,
        (n - 1) * (n - 1) <= usize::MAX,
    ensures
        exists|a: nat| 1 <= a < n && (r <==> #[trigger] (power(a, n as nat) % (n as nat)) == a),
{
    let a = random_from_one_below(n);
    assert(a * (n - 1) <= (n - 1) * (n - 1)) by (nonlinear_arith)
        requires
            a <= n - 1,
    ;
    let r = fermat_check(n, a);
    assert(r <==> power(a as nat, n as nat) % (n as nat) == a as nat);
    r
}

/// Every number from one to `n - 1` meets Fermat's condition for `n`.
pub open spec fn all_meet_fermat(n: nat) -> bool {
    forall|a: nat| 1 <= a < n ==> #[trigger] (power(a, n) % n) == a
}

/// Fermat's test, repeated up to `times` times with fresh random numbers.
/// The answer is yes exactly if every round draws a number that meets
/// Fermat's condition. So it is yes with no round at all, and yes whatever
/// is drawn where every number of the range meets the condition, as is so
/// for every prime; a no shows a number of the range that does not meet it.
/// A number that is not prime may be answered either way.
pub fn fast_prime(n: usize, times: usize) -> (r: bool)
    requires
        times > 0 ==> n > 1 && (n - 1) * (n - 1) <= usize::MAX,
    ensures
        times == 0 ==> r,
        is_prime(n as nat) ==> r,
        all_meet_fermat(n as nat) ==> r,
        !r ==> exists|a: nat| 1 <= a < n && #[trigger] (power(a, n as nat) % (n as nat)) != a,
{
    proof {
        if is_prime(n as nat) {
            lemma_primes_meet_fermat(n as nat);
        }
    }
    let mut t: usize = 0;
    while t < times
        invariant
            times > 0 ==> n > 1 && (n - 1) * (n - 1) <= usize::MAX,
            is_prime(n as nat) ==> all_meet_fermat(n as nat),
        decreases times - t,
    {
        if !fermat_test(n) {
            return false;
        }
        t += 1;
    }
    true
}

} // verus!
