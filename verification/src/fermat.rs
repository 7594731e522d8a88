use vstd::prelude::*;
use vstd::arithmetic::div_mod::lemma_add_mod_noop;
use vstd::arithmetic::div_mod::lemma_fundamental_div_mod;
use vstd::arithmetic::div_mod::lemma_mod_multiples_basic;
use vstd::arithmetic::div_mod::lemma_mod_multiples_vanish;
use vstd::arithmetic::div_mod::lemma_small_mod;
use crate::exponential::power;
use crate::exponential::lemma_power_of_zero;
use crate::pascal_triangle::binomial;
use crate::pascal_triangle::lemma_binomial_edge;
use crate::prime::all_meet_fermat;
use crate::prime::is_prime;

verus! {

/// The first terms of the expansion of `a + 1` to the `n`: the sum of
/// `binomial(n, k)` times `a` to the `k`, for `k` from zero to `upto`.
pub open spec fn expansion(a: nat, n: nat, upto: nat) -> nat
    decreases upto,
{
    if upto == 0 {
        1
    } else {
        expansion(a, n, (upto - 1) as nat) + binomial(n, upto) * power(a, upto)
    }
}

/// The second number of each row of Pascal's triangle is the row's number.
pub proof fn lemma_binomial_one(n: nat)
    ensures
        binomial(n, 1) == n,
    decreases n,
{
    if n > 0 {
        lemma_binomial_one((n - 1) as nat);
        assert(binomial((n - 1) as nat, 0) == 1);
    }
}

/// `k` times the number at place `k` of row `n` is `n` times the number
/// before it in the row above.
pub proof fn lemma_binomial_absorbs(n: nat, k: nat)
    requires
        n >= 1,
        k >= 1,
    ensures
        k * binomial(n, k) == n * binomial((n - 1) as nat, (k - 1) as nat),
    decreases n,
{
    if k == 1 {
        lemma_binomial_one(n);
        assert(binomial((n - 1) as nat, 0) == 1);
        assert(1 * binomial(n, 1) == n * 1) by (nonlinear_arith)
            requires
                binomial(n, 1) == n,
        ;
    } else if n == 1 {
        lemma_binomial_edge(0);
        assert(binomial(0, k) == 0);
        assert(binomial(0, (k - 1) as nat) == 0);
        assert(binomial(1, k) == 0);
        assert(k * 0 == 0);
        assert(1 * 0 == 0);
    } else {
        let up = (n - 1) as nat;
        let upup = (n - 2) as nat;
        let c1 = binomial(up, (k - 1) as nat);
        let c2 = binomial(up, k);
        let d1 = binomial(upup, (k - 2) as nat);
        let d2 = binomial(upup, (k - 1) as nat);
        lemma_binomial_absorbs(up, k);
        lemma_binomial_absorbs(up, (k - 1) as nat);
        assert(binomial(n, k) == c1 + c2);
        assert(c1 == d1 + d2);
        assert(k * c2 == up * d2);
        assert((k - 1) * c1 == up * d1);
        assert(k * (c1 + c2) == n * c1) by (nonlinear_arith)
            requires
                k * c2 == up * d2,
                (k - 1) * c1 == up * d1,
                c1 == d1 + d2,
                up == n - 1,
        ;
    }
}

/// A prime that divides a product with a positive factor below it divides
/// the other factor.
pub proof fn lemma_prime_divides_other_factor(p: nat, k: nat, m: nat)
    requires
        is_prime(p),
        0 < k < p,
        (k * m) % p == 0,
    ensures
        m % p == 0,
    decreases k,
{
    if k == 1 {
        assert(1 * m == m);
    } else {
        let q = p / k;
        let r = p % k;
        lemma_fundamental_div_mod(p as int, k as int);
        assert(p % k != 0);
        let t = (k * m) / p;
        lemma_fundamental_div_mod((k * m) as int, p as int);
        assert(k * m == p * t);
        let x = m - q * t;
        assert(r * m == x * p) by (nonlinear_arith)
            requires
                p == k * q + r,
                k * m == p * t,
                x == m - q * t,
        ;
        lemma_mod_multiples_basic(x, p as int);
        lemma_prime_divides_other_factor(p, r, m);
    }
}

/// A prime divides every number of its row of Pascal's triangle but the
/// two ones at the ends.
pub proof fn lemma_prime_divides_binomial(p: nat, k: nat)
    requires
        is_prime(p),
        0 < k < p,
    ensures
        binomial(p, k) % p == 0,
{
    lemma_binomial_absorbs(p, k);
    let c = binomial((p - 1) as nat, (k - 1) as nat);
    assert(p * c == c * p) by (nonlinear_arith);
    lemma_mod_multiples_basic(c as int, p as int);
    lemma_prime_divides_other_factor(p, k, binomial(p, k));
}

/// The expansion of row `n + 1` from that of row `n`: each term is the sum
/// of the term above it and `a` times the term above and before it.
pub proof fn lemma_expansion_of_next_row(a: nat, n: nat, upto: nat)
    requires
        upto >= 1,
    ensures
        expansion(a, n + 1, upto) == expansion(a, n, upto) + a * expansion(
            a,
            n,
            (upto - 1) as nat,
        ),
    decreases upto,
{
    let before = (upto - 1) as nat;
    assert(binomial(n + 1, upto) == binomial(n, before) + binomial(n, upto));
    assert(power(a, upto) == a * power(a, before));
    if upto == 1 {
        assert(power(a, 0) == 1);
        assert(binomial(n, 0) == 1);
        assert(expansion(a, n + 1, 0) == 1);
        assert(expansion(a, n, 0) == 1);
        assert(expansion(a, n + 1, 1) == 1 + binomial(n + 1, 1) * power(a, 1));
        assert(expansion(a, n, 1) == 1 + binomial(n, 1) * power(a, 1));
        assert((1 + binomial(n, 1)) * power(a, 1) == power(a, 1) + binomial(n, 1) * power(a, 1))
            by (nonlinear_arith);
        assert(a * 1 == a);
    } else {
        lemma_expansion_of_next_row(a, n, before);
        let s1 = expansion(a, n, before);
        let s2 = expansion(a, n, (before - 1) as nat);
        let c1 = binomial(n, before);
        let c2 = binomial(n, upto);
        let w = power(a, before);
        assert(expansion(a, n + 1, upto) == expansion(a, n + 1, before) + (c1 + c2) * (a * w));
        assert(expansion(a, n, upto) == s1 + c2 * (a * w));
        assert(s1 == s2 + c1 * w);
        assert((s1 + a * s2) + (c1 + c2) * (a * w) == (s1 + c2 * (a * w)) + a * (s2 + c1 * w))
            by (nonlinear_arith);
    }
}

/// The binomial theorem for `a + 1`: its `n`-th power is the whole
/// expansion of row `n`.
pub proof fn lemma_binomial_theorem(a: nat, n: nat)
    ensures
        power(a + 1, n) == expansion(a, n, n),
    decreases n,
{
    if n > 0 {
        let up = (n - 1) as nat;
        lemma_binomial_theorem(a, up);
        lemma_expansion_of_next_row(a, up, n);
        lemma_binomial_edge(up);
        assert(binomial(up, n) == 0);
        assert(0 * power(a, n) == 0);
        assert(expansion(a, up, n) == expansion(a, up, up));
        let s = expansion(a, up, up);
        assert((a + 1) * s == s + a * s) by (nonlinear_arith);
    }
}

/// For a prime `p`, the expansion of row `p` short of its last term leaves
/// the remainder one.
pub proof fn lemma_expansion_modulo_prime(a: nat, p: nat, upto: nat)
    requires
        is_prime(p),
        upto < p,
    ensures
        expansion(a, p, upto) % p == 1,
    decreases upto,
{
    if upto == 0 {
        lemma_small_mod(1, p);
    } else {
        lemma_expansion_modulo_prime(a, p, (upto - 1) as nat);
        lemma_prime_divides_binomial(p, upto);
        let c = binomial(p, upto);
        let t = c / p;
        lemma_fundamental_div_mod(c as int, p as int);
        let w = power(a, upto);
        let s = expansion(a, p, (upto - 1) as nat);
        assert(c * w == p * (t * w)) by (nonlinear_arith)
            requires
                c == p * t,
        ;
        lemma_mod_multiples_vanish((t * w) as int, s as int, p as int);
    }
}

/// For a prime `p`, the `p`-th power of `a + 1` leaves the remainder of the
/// `p`-th power of `a`, plus one.
pub proof fn lemma_power_of_successor(a: nat, p: nat)
    requires
        is_prime(p),
    ensures
        power(a + 1, p) % p == (1 + power(a, p)) % p,
{
    lemma_binomial_theorem(a, p);
    lemma_expansion_modulo_prime(a, p, (p - 1) as nat);
    lemma_binomial_edge(p);
    let s = expansion(a, p, (p - 1) as nat);
    let w = power(a, p);
    assert(1 * w == w);
    assert(expansion(a, p, p) == s + w);
    lemma_add_mod_noop(s as int, w as int, p as int);
    lemma_add_mod_noop(1, w as int, p as int);
    lemma_small_mod(1, p);
}

/// Fermat's little theorem: for a prime `p`, the `p`-th power of any number
/// leaves the same remainder as the number.
pub proof fn lemma_fermat(a: nat, p: nat)
    requires
        is_prime(p),
    ensures
        power(a, p) % p == a % p,
    decreases a,
{
    if a == 0 {
        lemma_power_of_zero(p);
    } else {
        let b = (a - 1) as nat;
        lemma_fermat(b, p);
        lemma_power_of_successor(b, p);
        lemma_add_mod_noop(1, power(b, p) as int, p as int);
        lemma_add_mod_noop(1, b as int, p as int);
    }
}

/// For a prime, every number below it meets Fermat's condition.
pub proof fn lemma_primes_meet_fermat(p: nat)
    requires
        is_prime(p),
    ensures
        all_meet_fermat(p),
{
    assert forall|a: nat| 1 <= a < p implies #[trigger] (power(a, p) % p) == a by {
        lemma_fermat(a, p);
        lemma_small_mod(a, p);
    }
}

} // verus!
