use vstd::prelude::*;

verus! {

/// The Fibonacci numbers: 0, 1, and from there on the sum of the two before.
pub open spec fn fib_spec(n: nat) -> nat
    decreases n,
{
    if n == 0 {
        0
    } else if n == 1 {
        1
    } else {
        fib_spec((n - 1) as nat) + fib_spec((n - 2) as nat)
    }
}

/// The Fibonacci numbers never fall.
pub proof fn lemma_fib_grows(k: nat, n: nat)
    requires
        k <= n,
    ensures
        fib_spec(k) <= fib_spec(n),
    decreases n,
{
    if k < n {
        lemma_fib_grows(k, (n - 1) as nat);
    }
}

/// The `n`-th Fibonacci number by a loop that carries two neighbours. The
/// loop computes one number more than it returns, so that one has to fit too.
pub fn fib(n: usize) -> (r: usize)
    requires
        n == 0 || fib_spec((n + 1) as nat) <= usize::MAX,
    ensures
        r == fib_spec(n as nat),
{
    let mut count: usize = n;
    let mut a: usize = 1;
    let mut b: usize = 0;
    while count > 0
        invariant
            count <= n,
            a == fib_spec((n - count + 1) as nat),
            b == fib_spec((n - count) as nat),
            n == 0 || fib_spec((n + 1) as nat) <= usize::MAX,
        decreases count,
    {
        proof {
            lemma_fib_grows((n - count + 2) as nat, (n + 1) as nat);
        }
        let a_ = a;
        a += b;
        b = a_;
        count -= 1;
    }
    b
}

/// The `n`-th Fibonacci number as the sum of its two predecessors.
pub fn fib_recurse(n: usize) -> (r: usize)
    requires
        fib_spec(n as nat) <= usize::MAX,
    ensures
        r == fib_spec(n as nat),
{
    if n == 0 {
        0
    } else if n == 1 {
        1
    } else {
        proof {
            lemma_fib_grows((n - 1) as nat, n as nat);
        }
        fib(n - 1) + fib(n - 2)
    }
}

/// One application of the transformation with parameters `p` and `q` to
/// the pair `(a, b)`.
pub open spec fn stepped(a: nat, b: nat, p: nat, q: nat) -> (nat, nat) {
    (b * q + a * q + a * p, b * p + a * q)
}

/// The pair `(a, b)` after `count` applications of the transformation with
/// parameters `p` and `q`.
pub open spec fn transformed(a: nat, b: nat, p: nat, q: nat, count: nat) -> (nat, nat)
    decreases count,
{
    if count == 0 {
        (a, b)
    } else {
        let (a2, b2) = stepped(a, b, p, q);
        transformed(a2, b2, p, q, (count - 1) as nat)
    }
}

/// Every number that the fast computation forms on the way fits the machine
/// integer: the squared parameters where the count is halved, the stepped
/// pair where it is lowered by one.
pub open spec fn fast_fits(a: nat, b: nat, p: nat, q: nat, count: nat) -> bool
    decreases count,
{
    if count == 0 {
        true
    } else if count % 2 == 0 {
        &&& p * p + q * q <= usize::MAX
        &&& 2 * q * p + q * q <= usize::MAX
        &&& fast_fits(a, b, p * p + q * q, 2 * q * p + q * q, count / 2)
    } else {
        &&& b * q + a * q + a * p <= usize::MAX
        &&& b * p + a * q <= usize::MAX
        &&& fast_fits(b * q + a * q + a * p, b * p + a * q, p, q, (count - 1) as nat)
    }
}

/// Two applications with `p` and `q` are one application with
/// `p * p + q * q` and `2 * q * p + q * q`.
pub proof fn lemma_step_twice(a: nat, b: nat, p: nat, q: nat)
    ensures
        ({
            let (a1, b1) = stepped(a, b, p, q);
            stepped(a1, b1, p, q) == stepped(a, b, p * p + q * q, 2 * q * p + q * q)
        }),
{
    let a1 = b * q + a * q + a * p;
    let b1 = b * p + a * q;
    let p2 = p * p + q * q;
    let q2 = 2 * q * p + q * q;
    assert(b1 * q == b * p * q + a * q * q) by (nonlinear_arith)
        requires
            b1 == b * p + a * q,
    ;
    assert(b1 * p == b * p * p + a * q * p) by (nonlinear_arith)
        requires
            b1 == b * p + a * q,
    ;
    assert(a1 * q == b * q * q + a * q * q + a * p * q) by (nonlinear_arith)
        requires
            a1 == b * q + a * q + a * p,
    ;
    assert(a1 * p == b * q * p + a * q * p + a * p * p) by (nonlinear_arith)
        requires
            a1 == b * q + a * q + a * p,
    ;
    assert(b * q2 == b * q * p + b * q * p + b * q * q) by (nonlinear_arith)
        requires
            q2 == 2 * q * p + q * q,
    ;
    assert(a * q2 == a * q * p + a * q * p + a * q * q) by (nonlinear_arith)
        requires
            q2 == 2 * q * p + q * q,
    ;
    assert(b * p2 == b * p * p + b * q * q) by (nonlinear_arith)
        requires
            p2 == p * p + q * q,
    ;
    assert(a * p2 == a * p * p + a * q * q) by (nonlinear_arith)
        requires
            p2 == p * p + q * q,
    ;
    assert(b * p * q == b * q * p) by (nonlinear_arith);
    assert(a * p * q == a * q * p) by (nonlinear_arith);
}

/// `count` applications with the squared parameters are twice as many with
/// the parameters themselves.
pub proof fn lemma_transformed_by_square(a: nat, b: nat, p: nat, q: nat, count: nat)
    ensures
        transformed(a, b, p * p + q * q, 2 * q * p + q * q, count) == transformed(
            a,
            b,
            p,
            q,
            2 * count,
        ),
    decreases count,
{
    if count > 0 {
        let (a1, b1) = stepped(a, b, p, q);
        let (a2, b2) = stepped(a1, b1, p, q);
        lemma_step_twice(a, b, p, q);
        lemma_transformed_by_square(a2, b2, p, q, (count - 1) as nat);
        assert(transformed(a, b, p, q, 2 * count) == transformed(
            a1,
            b1,
            p,
            q,
            (2 * count - 1) as nat,
        ));
        assert(transformed(a1, b1, p, q, (2 * count - 1) as nat) == transformed(
            a2,
            b2,
            p,
            q,
            (2 * count - 2) as nat,
        ));
        assert(2 * (count - 1) == 2 * count - 2);
    }
}

/// The Fibonacci number at a sum of places, from the numbers at the places.
pub proof fn lemma_fib_at_sum(m: nat, k: nat)
    requires
        k >= 1,
    ensures
        fib_spec(m + k) == fib_spec(m) * fib_spec((k - 1) as nat) + fib_spec(m + 1) * fib_spec(k),
    decreases k,
{
    if k == 1 {
        assert(fib_spec(m) * 0 == 0);
        assert(fib_spec(m + 1) * 1 == fib_spec(m + 1));
    } else if k == 2 {
        assert(fib_spec(2) == fib_spec(1) + fib_spec(0));
        assert(fib_spec(m) * 1 == fib_spec(m));
        assert(fib_spec(m + 1) * 1 == fib_spec(m + 1));
    } else {
        lemma_fib_at_sum(m, (k - 1) as nat);
        lemma_fib_at_sum(m, (k - 2) as nat);
        let x = fib_spec(m);
        let y = fib_spec(m + 1);
        let f1 = fib_spec((k - 1) as nat);
        let f2 = fib_spec((k - 2) as nat);
        let f3 = fib_spec((k - 3) as nat);
        assert(fib_spec(k) == f1 + f2);
        assert(f1 == f2 + f3);
        assert(fib_spec(m + k) == fib_spec((m + k - 1) as nat) + fib_spec((m + k - 2) as nat));
        assert(x * f1 + y * (f1 + f2) == (x * f2 + y * f1) + (x * f3 + y * f2)) by (nonlinear_arith)
            requires
                f1 == f2 + f3,
        ;
    }
}

/// With neighbouring Fibonacci numbers as the pair and as the parameters,
/// the fast computation forms only Fibonacci numbers up to the one after the
/// result, and its result is the Fibonacci number at the place reached.
pub proof fn lemma_fast_fib(m: nat, k: nat, count: nat)
    requires
        k >= 1,
        count == 0 || fib_spec(m + k * count + 1) <= usize::MAX,
    ensures
        fast_fits(
            fib_spec(m + 1),
            fib_spec(m),
            fib_spec((k - 1) as nat),
            fib_spec(k),
            count,
        ),
        transformed(
            fib_spec(m + 1),
            fib_spec(m),
            fib_spec((k - 1) as nat),
            fib_spec(k),
            count,
        ).1 == fib_spec(m + k * count),
    decreases count,
{
    let a = fib_spec(m + 1);
    let b = fib_spec(m);
    let p = fib_spec((k - 1) as nat);
    let q = fib_spec(k);
    if count == 0 {
        assert(k * 0 == 0);
    } else {
        // One step leads from the place `m` to the place `m + k`.
        lemma_fib_at_sum(m, k);
        lemma_fib_at_sum(m, k + 1);
        assert(fib_spec(k + 1) == q + p);
        assert(b * p + a * q == fib_spec(m + k));
        assert(b * q + a * q + a * p == fib_spec(m + k + 1)) by {
            assert(a * (q + p) == a * q + a * p) by (nonlinear_arith);
        }
        assert(m + k + k * (count - 1) == m + k * count) by (nonlinear_arith);
        assert(k * count >= k) by (nonlinear_arith)
            requires
                count >= 1,
        ;
        lemma_fib_grows(m + k + 1, m + k * count + 1);
        lemma_fib_grows(m + k, m + k * count + 1);
        if count % 2 == 0 {
            let half = count / 2;
            // Squaring the parameters leads from `k` to `2 * k`.
            lemma_fib_at_sum((k - 1) as nat, k);
            lemma_fib_at_sum(k, k);
            assert(fib_spec((2 * k - 1) as nat) == p * p + q * q);
            assert(fib_spec(2 * k) == 2 * q * p + q * q) by {
                assert(q * p + (q + p) * q == 2 * q * p + q * q) by (nonlinear_arith);
            }
            assert((2 * k) * half == k * count) by (nonlinear_arith)
                requires
                    count == 2 * half,
            ;
            assert(2 * k <= k * count) by (nonlinear_arith)
                requires
                    count >= 2,
            ;
            lemma_fib_grows(2 * k, m + k * count + 1);
            lemma_fib_grows((2 * k - 1) as nat, m + k * count + 1);
            lemma_fast_fib(m, 2 * k, half);
            lemma_transformed_by_square(a, b, p, q, half);
            assert(2 * half == count);
        } else {
            lemma_fast_fib(m + k, k, (count - 1) as nat);
        }
    }
}

/// The `n`-th Fibonacci number in a number of steps that grows with the
/// logarithm of `n`.
pub fn fast_fib_recurse(n: usize) -> (r: usize)
    requires
        n == 0 || fib_spec((n + 1) as nat) <= usize::MAX,
    ensures
        r == fib_spec(n as nat),
{
    proof {
        assert(1 * (n as nat) == n) by (nonlinear_arith);
        lemma_fast_fib(0, 1, n as nat);
    }
    fast_fib_recurse2(1, 0, 0, 1, n)
}

/// The second number of the pair `(a, b)` after `count` applications of the
/// transformation with parameters `p` and `q`, by halving an even count
/// with squared parameters.
pub fn fast_fib_recurse2(a: usize, b: usize, p: usize, q: usize, count: usize) -> (r: usize)
    requires
        fast_fits(a as nat, b as nat, p as nat, q as nat, count as nat),
    ensures
        r == transformed(a as nat, b as nat, p as nat, q as nat, count as nat).1,
    decreases count,
{
    if count == 0 {
        b
    } else if count % 2 == 0 {
        proof {
            lemma_transformed_by_square(a as nat, b as nat, p as nat, q as nat, (count / 2) as nat);
            assert(2 * (count / 2) == count);
            assert(p * p >= 0 && q * q >= 0 && 2 * q * p >= 0) by (nonlinear_arith);
            assert(2 * q <= q * q || q < 2) by (nonlinear_arith);
        }
        fast_fib_recurse2(a, b, p * p + q * q, 2 * q * p + q * q, count / 2)
    } else {
        proof {
            assert(b * q >= 0 && a * q >= 0 && a * p >= 0 && b * p >= 0) by (nonlinear_arith);
        }
        fast_fib_recurse2(b * q + a * q + a * p, b * p + a * q, p, q, count - 1)
    }
}

} // verus!
