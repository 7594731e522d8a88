use vstd::prelude::*;

verus! {

/// The sequence that is `n` below three and the sum of its three
/// predecessors from there on.
pub open spec fn f_spec(n: nat) -> nat
    decreases n,
{
    if n < 3 {
        n
    } else {
        f_spec((n - 1) as nat) + f_spec((n - 2) as nat) + f_spec((n - 3) as nat)
    }
}

/// The sequence never falls.
pub proof fn lemma_f_grows(k: nat, n: nat)
    requires
        k <= n,
    ensures
        f_spec(k) <= f_spec(n),
    decreases n,
{
    if k < n {
        lemma_f_grows(k, (n - 1) as nat);
        if n < 3 {
        } else {
        }
    }
}

/// The sequence by tree recursion.
pub fn f(n: usize) -> (r: usize)
    requires
        f_spec(n as nat) <= usize::MAX,
    ensures
        r == f_spec(n as nat),
    decreases n,
{
    if n < 3 {
        n
    } else {
        f(n - 1) + f(n - 2) + f(n - 3)
    }
}

/// The sequence by a loop that carries the last three values.
pub fn f_iter(n: usize) -> (r: usize)
    requires
        f_spec(n as nat) <= usize::MAX,
    ensures
        r == f_spec(n as nat),
{
    if n < 3 {
        return n;
    }
    let mut a: usize = 0;
    let mut b: usize = 1;
    let mut c: usize = 2;
    let mut count: usize = n;
    while count >= 3
        invariant
            2 <= count <= n,
            a == f_spec((n - count) as nat),
            b == f_spec((n - count + 1) as nat),
            c == f_spec((n - count + 2) as nat),
            f_spec(n as nat) <= usize::MAX,
        decreases count,
    {
        count -= 1;
        proof {
            lemma_f_grows((n - count + 2) as nat, n as nat);
        }
        let d = a + b + c;
        a = b;
        b = c;
        c = d;
    }
    c
}

} // verus!
