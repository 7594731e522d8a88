use vstd::prelude::*;

verus! {

/// The function of the exercise on non-negative arguments: zero at `y == 0`,
/// `2 * y` at `x == 0`, two at `y == 1`, and otherwise itself at `x - 1` and
/// at its own value for `(x, y - 1)`.
pub open spec fn a_spec(x: nat, y: nat) -> nat
    decreases x, y,
{
    if y == 0 {
        0
    } else if x == 0 {
        2 * y
    } else if y == 1 {
        2
    } else {
        a_spec((x - 1) as nat, a_spec(x, (y - 1) as nat))
    }
}

/// The value is never below the second argument.
pub proof fn lemma_a_not_below(x: nat, y: nat)
    ensures
        a_spec(x, y) >= y,
    decreases x, y,
{
    if y == 0 || x == 0 || y == 1 {
    } else {
        lemma_a_not_below(x, (y - 1) as nat);
        let inner = a_spec(x, (y - 1) as nat);
        lemma_a_not_below((x - 1) as nat, inner);
        lemma_a_above_one(x, (y - 1) as nat);
        lemma_a_strictly_above((x - 1) as nat, inner);
    }
}

/// From a positive second argument the value is at least two.
pub proof fn lemma_a_above_one(x: nat, y: nat)
    requires
        y >= 1,
    ensures
        a_spec(x, y) >= 2,
    decreases x, y,
{
    if x == 0 || y == 1 {
    } else {
        lemma_a_above_one(x, (y - 1) as nat);
        lemma_a_above_one((x - 1) as nat, a_spec(x, (y - 1) as nat));
    }
}

/// From a second argument of at least two the value is strictly larger
/// than it.
pub proof fn lemma_a_strictly_above(x: nat, y: nat)
    requires
        y >= 2,
    ensures
        a_spec(x, y) > y,
    decreases x, y,
{
    if x == 0 {
    } else {
        let inner = a_spec(x, (y - 1) as nat);
        lemma_a_above_one(x, (y - 1) as nat);
        if y == 2 {
            assert(inner == 2);
        } else {
            lemma_a_strictly_above(x, (y - 1) as nat);
        }
        lemma_a_strictly_above((x - 1) as nat, inner);
    }
}

/// The function of the exercise, where its value fits the machine integer.
pub fn a(x: isize, y: isize) -> (r: isize)
    requires
        x >= 0,
        y >= 0,
        a_spec(x as nat, y as nat) <= isize::MAX,
    ensures
        r == a_spec(x as nat, y as nat),
    decreases x, y,
{
    if y == 0 {
        0
    } else if x == 0 {
        2 * y
    } else if y == 1 {
        2
    } else {
        proof {
            lemma_a_not_below((x - 1) as nat, a_spec(x as nat, (y - 1) as nat));
        }
        let inner = a(x, y - 1);
        a(x - 1, inner)
    }
}

} // verus!
