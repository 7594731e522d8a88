use vstd::prelude::*;

verus! {

/// The coin denominations, smallest first.
pub const DENOMINATIONS: [i32; 5] = [1, 5, 10, 25, 50];

/// The denomination of the `kind`-th coin, counted from one.
pub open spec fn denomination(kind: nat) -> int {
    if kind == 1 {
        1
    } else if kind == 2 {
        5
    } else if kind == 3 {
        10
    } else if kind == 4 {
        25
    } else {
        50
    }
}

/// How far `amount` is from being overpaid.
pub open spec fn left_to_pay(amount: int) -> nat {
    if amount < 0 {
        0
    } else {
        (amount + 1) as nat
    }
}

/// Number of ways to make `amount` from the first `coin_kinds`
/// denominations: one way for nothing, none for a negative amount or without
/// coins, otherwise the ways that leave the largest coin out plus the ways
/// that use it at least once.
pub open spec fn ways(amount: int, coin_kinds: nat) -> nat
    decreases coin_kinds, left_to_pay(amount),
{
    if amount == 0 {
        1
    } else if amount < 0 || coin_kinds == 0 {
        0
    } else {
        ways(amount, (coin_kinds - 1) as nat) + ways(
            amount - denomination(coin_kinds),
            coin_kinds,
        )
    }
}

/// Number of ways to change `amount` with all five denominations.
pub fn counting_change(amount: i32) -> (r: usize)
    requires
        ways(amount as int, 5) <= usize::MAX,
    ensures
        r == ways(amount as int, 5),
{
    cc(amount, 5)
}

/// Number of ways to change `amount` with the first `coin_kinds`
/// denominations.
pub fn cc(amount: i32, coin_kinds: usize) -> (r: usize)
    requires
        coin_kinds <= 5 || amount <= 0,
        ways(amount as int, coin_kinds as nat) <= usize::MAX,
    ensures
        r == ways(amount as int, coin_kinds as nat),
    decreases coin_kinds, left_to_pay(amount as int),
{
    if amount == 0 {
        1
    } else if amount < 0 || coin_kinds == 0 {
        0
    } else {
        let coin: i32 = DENOMINATIONS[coin_kinds - 1];
        assert(coin == denomination(coin_kinds as nat));
        cc(amount, coin_kinds - 1) + cc(amount - coin, coin_kinds)
    }
}

} // verus!
