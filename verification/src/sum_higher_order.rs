use vstd::prelude::*;
use vstd::std_specs::iter::IteratorSpec;
use crate::order::compares_as;
use core::ops::Add;
use core::ops::Range;

verus! {

/// A value with a place on the integer line, by which it is compared.
pub trait Position: PartialOrd + Copy + Sized {
    /// The place of the value.
    spec fn position(self) -> int;

    /// Values compare as their places do.
    proof fn lemma_compares_by_position(a: Self, b: Self)
        ensures
            compares_as(a, b, a.position(), b.position()),
    ;
}

impl Position for isize {
    open spec fn position(self) -> int {
        self as int
    }

    proof fn lemma_compares_by_position(a: Self, b: Self) {
    }
}

impl Position for usize {
    open spec fn position(self) -> int {
        self as int
    }

    proof fn lemma_compares_by_position(a: Self, b: Self) {
    }
}

impl Position for i32 {
    open spec fn position(self) -> int {
        self as int
    }

    proof fn lemma_compares_by_position(a: Self, b: Self) {
    }
}

impl Position for u32 {
    open spec fn position(self) -> int {
        self as int
    }

    proof fn lemma_compares_by_position(a: Self, b: Self) {
    }
}

impl Position for i64 {
    open spec fn position(self) -> int {
        self as int
    }

    proof fn lemma_compares_by_position(a: Self, b: Self) {
    }
}

impl Position for u64 {
    open spec fn position(self) -> int {
        self as int
    }

    proof fn lemma_compares_by_position(a: Self, b: Self) {
    }
}

/// How many places lie from `from` to `to`, both counted; zero if `from`
/// lies beyond `to`.
pub open spec fn places<S: Position>(from: S, to: S) -> nat {
    if from.position() > to.position() {
        0
    } else {
        (to.position() - from.position() + 1) as nat
    }
}

/// `result` is a sum of the terms from `from` to `to`, added from the
/// right: the default value beyond `to`, and otherwise the term at `from`
/// plus a sum of the terms from the next place on.
pub open spec fn is_sum<S, T, Term, Next>(map: Term, from: S, to: S, next: Next, result: T) -> bool where
    S: Position,
    T: Add<Output = T> + Copy + Default,
    Term: Fn(S) -> T,
    Next: Fn(S) -> S,

    decreases places(from, to),
{
    if from.position() > to.position() {
        call_ensures(T::default, (), result)
    } else {
        exists|term: T, after: S, rest: T|
            #![trigger call_ensures(T::add, (term, rest), result), call_ensures(next, (from,), after)]
            {
                &&& call_ensures(map, (from,), term)
                &&& call_ensures(next, (from,), after)
                &&& after.position() > from.position()
                &&& is_sum(map, after, to, next, rest)
                &&& call_ensures(T::add, (term, rest), result)
            }
    }
}

/// The sum from `from` to `to` can be computed: at every place reached,
/// `map` and `next` accept the place, `next` moves forward, and every
/// addition that comes up is accepted.
pub open spec fn can_sum<S, T, Term, Next>(map: Term, from: S, to: S, next: Next) -> bool where
    S: Position,
    T: Add<Output = T> + Copy + Default,
    Term: Fn(S) -> T,
    Next: Fn(S) -> S,

    decreases places(from, to),
{
    from.position() > to.position() || {
        &&& call_requires(map, (from,))
        &&& call_requires(next, (from,))
        &&& forall|after: S| #[trigger]
            call_ensures(next, (from,), after) ==> {
                &&& after.position() > from.position()
                &&& can_sum::<S, T, Term, Next>(map, after, to, next)
                &&& forall|term: T, rest: T|
                    #![trigger call_requires(T::add, (term, rest))]
                    call_ensures(map, (from,), term) && is_sum(map, after, to, next, rest)
                        ==> call_requires(T::add, (term, rest))
            }
    }
}

/// The sum of `map` over the places from `from` to `to`, stepping by
/// `next`, by recursion.
pub fn sum<S, T, Term, Next>(map: &Term, from: S, to: S, next: &Next) -> (r: T) where
    S: Position,
    T: Add + Add<Output = T> + Copy + Default,
    Term: Fn(S) -> T,
    Next: Fn(S) -> S,

    requires
        can_sum::<S, T, Term, Next>(*map, from, to, *next),
        call_requires(T::default, ()),
    ensures
        is_sum(*map, from, to, *next, r),
    decreases places(from, to),
{
    proof {
        S::lemma_compares_by_position(from, to);
    }
    if from > to {
        T::default()
    } else {
        let term = map(from);
        let after = next(from);
        let rest = sum(map, after, to, next);
        let r = term + rest;
        assert(call_ensures(T::add, (term, rest), r));
        r
    }
}

/// `result` is what adding the terms from `from` to `to` to `so_far`, one
/// after the other, comes to.
pub open spec fn is_running_sum<S, T, Term, Next>(
    map: Term,
    from: S,
    to: S,
    next: Next,
    so_far: T,
    result: T,
) -> bool where
    S: Position,
    T: Add<Output = T> + Copy + Default,
    Term: Fn(S) -> T,
    Next: Fn(S) -> S,

    decreases places(from, to),
{
    if from.position() > to.position() {
        result == so_far
    } else {
        exists|term: T, after: S, more: T|
            #![trigger call_ensures(T::add, (so_far, term), more), call_ensures(next, (from,), after)]
            {
                &&& call_ensures(map, (from,), term)
                &&& call_ensures(T::add, (so_far, term), more)
                &&& call_ensures(next, (from,), after)
                &&& after.position() > from.position()
                &&& is_running_sum(map, after, to, next, more, result)
            }
    }
}

/// The running sum from `from` to `to` on top of `so_far` can be computed:
/// at every place reached, `map` and `next` accept the place, `next` moves
/// forward, and the addition is accepted.
pub open spec fn can_run_sum<S, T, Term, Next>(
    map: Term,
    from: S,
    to: S,
    next: Next,
    so_far: T,
) -> bool where
    S: Position,
    T: Add<Output = T> + Copy + Default,
    Term: Fn(S) -> T,
    Next: Fn(S) -> S,

    decreases places(from, to),
{
    from.position() > to.position() || {
        &&& call_requires(map, (from,))
        &&& call_requires(next, (from,))
        &&& forall|term: T| #[trigger]
            call_ensures(map, (from,), term) ==> {
                &&& call_requires(T::add, (so_far, term))
                &&& forall|more: T, after: S|
                    #![trigger call_ensures(T::add, (so_far, term), more), call_ensures(next, (from,), after)]
                    call_ensures(T::add, (so_far, term), more) && call_ensures(
                        next,
                        (from,),
                        after,
                    ) ==> after.position() > from.position() && can_run_sum(
                        map,
                        after,
                        to,
                        next,
                        more,
                    )
            }
    }
}

/// The sum of `map` over the places from `from` to `to`, stepping by
/// `next`, by a loop that adds each term to what it has.
pub fn sum_iter<S, T, Term, Next>(map: &Term, from: S, to: S, next: &Next) -> (r: T) where
    S: Position,
    T: Add + Add<Output = T> + Copy + Default,
    Term: Fn(S) -> T,
    Next: Fn(S) -> S,

    requires
        call_requires(T::default, ()),
        forall|zero: T| #[trigger]
            call_ensures(T::default, (), zero) ==> can_run_sum(*map, from, to, *next, zero),
    ensures
        exists|zero: T| #[trigger]
            call_ensures(T::default, (), zero) && is_running_sum(*map, from, to, *next, zero, r),
{
    let zero = T::default();
    let mut result = zero;
    let mut x = from;
    loop
        invariant_except_break
            can_run_sum(*map, x, to, *next, result),
            forall|last: T|
                is_running_sum(*map, x, to, *next, result, last) ==> is_running_sum(
                    *map,
                    from,
                    to,
                    *next,
                    zero,
                    last,
                ),
        ensures
            is_running_sum(*map, from, to, *next, zero, result),
        decreases places(x, to),
    {
        proof {
            S::lemma_compares_by_position(x, to);
        }
        if !(x <= to) {
            assert(is_running_sum(*map, x, to, *next, result, result));
            break;
        }
        let ghost before = result;
        let ghost place = x;
        let term = map(x);
        result = result + term;
        x = next(x);
        assert forall|last: T|
            is_running_sum(*map, x, to, *next, result, last) implies is_running_sum(
            *map,
            from,
            to,
            *next,
            zero,
            last,
        ) by {
            assert(call_ensures(T::add, (before, term), result));
            assert(call_ensures(*next, (place,), x));
            assert(is_running_sum(*map, place, to, *next, before, last));
        }
    }
    assert(call_ensures(T::default, (), zero));
    result
}

/// The sum of `map` over the places from the start of `range` to its end,
/// the end counted too, stepping by `next`.
pub fn sum_range<S, T, Term, Next>(map: &Term, range: Range<S>, next: &Next) -> (r: T) where
    S: Position,
    T: Add + Add<Output = T> + Copy + Default,
    Term: Fn(S) -> T,
    Next: Fn(S) -> S,

    requires
        call_requires(T::default, ()),
        forall|zero: T| #[trigger]
            call_ensures(T::default, (), zero) ==> can_run_sum(
                *map,
                range.start,
                range.end,
                *next,
                zero,
            ),
    ensures
        exists|zero: T| #[trigger]
            call_ensures(T::default, (), zero) && is_running_sum(
                *map,
                range.start,
                range.end,
                *next,
                zero,
                r,
            ),
{
    let zero = T::default();
    let mut result = zero;
    let mut x = range.start;
    loop
        invariant_except_break
            can_run_sum(*map, x, range.end, *next, result),
            forall|last: T|
                is_running_sum(*map, x, range.end, *next, result, last) ==> is_running_sum(
                    *map,
                    range.start,
                    range.end,
                    *next,
                    zero,
                    last,
                ),
        ensures
            is_running_sum(*map, range.start, range.end, *next, zero, result),
        decreases places(x, range.end),
    {
        proof {
            S::lemma_compares_by_position(x, range.end);
        }
        if !(x <= range.end) {
            assert(is_running_sum(*map, x, range.end, *next, result, result));
            break;
        }
        let ghost before = result;
        let ghost place = x;
        let term = map(x);
        result = result + term;
        x = next(x);
        assert forall|last: T|
            is_running_sum(*map, x, range.end, *next, result, last) implies is_running_sum(
            *map,
            range.start,
            range.end,
            *next,
            zero,
            last,
        ) by {
            assert(call_ensures(T::add, (before, term), result));
            assert(call_ensures(*next, (place,), x));
            assert(is_running_sum(*map, place, range.end, *next, before, last));
        }
    }
    assert(call_ensures(T::default, (), zero));
    result
}

/// How many places lie in `range`, the end not counted.
pub open spec fn width<S: Position>(range: Range<S>) -> nat {
    if range.start.position() < range.end.position() {
        (range.end.position() - range.start.position()) as nat
    } else {
        0
    }
}

/// `result` is what `combine` makes of the terms of `range` from the right,
/// starting from `initial`: `initial` for an empty range, and otherwise the
/// term at the start combined with what comes of the range that `next`
/// gives.
pub open spec fn is_accumulated<S, T, Term, Combine, Next>(
    initial: T,
    map: Term,
    combine: Combine,
    range: Range<S>,
    next: Next,
    result: T,
) -> bool where
    S: Position,
    T: Copy,
    Term: Fn(S) -> T,
    Combine: Fn(T, T) -> T,
    Next: Fn(Range<S>) -> Range<S>,

    decreases width(range),
{
    if width(range) == 0 {
        result == initial
    } else {
        exists|term: T, after: Range<S>, rest: T|
            #![trigger call_ensures(combine, (term, rest), result), call_ensures(next, (range,), after)]
            {
                &&& call_ensures(map, (range.start,), term)
                &&& call_ensures(next, (range,), after)
                &&& width(after) < width(range)
                &&& is_accumulated(initial, map, combine, after, next, rest)
                &&& call_ensures(combine, (term, rest), result)
            }
    }
}

/// The terms of `range` can be accumulated: for every range reached, `map`
/// accepts its start, `next` accepts it and gives a narrower one, and
/// `combine` accepts what comes up.
pub open spec fn can_accumulate<S, T, Term, Combine, Next>(
    initial: T,
    map: Term,
    combine: Combine,
    range: Range<S>,
    next: Next,
) -> bool where
    S: Position,
    T: Copy,
    Term: Fn(S) -> T,
    Combine: Fn(T, T) -> T,
    Next: Fn(Range<S>) -> Range<S>,

    decreases width(range),
{
    width(range) == 0 || {
        &&& call_requires(map, (range.start,))
        &&& call_requires(next, (range,))
        &&& forall|after: Range<S>| #[trigger]
            call_ensures(next, (range,), after) ==> {
                &&& width(after) < width(range)
                &&& can_accumulate(initial, map, combine, after, next)
                &&& forall|term: T, rest: T|
                    #![trigger call_requires(combine, (term, rest))]
                    call_ensures(map, (range.start,), term) && is_accumulated(
                        initial,
                        map,
                        combine,
                        after,
                        next,
                        rest,
                    ) ==> call_requires(combine, (term, rest))
            }
    }
}

/// What `combine` makes of the terms of `range`, from the right, starting
/// from `initial`; `next` gives the range that is left after the first
/// place.
pub fn accumulate<S, T, Term, Combine, Next>(
    initial: T,
    map: &Term,
    combine: &Combine,
    range: Range<S>,
    next: &Next,
) -> (r: T) where
    S: Position,
    T: Copy,
    Term: Fn(S) -> T,
    Combine: Fn(T, T) -> T,
    Next: Fn(Range<S>) -> Range<S>,

    requires
        can_accumulate(initial, *map, *combine, range, *next),
    ensures
        is_accumulated(initial, *map, *combine, range, *next, r),
    decreases width(range),
{
    proof {
        S::lemma_compares_by_position(range.start, range.end);
    }
    if !(range.start < range.end) {
        initial
    } else {
        let term = map(range.start);
        let after = next(Range { start: range.start, end: range.end });
        let rest = accumulate(initial, map, combine, after, next);
        let r = combine(term, rest);
        assert(call_ensures(*combine, (term, rest), r));
        r
    }
}

/// `result` is what `combine` makes of `items` from the right, starting
/// from `initial`.
pub open spec fn is_combined<T, Combine>(
    items: Seq<T>,
    initial: T,
    combine: Combine,
    result: T,
) -> bool where T: Copy, Combine: Fn(T, T) -> T
    decreases items.len(),
{
    if items.len() == 0 {
        result == initial
    } else {
        exists|rest: T|
            is_combined(items.drop_first(), initial, combine, rest) && #[trigger] call_ensures(
                combine,
                (items[0], rest),
                result,
            )
    }
}

/// `combine` accepts everything that comes up when `items` are combined
/// from the right.
pub open spec fn can_combine<T, Combine>(items: Seq<T>, initial: T, combine: Combine) -> bool where
    T: Copy,
    Combine: Fn(T, T) -> T,

    decreases items.len(),
{
    items.len() == 0 || {
        &&& can_combine(items.drop_first(), initial, combine)
        &&& forall|rest: T|
            is_combined(items.drop_first(), initial, combine, rest) ==> #[trigger] call_requires(
                combine,
                (items[0], rest),
            )
    }
}

/// What `combine` makes of the items that `next` still has to give, from
/// the right, starting from `initial`. The iterator is used up.
pub fn accumulate_iterator<T, Combine, Next>(initial: T, combine: &Combine, next: &mut Next) -> (r:
    T) where T: Copy, Combine: Fn(T, T) -> T, Next: Iterator<Item = T>
    requires
        (*old(next)).obeys_prophetic_iter_laws(),
        (*old(next)).decrease() is Some,
        can_combine((*old(next)).remaining(), initial, *combine),
    ensures
        is_combined((*old(next)).remaining(), initial, *combine, r),
        (*final(next)).remaining().len() == 0,
    decreases (*old(next)).decrease()->0,
{
    match next.next() {
        None => initial,
        Some(n) => {
            let rest = accumulate_iterator(initial, combine, next);
            let r = combine(n, rest);
            assert(call_ensures(*combine, (n, rest), r));
            r
        },
    }
}

} // verus!
