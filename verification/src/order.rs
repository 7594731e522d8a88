use vstd::prelude::*;
use vstd::std_specs::cmp::PartialEqSpec;
use vstd::std_specs::cmp::PartialOrdSpec;
use vstd::std_specs::cmp::OrdSpec;
use core::cmp::Ordering;

verus! {

/// `a` comes strictly before `b`.
pub open spec fn less<T: PartialOrd>(a: T, b: T) -> bool {
    a.partial_cmp_spec(&b) == Some(Ordering::Less)
}

/// `==` on `T` behaves as its specification says, and is equality.
pub open spec fn eq_is_equality<T: PartialEq>() -> bool {
    &&& T::obeys_eq_spec()
    &&& forall|a: T, b: T| #![trigger a.eq_spec(&b)] a.eq_spec(&b) <==> a == b
}

/// The comparisons of `T` behave as their specifications say, `==` is
/// equality, and `<` is a strict total order.
pub open spec fn is_total_order<T: PartialOrd>() -> bool {
    &&& eq_is_equality::<T>()
    &&& T::obeys_partial_cmp_spec()
    &&& forall|a: T, b: T| #![trigger a.partial_cmp_spec(&b)] a.partial_cmp_spec(&b) is Some
    &&& forall|a: T, b: T|
        #![trigger a.partial_cmp_spec(&b)]
        a.partial_cmp_spec(&b) == Some(Ordering::Equal) <==> a == b
    &&& forall|a: T, b: T|
        #![trigger a.partial_cmp_spec(&b)]
        a.partial_cmp_spec(&b) == Some(Ordering::Greater) <==> less(b, a)
    &&& forall|a: T, b: T, c: T|
        #![trigger less(a, b), less(b, c)]
        less(a, b) && less(b, c) ==> less(a, c)
}

/// `cmp` behaves as its specification says and agrees with `partial_cmp`.
pub open spec fn ord_agrees<T: Ord>() -> bool {
    &&& T::obeys_cmp_spec()
    &&& forall|a: T, b: T|
        #![trigger a.cmp_spec(&b)]
        a.partial_cmp_spec(&b) == Some(a.cmp_spec(&b))
}

/// `a` and `b` compare as the integers `pa` and `pb` do.
pub open spec fn compares_as<T: PartialOrd>(a: T, b: T, pa: int, pb: int) -> bool {
    &&& T::obeys_partial_cmp_spec()
    &&& a.partial_cmp_spec(&b) == Some(
        if pa < pb {
            Ordering::Less
        } else if pa == pb {
            Ordering::Equal
        } else {
            Ordering::Greater
        },
    )
}

/// Every element comes strictly before every later one.
pub open spec fn strictly_ascending<T: PartialOrd>(s: Seq<T>) -> bool {
    forall|i: int, j: int| 0 <= i < j < s.len() ==> less(#[trigger] s[i], #[trigger] s[j])
}

/// No element comes strictly after a later one.
pub open spec fn ascending<T: PartialOrd>(s: Seq<T>) -> bool {
    forall|i: int, j: int| 0 <= i < j < s.len() ==> !less(#[trigger] s[j], #[trigger] s[i])
}

/// In a total order, of two values one comes before the other or they are
/// equal, and never two of these at once.
pub proof fn lemma_trichotomy<T: PartialOrd>(a: T, b: T)
    requires
        is_total_order::<T>(),
    ensures
        less(a, b) || a == b || less(b, a),
        !(less(a, b) && less(b, a)),
        !(less(a, b) && a == b),
        !less(a, a),
{
    assert(a.partial_cmp_spec(&b) is Some);
    assert(b.partial_cmp_spec(&a) is Some);
    assert(a.partial_cmp_spec(&a) is Some);
    match a.partial_cmp_spec(&b) {
        Some(Ordering::Less) => {},
        Some(Ordering::Equal) => {},
        Some(Ordering::Greater) => {},
        None => {},
    }
}

/// In a total order, what is not after `b` and `b` is before `c`, is before
/// `c`; and likewise with the strict step first.
pub proof fn lemma_less_chain<T: PartialOrd>(a: T, b: T, c: T)
    requires
        is_total_order::<T>(),
    ensures
        !less(b, a) && less(b, c) ==> less(a, c),
        less(a, b) && !less(c, b) ==> less(a, c),
        less(a, b) && less(b, c) ==> less(a, c),
        !less(b, a) && !less(c, b) ==> !less(c, a),
{
    lemma_trichotomy(a, b);
    lemma_trichotomy(b, c);
    lemma_trichotomy(a, c);
    if less(c, a) && less(a, b) {
        assert(less(c, b));
    }
    if less(b, c) && less(c, a) {
        assert(less(b, a));
    }
}

/// The machine integers used as elements are totally ordered.
pub proof fn lemma_integers_are_ordered()
    ensures
        is_total_order::<isize>(),
        is_total_order::<usize>(),
        is_total_order::<i32>(),
        is_total_order::<u32>(),
        is_total_order::<i64>(),
        is_total_order::<u64>(),
        ord_agrees::<isize>(),
        ord_agrees::<usize>(),
        ord_agrees::<i32>(),
        ord_agrees::<u32>(),
        ord_agrees::<i64>(),
        ord_agrees::<u64>(),
{
}

} // verus!
