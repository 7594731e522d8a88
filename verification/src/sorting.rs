use vstd::prelude::*;
use crate::order::ascending;
use crate::order::eq_is_equality;
use crate::order::is_total_order;
use crate::order::less;
use crate::order::lemma_trichotomy;
use crate::order::lemma_less_chain;
use crate::order::ord_agrees;
use crate::order::strictly_ascending;

verus! {

/// `s` with every element dropped that equals the one before it.
pub open spec fn squeezed<T>(s: Seq<T>) -> Seq<T>
    decreases s.len(),
{
    if s.len() == 0 {
        s
    } else if s.len() >= 2 && s[s.len() - 1] == s[s.len() - 2] {
        squeezed(s.drop_last())
    } else {
        squeezed(s.drop_last()).push(s.last())
    }
}

/// `slice::sort`, on the elements of a vector. For a type whose `Ord` is a
/// total order the elements are rearranged, none lost and none added, so
/// that none comes after a later one. The order has to be total: the
/// standard library may panic if it is not.
#[verifier::external_body]
pub(crate) fn sort_elements<T: Ord>(elements: &mut Vec<T>)
    requires
        is_total_order::<T>(),
        ord_agrees::<T>(),
    ensures
        final(elements)@.to_multiset() == old(elements)@.to_multiset(),
        ascending(final(elements)@),
{
    elements.sort();
}

/// `Vec::dedup`: of every run of consecutive equal elements only one is
/// kept.
#[verifier::external_body]
pub(crate) fn dedup_elements<T: PartialEq>(elements: &mut Vec<T>)
    requires
        eq_is_equality::<T>(),
    ensures
        final(elements)@ == squeezed(old(elements)@),
{
    elements.dedup();
}

/// Two sequences with the same elements, each as often, hold the same
/// values.
pub proof fn lemma_same_members<T>(a: Seq<T>, b: Seq<T>)
    requires
        a.to_multiset() == b.to_multiset(),
    ensures
        forall|x: T| a.contains(x) <==> b.contains(x),
{
    assert forall|x: T| a.contains(x) <==> b.contains(x) by {
        a.to_multiset_ensures();
        b.to_multiset_ensures();
        assert(a.contains(x) <==> a.to_multiset().count(x) > 0);
        assert(b.contains(x) <==> b.to_multiset().count(x) > 0);
    }
}

/// Squeezing keeps the last element.
pub proof fn lemma_squeezed_last<T>(s: Seq<T>)
    requires
        s.len() > 0,
    ensures
        squeezed(s).len() > 0,
        squeezed(s).last() == s.last(),
    decreases s.len(),
{
    if s.len() >= 2 && s[s.len() - 1] == s[s.len() - 2] {
        lemma_squeezed_last(s.drop_last());
    }
}

/// Squeezing neither adds nor loses a value.
pub proof fn lemma_squeezed_members<T>(s: Seq<T>)
    ensures
        forall|x: T| squeezed(s).contains(x) <==> s.contains(x),
    decreases s.len(),
{
    if s.len() > 0 {
        let front = s.drop_last();
        lemma_squeezed_members(front);
        assert forall|x: T| squeezed(s).contains(x) <==> s.contains(x) by {
            if s.contains(x) {
                let i = choose|i: int| 0 <= i < s.len() && s[i] == x;
                if i < s.len() - 1 {
                    assert(front[i] == x);
                    assert(front.contains(x));
                }
            }
            if front.contains(x) {
                let i = choose|i: int| 0 <= i < front.len() && front[i] == x;
                assert(s[i] == x);
            }
            if s.len() >= 2 && s[s.len() - 1] == s[s.len() - 2] {
                assert(front[s.len() - 2] == s.last());
                assert(front.contains(s.last()));
            } else {
                let kept = squeezed(front);
                assert(squeezed(s) == kept.push(s.last()));
                if squeezed(s).contains(x) {
                    let i = choose|i: int| 0 <= i < squeezed(s).len() && squeezed(s)[i] == x;
                    if i < kept.len() {
                        assert(kept[i] == x);
                        assert(kept.contains(x));
                    } else {
                        assert(s[s.len() - 1] == x);
                    }
                }
                if kept.contains(x) {
                    let i = choose|i: int| 0 <= i < kept.len() && kept[i] == x;
                    assert(squeezed(s)[i] == x);
                }
                assert(squeezed(s)[kept.len() as int] == s.last());
            }
        }
    }
}

/// Squeezing a sequence in which nothing comes after a later element leaves
/// every element strictly before every later one.
pub proof fn lemma_squeezed_strictly_ascending<T: PartialOrd>(s: Seq<T>)
    requires
        is_total_order::<T>(),
        ascending(s),
    ensures
        strictly_ascending(squeezed(s)),
    decreases s.len(),
{
    if s.len() > 0 {
        let front = s.drop_last();
        assert(ascending(front)) by {
            assert forall|i: int, j: int| 0 <= i < j < front.len() implies !less(
                #[trigger] front[j],
                #[trigger] front[i],
            ) by {
                assert(front[i] == s[i] && front[j] == s[j]);
            }
        }
        lemma_squeezed_strictly_ascending(front);
        if !(s.len() >= 2 && s[s.len() - 1] == s[s.len() - 2]) {
            let kept = squeezed(front);
            let out = kept.push(s.last());
            lemma_squeezed_members(front);
            assert forall|i: int, j: int| 0 <= i < j < out.len() implies less(
                #[trigger] out[i],
                #[trigger] out[j],
            ) by {
                if j < kept.len() {
                    assert(out[i] == kept[i] && out[j] == kept[j]);
                } else {
                    let e = kept[i];
                    assert(kept.contains(e));
                    assert(front.contains(e));
                    let k = choose|k: int| 0 <= k < front.len() && front[k] == e;
                    assert(s[k] == e);
                    let before_last = s[s.len() - 2];
                    assert(!less(s.last(), e));
                    assert(!less(s.last(), before_last));
                    if k < s.len() - 2 {
                        assert(!less(before_last, e));
                    }
                    lemma_trichotomy(e, s.last());
                    lemma_trichotomy(before_last, s.last());
                    lemma_trichotomy(e, before_last);
                }
            }
        }
    }
}

/// A sequence ascends strictly if it is made of a strictly ascending part,
/// a value after all of that part, and a strictly ascending part after the
/// value.
pub proof fn lemma_ascending_whole<T: PartialOrd>(before: Seq<T>, value: T, after: Seq<T>)
    requires
        is_total_order::<T>(),
        strictly_ascending(before),
        strictly_ascending(after),
        forall|i: int| 0 <= i < before.len() ==> less(#[trigger] before[i], value),
        forall|i: int| 0 <= i < after.len() ==> less(value, #[trigger] after[i]),
    ensures
        strictly_ascending(before.push(value) + after),
{
    let all = before.push(value) + after;
    let at = before.len() as int;
    assert forall|i: int, j: int| 0 <= i < j < all.len() implies less(
        #[trigger] all[i],
        #[trigger] all[j],
    ) by {
        if j < at {
            assert(all[i] == before[i] && all[j] == before[j]);
        } else if j == at {
            assert(all[i] == before[i]);
        } else if i < at {
            assert(all[i] == before[i] && all[j] == after[j - at - 1]);
            lemma_less_chain(before[i], value, after[j - at - 1]);
        } else if i == at {
            assert(all[j] == after[j - at - 1]);
        } else {
            assert(all[i] == after[i - at - 1] && all[j] == after[j - at - 1]);
        }
    }
}

} // verus!
