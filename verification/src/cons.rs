use vstd::prelude::*;

verus! {

/// A singly linked list of borrowed values.
#[derive(Debug, PartialEq)]
pub enum List<'a, T> {
    Empty,
    NonEmpty(Cons<'a, T>),
}

/// A first value and the list of the rest.
#[derive(Debug, PartialEq)]
pub struct Cons<'a, T> {
    pub car: &'a T,
    pub cdr: Box<List<'a, T>>,
}

/// `out` is what is left of `s` when `f` decides for each value whether it
/// stays.
pub open spec fn filtered<'a, T: 'a, F: Fn(&'a T) -> bool>(s: Seq<T>, f: F, out: Seq<T>) -> bool
    decreases s.len(),
{
    if s.len() == 0 {
        out.len() == 0
    } else {
        ||| (call_ensures(f, (&s[0],), true) && out.len() > 0 && out[0] == s[0] && filtered(
            s.skip(1),
            f,
            out.skip(1),
        ))
        ||| (call_ensures(f, (&s[0],), false) && filtered(s.skip(1), f, out))
    }
}

/// `result` is what `op` makes of the values of `s` from the right,
/// starting from `base`: the last value is combined with `base`, and each
/// value before with what came of those after it.
pub open spec fn folded<'a, T: 'a, U, F: Fn(&'a T, U) -> U>(
    s: Seq<T>,
    base: U,
    op: F,
    result: U,
) -> bool
    decreases s.len(),
{
    if s.len() == 0 {
        result == base
    } else {
        exists|rest: U|
            folded(s.skip(1), base, op, rest) && #[trigger] call_ensures(
                op,
                (&s[0], rest),
                result,
            )
    }
}

impl<'a, T> List<'a, T> {
    /// The values, first to last.
    pub open spec fn items(&self) -> Seq<T>
        decreases self,
    {
        match self {
            List::Empty => Seq::empty(),
            List::NonEmpty(c) => seq![*c.car] + c.cdr.items(),
        }
    }

    /// The list with `t` put before `tail`.
    pub fn cons(t: &'a T, tail: Self) -> (r: Self)
        ensures
            r@ == seq![*t] + tail@,
            r == List::NonEmpty(Cons { car: t, cdr: Box::new(tail) }),
    {
        List::NonEmpty(Cons::new(t, tail))
    }

    /// The list of one value.
    pub fn one(t: &'a T) -> (r: Self)
        ensures
            r@ == seq![*t],
    {
        List::cons(t, List::Empty)
    }

    /// The list of the values of `a`, in order.
    pub fn from_array<'b: 'a>(a: &'b [T]) -> (r: Self)
        ensures
            r@ == a@,
    {
        let mut result: List<'b, T> = List::Empty;
        let mut i: usize = a.len();
        while i > 0
            invariant
                i <= a@.len(),
                result@ == a@.skip(i as int),
            decreases i,
        {
            i -= 1;
            result = List::cons(&a[i], result);
            assert(result@ =~= a@.skip(i as int));
        }
        assert(a@.skip(0) =~= a@);
        result
    }

    /// The first value, if there is one.
    pub fn head(&self) -> (r: Option<&'a T>)
        ensures
            self@.len() == 0 ==> r is None,
            self@.len() > 0 ==> (r matches Some(first) && *first == self@[0]),
    {
        match self {
            List::Empty => None,
            List::NonEmpty(some) => Some(some.car),
        }
    }

    /// The list after the first value, if there is a first value.
    pub fn tail(&self) -> (r: Option<&List<'a, T>>)
        ensures
            self@.len() == 0 ==> r is None,
            self@.len() > 0 ==> (r matches Some(rest) && rest@ == self@.skip(1)),
            self matches List::NonEmpty(c) ==> r == Some(&*c.cdr),
    {
        match self {
            List::Empty => None,
            List::NonEmpty(some) => {
                assert(some.cdr@ =~= self@.skip(1));
                Some(&*some.cdr)
            },
        }
    }

    pub fn is_empty(&self) -> (r: bool)
        ensures
            r == (self@.len() == 0),
            r == (self is Empty),
    {
        match self {
            List::Empty => true,
            List::NonEmpty(_) => false,
        }
    }

    /// The values for which `f` says yes, in order.
    pub fn filter<F: Fn(&'a T) -> bool>(&self, f: &F) -> (r: Self)
        requires
            forall|i: int| 0 <= i < self@.len() ==> call_requires(*f, (&#[trigger] self@[i],)),
        ensures
            filtered(self@, *f, r@),
        decreases self,
    {
        match self {
            List::Empty => List::Empty,
            List::NonEmpty(c) => {
                assert(c.cdr@ =~= self@.skip(1));
                assert(*c.car == self@[0]);
                assert forall|i: int| 0 <= i < c.cdr@.len() implies call_requires(
                    *f,
                    (&#[trigger] c.cdr@[i],),
                ) by {
                    assert(c.cdr@[i] == self@[i + 1]);
                }
                if f(c.car) {
                    let rest = c.cdr.filter(f);
                    let r = List::cons(c.car, rest);
                    assert(r@.skip(1) =~= rest@);
                    r
                } else {
                    c.cdr.filter(f)
                }
            },
        }
    }

    /// Combines the values from the right: `op` of each value and of what
    /// came of the values after it, starting from `base`.
    pub fn fold<U, F: Fn(&'a T, U) -> U>(&self, base: U, op: &F) -> (r: U)
        requires
            forall|i: int, u: U| 0 <= i < self@.len() ==> call_requires(*op, (&#[trigger] self@[i], u)),
        ensures
            folded(self@, base, *op, r),
        decreases self,
    {
        match self {
            List::Empty => base,
            List::NonEmpty(c) => {
                assert(c.cdr@ =~= self@.skip(1));
                assert(*c.car == self@[0]);
                assert forall|i: int, u: U| 0 <= i < c.cdr@.len() implies call_requires(
                    *op,
                    (&#[trigger] c.cdr@[i], u),
                ) by {
                    assert(c.cdr@[i] == self@[i + 1]);
                }
                let rest = c.cdr.fold(base, op);
                let r = op(c.car, rest);
                assert(call_ensures(*op, (&self@[0], rest), r));
                r
            },
        }
    }

    /// The value at position `i`, counted from zero; a negative `i` counts
    /// as zero.
    pub fn nth(&self, i: isize) -> (r: Option<&'a T>)
        ensures
            ({
                let at = if i <= 0 {
                    0
                } else {
                    i as int
                };
                &&& at >= self@.len() ==> r is None
                &&& at < self@.len() ==> (r matches Some(found) && *found == self@[at])
            }),
        decreases self,
    {
        if i <= 0 {
            self.head()
        } else if let Some(t) = self.tail() {
            t.nth(i - 1)
        } else {
            None
        }
    }

    /// The number of values, by recursion.
    pub fn length(&self) -> (r: isize)
        requires
            self@.len() <= isize::MAX,
        ensures
            r == self@.len(),
        decreases self,
    {
        match self {
            List::Empty => 0,
            List::NonEmpty(c) => 1 + c.cdr.length(),
        }
    }

    /// The number of values, by a loop.
    pub fn length_iter(&self) -> (r: isize)
        requires
            self@.len() <= isize::MAX,
        ensures
            r == self@.len(),
    {
        let mut length: isize = 0;
        let mut list = self;
        loop
            invariant
                0 <= length,
                length + list@.len() == self@.len(),
                self@.len() <= isize::MAX,
            decreases list@.len(),
        {
            match list {
                List::Empty => {
                    return length;
                },
                List::NonEmpty(c) => {
                    length += 1;
                    list = &*c.cdr;
                },
            }
        }
    }

    /// The values in the opposite order.
    pub fn reverse(&self) -> (r: Self)
        ensures
            r@ == self@.reverse(),
    {
        let r = self.reverse_builder(List::Empty);
        assert(self@.reverse() + Seq::<T>::empty() =~= self@.reverse());
        r
    }

    /// The values in the opposite order, followed by those of `accum`.
    pub fn reverse_builder(&self, accum: List<'a, T>) -> (r: Self)
        ensures
            r@ == self@.reverse() + accum@,
        decreases self,
    {
        match self {
            List::Empty => {
                assert(self@.reverse() + accum@ =~= accum@);
                accum
            },
            List::NonEmpty(c) => {
                let ghost rest = c.cdr@;
                let r = c.cdr.reverse_builder(List::cons(c.car, accum));
                assert(r@ =~= self@.reverse() + accum@) by {
                    let whole = self@;
                    assert(whole == seq![*c.car] + rest);
                    assert(whole.len() == rest.len() + 1);
                    assert forall|i: int| 0 <= i < rest.len() implies whole.reverse()[i]
                        == rest.reverse()[i] by {
                        assert(whole[whole.len() - 1 - i] == rest[rest.len() - 1 - i]);
                    }
                    assert(whole.reverse()[rest.len() as int] == *c.car);
                }
                r
            },
        }
    }
}

impl<'a, T> View for List<'a, T> {
    type V = Seq<T>;

    open spec fn view(&self) -> Seq<T> {
        self.items()
    }
}

impl<'a, T> Cons<'a, T> {
    pub fn new(car: &'a T, cdr: List<'a, T>) -> (r: Self)
        ensures
            r == (Cons { car, cdr: Box::new(cdr) }),
    {
        Self { car, cdr: Box::new(cdr) }
    }
}

} // verus!
