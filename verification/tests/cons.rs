use sicp::cons::{Cons, List};

#[test]
fn from_array() {
    let it = &List::from_array(&[&1, &2, &3, &4][..]);
    assert_eq!(it.length(), 4);
}

#[test]
fn head() {
    let empty = List::<isize>::Empty;
    assert_eq!(&empty.head(), &None);
    let one = &List::one(&1);
    assert_eq!(&one.head(), &Some(&1));
}

#[test]
fn tail() {
    let empty = List::<isize>::Empty;
    assert_eq!(&empty.tail(), &None);
    let one = &List::one(&1);
    assert_eq!(&one.tail(), &Some(&List::Empty));
}

#[test]
fn is_empty() {
    let empty = List::<isize>::Empty;
    assert_eq!(&empty.is_empty(), &true);
    let one = &List::one(&1);
    assert_eq!(&one.is_empty(), &false);
}

#[test]
fn filter() {
    let empty = List::<isize>::Empty;
    assert_eq!(&empty.filter(&|v| *v > 0), &List::Empty);
    let many = &List::from_array(&[-1, 2, -3, 4][..]);
    assert_eq!(&many.filter(&|v| *v < 0), &List::from_array(&[-1, -3][..]));
    assert_eq!(&many.filter(&|v| *v > 0), &List::from_array(&[2, 4][..]));
}

#[test]
fn fold() {
    let empty = List::<isize>::Empty;
    assert_eq!(&empty.fold(0, &|t, u| t + u), &0);
    let many = &List::from_array(&[1, 2, 3, 4][..]);
    assert_eq!(&many.fold(0, &|t, u| t + u), &10);
    assert_eq!(&many.fold(1, &|t, u| t * u), &24);
}

#[test]
fn nth() {
    let it = &List::cons(&0, List::one(&1));
    assert_eq!(&it.nth(0), &Some(&0));
    assert_eq!(&it.nth(1), &Some(&1));
    assert_eq!(&it.nth(2), &None);
}

#[test]
fn length() {
    let empty = List::<isize>::Empty;
    assert_eq!(&empty.length(), &0);
    let many = &List::from_array(&[-1, 2, -3, 4][..]);
    assert_eq!(&many.length(), &4);
}

#[test]
fn length_iter() {
    let empty = List::<isize>::Empty;
    assert_eq!(&empty.length_iter(), &0);
    let many = &List::from_array(&[-1, 2, -3, 4][..]);
    assert_eq!(&many.length_iter(), &4);
}

#[test]
fn reverse() {
    let it = &List::from_array(&[1, 2, 3, 4][..]);
    assert_eq!(it.reverse(), List::from_array(&[4, 3, 2, 1][..]));
}

#[test]
fn fold_combines_from_the_right() {
    let many = &List::from_array(&[1, 2, 3][..]);
    assert_eq!(many.fold(0, &|t, u| t - u), 2);
    assert_eq!(many.fold(String::new(), &|t, u: String| format!("{}{}", u, t)), "321");
}

#[test]
fn nth_counts_a_negative_index_as_zero() {
    let it = &List::from_array(&[5, 6][..]);
    assert_eq!(it.nth(-3), Some(&5));
    assert_eq!(List::<isize>::Empty.nth(-3), None);
    assert_eq!(List::<isize>::Empty.nth(0), None);
}

#[test]
fn reverse_builder_puts_the_reversed_list_in_front() {
    let front = &List::from_array(&[1, 2][..]);
    let back = List::from_array(&[9][..]);
    assert_eq!(front.reverse_builder(back), List::from_array(&[2, 1, 9][..]));
    assert_eq!(List::<isize>::Empty.reverse(), List::Empty);
}

#[test]
fn cons_puts_a_value_in_front() {
    let it = List::cons(&1, List::one(&2));
    assert_eq!(it, List::NonEmpty(Cons::new(&1, List::NonEmpty(Cons::new(&2, List::Empty)))));
    assert_eq!(it.tail().unwrap().head(), Some(&2));
}
