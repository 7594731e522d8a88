use sicp::sum_higher_order::{accumulate, accumulate_iterator, sum, sum_iter, sum_range};
use std::ops::Range;

#[test]
fn sum_of_integers() {
    let identity = |n: isize| n;
    let inc = |n: isize| n + 1;
    assert_eq!(sum(&identity, 1, 10, &inc), 55);
    assert_eq!(sum_iter(&identity, 1, 10, &inc), 55);
}

#[test]
fn sum_of_cubes() {
    let cube = |n: isize| n * n * n;
    let inc = |n: isize| n + 1;
    assert_eq!(sum(&cube, 1, 10, &inc), 3025);
    assert_eq!(sum_iter(&cube, 1, 10, &inc), 3025);
    assert_eq!(sum_range(&cube, 1..10, &inc), 3025);
}

#[test]
fn pi_sum() {
    let pi_term = |x: isize| 1.0 / (x * (x + 2)) as f64;
    let inc = |x: isize| x + 4;
    assert_eq!(8.0 * sum(&pi_term, 1, 1000, &inc), 3.139592655589783);
    assert_eq!(8.0 * sum_iter(&pi_term, 1, 1000, &inc), 3.139592655589782);
}

#[test]
fn accumulate_sum_of_integers() {
    let identity = |n: usize| n;
    let combine = |x, y| x + y;
    let next_range = |r: Range<usize>| (r.start + 1)..r.end;
    assert_eq!(accumulate(0, &identity, &combine, 1..11, &next_range), 55);
    assert_eq!(accumulate_iterator(0, &combine, &mut (1..11)), 55);
}

#[test]
fn accumulate_product_of_integers() {
    let identity = |n: usize| n;
    let combine = |x, y| x * y;
    let next_range = |r: Range<usize>| (r.start + 1)..r.end;
    assert_eq!(accumulate(1, &identity, &combine, 1..11, &next_range), 3628800);
    assert_eq!(accumulate_iterator(1, &combine, &mut (1..11)), 3628800);
}

#[test]
fn sums_over_nothing_are_the_default() {
    let identity = |n: isize| n;
    let inc = |n: isize| n + 1;
    assert_eq!(sum(&identity, 5, 4, &inc), 0);
    assert_eq!(sum_iter(&identity, 5, 4, &inc), 0);
    assert_eq!(sum_range(&identity, 5..4, &inc), 0);
    assert_eq!(sum_range(&identity, 5..5, &inc), 5);
}

#[test]
fn accumulate_combines_from_the_right() {
    let identity = |n: isize| n;
    let minus = |x: isize, y: isize| x - y;
    let next_range = |r: Range<isize>| (r.start + 1)..r.end;
    assert_eq!(accumulate(0, &identity, &minus, 1..4, &next_range), 2);
    assert_eq!(accumulate(7, &identity, &minus, 4..4, &next_range), 7);
    assert_eq!(accumulate_iterator(0, &minus, &mut (1..4)), 2);
    let mut used = 1..4;
    accumulate_iterator(0, &minus, &mut used);
    assert_eq!(used.next(), None);
}

#[test]
fn sum_with_a_wider_step() {
    let identity = |n: isize| n;
    let by_three = |n: isize| n + 3;
    assert_eq!(sum(&identity, 1, 10, &by_three), 22);
    assert_eq!(sum_iter(&identity, 1, 10, &by_three), 22);
    assert_eq!(sum_range(&identity, 1..10, &by_three), 22);
}
