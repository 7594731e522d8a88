use sicp::ackermann::a;
use sicp::counting_change::{cc, counting_change};
use sicp::ex1_11::{f, f_iter};
use sicp::exponential::{
    exponential, exponential_iter, fast_exponential_iter, fast_exponentiation, fast_multiply_iter,
    multiply, multiply_iter,
};
use sicp::fibonacci::{fast_fib_recurse, fast_fib_recurse2, fib, fib_recurse};
use sicp::gcd::gcd;

#[test]
fn egs() {
    assert_eq!(a(1, 10), 1024);
    assert_eq!(a(2, 4), 65536);
    assert_eq!(a(3, 3), 65536);
}

#[test]
fn a0() {
    assert_eq!(a(0, 1), 2);
    assert_eq!(a(0, 2), 4);
    assert_eq!(a(0, 3), 6);
    assert_eq!(a(0, 4), 8);
}

#[test]
fn a1() {
    assert_eq!(a(1, 1), 2);
    assert_eq!(a(1, 2), 4);
    assert_eq!(a(1, 3), 8);
    assert_eq!(a(1, 4), 16);
}

#[test]
fn a2() {
    assert_eq!(a(2, 1), 2);
    assert_eq!(a(2, 2), 4);
    assert_eq!(a(2, 3), 16);
    assert_eq!(a(2, 4), 65536);
    assert_eq!(2i64.pow(16), 65536);
}

#[test]
fn ackermann_zero_second_argument() {
    assert_eq!(a(0, 0), 0);
    assert_eq!(a(5, 0), 0);
}

#[test]
fn fib1() {
    assert_eq!(counting_change(0), 1);
    assert_eq!(counting_change(-1), 0);
    assert_eq!(counting_change(1), 1);
}

#[test]
fn fib5() {
    assert_eq!(counting_change(5), 2);
}

#[test]
fn fib10() {
    assert_eq!(counting_change(10), 4);
}

#[test]
fn fib11() {
    assert_eq!(counting_change(11), 4);
}

#[test]
fn fib50() {
    assert_eq!(counting_change(50), 50);
}

#[test]
fn counting_change_fib0() {
    assert_eq!(counting_change(100), 292);
}

#[test]
fn change_with_fewer_kinds_of_coin() {
    assert_eq!(cc(10, 0), 0);
    assert_eq!(cc(10, 1), 1);
    assert_eq!(cc(10, 2), 3);
    assert_eq!(cc(0, 0), 1);
}

#[test]
fn eg() {
    assert_eq!(f(0), 0);
    assert_eq!(f(1), 1);
    assert_eq!(f(2), 2);
    assert_eq!(f(3), 3);
    assert_eq!(f(4), 6);
    assert_eq!(f(5), 11);
    assert_eq!(f(6), 20);
    assert_eq!(f(7), 37);
}

#[test]
fn eg_iter() {
    assert_eq!(f_iter(0), 0);
    assert_eq!(f_iter(1), 1);
    assert_eq!(f_iter(2), 2);
    assert_eq!(f_iter(3), 3);
    assert_eq!(f_iter(4), 6);
    assert_eq!(f_iter(5), 11);
    assert_eq!(f_iter(6), 20);
    assert_eq!(f_iter(7), 37);
}

#[test]
fn exponential_() {
    assert_eq!(exponential(10, 0), 1);
    assert_eq!(exponential(10, 1), 10);
    assert_eq!(exponential(10, 2), 100);
    assert_eq!(exponential(10, 3), 1000);
    assert_eq!(exponential(10, 6), 1_000_000);
    assert_eq!(exponential(10, 9), 1_000_000_000);
}

#[test]
fn exponential_iter_() {
    assert_eq!(exponential_iter(10, 0), 1);
    assert_eq!(exponential_iter(10, 1), 10);
    assert_eq!(exponential_iter(10, 2), 100);
    assert_eq!(exponential_iter(10, 3), 1000);
    assert_eq!(exponential_iter(10, 6), 1_000_000);
    assert_eq!(exponential_iter(10, 9), 1_000_000_000);
}

#[test]
fn fast_exponential_() {
    assert_eq!(fast_exponentiation(10, 0), 1);
    assert_eq!(fast_exponentiation(10, 1), 10);
    assert_eq!(fast_exponentiation(10, 2), 100);
    assert_eq!(fast_exponentiation(10, 3), 1000);
    assert_eq!(fast_exponentiation(10, 6), 1_000_000);
    assert_eq!(fast_exponentiation(10, 9), 1_000_000_000);
}

#[test]
fn fast_exponential_iter_() {
    assert_eq!(fast_exponential_iter(10, 0), 1);
    assert_eq!(fast_exponential_iter(10, 1), 10);
    assert_eq!(fast_exponential_iter(10, 2), 100);
    assert_eq!(fast_exponential_iter(10, 3), 1000);
    assert_eq!(fast_exponential_iter(10, 6), 1_000_000);
    assert_eq!(fast_exponential_iter(10, 7), 10_000_000);
    assert_eq!(fast_exponential_iter(10, 8), 100_000_000);
    assert_eq!(fast_exponential_iter(10, 9), 1_000_000_000);
}

#[test]
fn powers_of_zero_and_one() {
    assert_eq!(exponential(0, 0), 1);
    assert_eq!(exponential_iter(0, 5), 0);
    assert_eq!(fast_exponentiation(0, 4), 0);
    assert_eq!(fast_exponential_iter(0, 6), 0);
    assert_eq!(fast_exponential_iter(1, 1000), 1);
    assert_eq!(fast_exponential_iter(2, 62), 1usize << 62);
}

#[test]
fn multiply_() {
    assert_eq!(multiply(10, 5), 50);
    assert_eq!(multiply(103, 51), 5253);
}

#[test]
fn multiply_iter_() {
    assert_eq!(multiply_iter(10, 5), 50);
    assert_eq!(multiply_iter(103, 51), 5253);
    assert_eq!(multiply_iter(51, 103), 5253);
}

#[test]
fn fast_multiply_iter_() {
    assert_eq!(fast_multiply_iter(10, 5), 50);
    assert_eq!(fast_multiply_iter(103, 51), 5253);
    assert_eq!(fast_multiply_iter(51, 103), 5253);
}

#[test]
fn multiply_by_zero() {
    assert_eq!(multiply(7, 0), 0);
    assert_eq!(multiply_iter(0, 7), 0);
    assert_eq!(fast_multiply_iter(0, 0), 0);
}

#[test]
fn fibonacci_fib0() {
    let results2: Vec<usize> = (0..20).map(|n| fib(n)).collect();
    assert_eq!(
        results2,
        vec![0, 1, 1, 2, 3, 5, 8, 13, 21, 34, 55, 89, 144, 233, 377, 610, 987, 1597, 2584, 4181]
    );
}

#[test]
fn fib0_recurse() {
    let results2: Vec<usize> = (0..20).map(|n| fib_recurse(n)).collect();
    assert_eq!(
        results2,
        vec![0, 1, 1, 2, 3, 5, 8, 13, 21, 34, 55, 89, 144, 233, 377, 610, 987, 1597, 2584, 4181]
    );
}

#[test]
fn remainder() {
    assert_eq!(10isize.rem_euclid(3), 1);
}

#[test]
fn gcd0() {
    assert_eq!(gcd(206, 0), 206);
}

#[test]
fn gcd1() {
    assert_eq!(gcd(206, 40), 2);
    assert_eq!(gcd(40, 206), 2); // one extra step
}

#[test]
fn gcd_with_negative_arguments() {
    assert_eq!(gcd(-4, 6), 2);
    assert_eq!(gcd(4, -2), -2);
    assert_eq!(gcd(-1, -2), 1);
    assert_eq!(gcd(0, 0), 0);
}

#[test]
fn t() {
    assert_eq!(true, true);
}

#[test]
fn third() {
    let mut x = 12.15;
    let mut count = 0;
    while x > 0.1 {
        x = x / 3.0;
        count += 1;
    }
    assert_eq!(count, 5);
}

#[test]
fn fast_fib_recurse_() {
    let results2: Vec<usize> = (0..20).map(|n| fast_fib_recurse(n)).collect();
    assert_eq!(
        results2,
        vec![0, 1, 1, 2, 3, 5, 8, 13, 21, 34, 55, 89, 144, 233, 377, 610, 987, 1597, 2584, 4181]
    );
}

#[test]
fn fast_fib_applies_the_transformation() {
    // With p = 0 and q = 1 one step takes (a, b) to (a + b, a).
    assert_eq!(fast_fib_recurse2(1, 0, 0, 1, 0), 0);
    assert_eq!(fast_fib_recurse2(1, 0, 0, 1, 1), 1);
    assert_eq!(fast_fib_recurse2(5, 3, 0, 1, 2), 8);
    // With p = 1 and q = 0 nothing changes.
    assert_eq!(fast_fib_recurse2(7, 4, 1, 0, 9), 4);
    // With p = 1 and q = 1 one step takes (a, b) to (2a + b, a + b).
    assert_eq!(fast_fib_recurse2(1, 0, 1, 1, 3), 8);
    assert_eq!(fast_fib_recurse(90), 2880067194370816120);
    assert_eq!(fib(90), 2880067194370816120);
}

#[test]
fn change_string_appends_the_surname() {
    let mut name = String::from("Charlie");
    sicp::change_string(&mut name);
    assert_eq!(name, "Charlie Brown");
    sicp::change_string(&mut name);
    assert_eq!(name, "Charlie Brown Brown");
}
