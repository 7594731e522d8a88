use sicp::prime::{
    exp_mod, fast_prime, fermat_check, fermat_test, find_divisor, prime_naive, prime_naive_iter,
    square_root,
};

#[test]
fn prime_true() {
    assert_eq!(prime_naive(3), true);
    assert_eq!(prime_naive(11), true);
    assert_eq!(prime_naive_iter(3), true);
    assert_eq!(prime_naive_iter(11), true);
    assert_eq!(fast_prime(3, 10), true);
    assert_eq!(fast_prime(11, 10), true);
}

#[test]
fn prime_false() {
    assert_eq!(prime_naive(4), false);
    assert_eq!(prime_naive(125), false);
    assert_eq!(prime_naive_iter(4), false);
    assert_eq!(prime_naive_iter(125), false);
    assert_eq!(fast_prime(4, 10), false);
    assert_eq!(fast_prime(125, 10), false);
}

#[test]
fn ex_1_21() {
    assert_eq!(find_divisor(199, 2), 199);
    assert_eq!(find_divisor(1999, 2), 1999);
    assert_eq!(find_divisor(19999, 2), 7);
}

#[test]
fn naive_tests_agree_on_small_numbers() {
    let primes = [2usize, 3, 5, 7, 11, 13, 17, 19, 23, 29, 31, 37, 41, 43, 47, 49];
    for n in 2..50usize {
        let expected = primes.contains(&n) && n != 49;
        assert_eq!(prime_naive(n), expected, "{}", n);
        assert_eq!(prime_naive_iter(n), expected, "{}", n);
    }
}

#[test]
fn zero_and_one_are_reported_prime() {
    assert_eq!(prime_naive(0), true);
    assert_eq!(prime_naive(1), true);
    assert_eq!(prime_naive_iter(0), true);
    assert_eq!(prime_naive_iter(1), true);
}

#[test]
fn square_root_is_the_whole_part() {
    assert_eq!(square_root(0), 0);
    assert_eq!(square_root(1), 1);
    assert_eq!(square_root(3), 1);
    assert_eq!(square_root(4), 2);
    assert_eq!(square_root(99), 9);
    assert_eq!(square_root(100), 10);
    assert_eq!(square_root(999_999_999_999), 999_999);
    assert_eq!(square_root(1_000_000_000_000), 1_000_000);
}

#[test]
fn exp_mod_values() {
    assert_eq!(exp_mod(2, 10, 1000), 24);
    assert_eq!(exp_mod(3, 4, 7), 4);
    assert_eq!(exp_mod(5, 0, 7), 1);
    assert_eq!(exp_mod(5, 0, 1), 1);
    assert_eq!(exp_mod(5, 3, 1), 0);
    assert_eq!(exp_mod(7, 1, 5), 2);
}

#[test]
fn fermat_check_values() {
    assert_eq!(fermat_check(7, 3), true);
    assert_eq!(fermat_check(4, 1), true);
    assert_eq!(fermat_check(4, 2), false);
    assert_eq!(fermat_check(4, 3), false);
}

#[test]
fn fermat_test_never_fails_a_prime() {
    for _ in 0..50 {
        assert_eq!(fermat_test(13), true);
        assert_eq!(fermat_test(2), true);
    }
}

#[test]
fn fermat_test_draws_more_than_one_number() {
    // For 4 only the number 1 meets the condition: drawing the same number
    // every time would give the same answer every time.
    let mut passed = 0;
    let mut failed = 0;
    for _ in 0..400 {
        if fermat_test(4) {
            passed += 1;
        } else {
            failed += 1;
        }
    }
    assert!(passed > 0);
    assert!(failed > 0);
}

#[test]
fn fast_prime_without_rounds_says_yes() {
    assert_eq!(fast_prime(4, 0), true);
    assert_eq!(fast_prime(0, 0), true);
}

#[test]
fn fast_prime_accepts_every_prime() {
    for n in [2usize, 3, 5, 7, 11, 13, 97, 101, 7919, 104729] {
        for _ in 0..20 {
            assert_eq!(fast_prime(n, 5), true, "{}", n);
        }
    }
}

#[test]
fn fast_prime_accepts_a_number_that_every_base_passes() {
    // 561 is not prime, yet every number below it meets Fermat's condition.
    for a in 1..561usize {
        assert_eq!(fermat_check(561, a), true);
    }
    for _ in 0..20 {
        assert_eq!(fast_prime(561, 5), true);
    }
    assert_eq!(prime_naive(561), false);
}
