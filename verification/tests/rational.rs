use sicp::rational::Rational;

#[test]
fn make() {
    let r1 = Rational::new(-1, -2);
    assert_eq!(r1, Rational::new(-1, 2));
}

#[test]
fn make_gcd() {
    let r1 = Rational::new(4, 16);
    assert_eq!(r1, Rational::new(1, 4));
}

#[test]
fn rational_add() {
    let r1 = Rational::new(1, 2);
    let r2 = Rational::new(1, 4);
    assert_eq!(r1 + r2, Rational::new(3, 4));
}

#[test]
fn rational_subtract() {
    let r1 = Rational::new(1, 2);
    let r2 = Rational::new(1, 4);
    assert_eq!(r1 - r2, Rational::new(1, 4));
}

#[test]
fn reduced_parts() {
    assert_eq!(Rational::new(4, 16), Rational { numerator: 1, denominator: 4 });
    assert_eq!(Rational::new(-1, -2), Rational { numerator: -1, denominator: 2 });
    assert_eq!(Rational::new(4, -2), Rational { numerator: -2, denominator: 1 });
    assert_eq!(Rational::new(0, 5), Rational { numerator: 0, denominator: 1 });
    assert_eq!(Rational::new(6, 0), Rational { numerator: 1, denominator: 0 });
    assert_eq!(Rational::new(-6, 4), Rational { numerator: -3, denominator: 2 });
}
