use sicp::derivative::Algebra;

fn constant(i: isize) -> Algebra {
    Algebra::Constant(i)
}

fn var(s: &str) -> Algebra {
    Algebra::Variable(s.to_string())
}

#[test]
fn constant_derivative() {
    assert_eq!(constant(10).derive("x"), constant(0));
}

#[test]
fn variable_differs() {
    let a = var("y");
    assert_eq!(a.derive("x"), constant(0));
}

#[test]
fn variable_same() {
    let a = var("x");
    assert_eq!(a.derive("x"), constant(1));
}

#[test]
fn sum() {
    let a = var("x") + constant(15);
    assert_eq!(a.derive("x"), constant(1));
}

#[test]
fn product() {
    let y = var("y");
    let a = var("x") * y.clone();
    assert_eq!(a.derive("x"), y);
}

#[test]
fn mixed() {
    let a = (var("x") * var("y")) * (var("x") + constant(3));
    assert_eq!(
        a.derive("x"),
        (var("x") * var("y")) + (var("y") * (var("x") + constant(3))),
    );
}

#[test]
fn power() {
    let a = Algebra::new_power(var("x"), constant(3));
    assert_eq!(a.derive("x"), constant(3) * Algebra::new_power(var("x"), constant(2)));
}

#[test]
fn power2() {
    let a = Algebra::new_power(var("x"), var("y"));
    assert_eq!(
        a.derive("x"),
        var("y") * Algebra::new_power(var("x"), var("y") + constant(-1))
    );
}

#[test]
fn sums_are_simplified() {
    assert_eq!(Algebra::new_sum(constant(2), constant(3)), constant(5));
    assert_eq!(Algebra::new_sum(constant(0), var("x")), var("x"));
    assert_eq!(Algebra::new_sum(var("x"), constant(0)), var("x"));
    assert_eq!(
        Algebra::new_sum(var("x"), constant(1)),
        Algebra::Sum(Box::new(var("x")), Box::new(constant(1)))
    );
}

#[test]
fn products_are_simplified() {
    assert_eq!(Algebra::new_product(constant(2), constant(3)), constant(6));
    assert_eq!(Algebra::new_product(constant(0), var("x")), constant(0));
    assert_eq!(Algebra::new_product(var("x"), constant(0)), constant(0));
    assert_eq!(Algebra::new_product(constant(1), var("x")), var("x"));
    assert_eq!(Algebra::new_product(var("x"), constant(1)), var("x"));
    assert_eq!(
        Algebra::new_product(var("x"), constant(2)),
        Algebra::Product(Box::new(var("x")), Box::new(constant(2)))
    );
}

#[test]
fn powers_are_simplified() {
    assert_eq!(Algebra::new_power(var("x"), constant(0)), constant(1));
    assert_eq!(Algebra::new_power(var("x"), constant(1)), var("x"));
    assert_eq!(
        Algebra::new_power(var("x"), constant(2)),
        Algebra::Power(Box::new(var("x")), Box::new(constant(2)))
    );
}

#[test]
fn square_derives_to_twice_the_base() {
    let a = Algebra::Power(Box::new(var("x")), Box::new(constant(2)));
    assert_eq!(
        a.derive("x"),
        Algebra::Product(Box::new(constant(2)), Box::new(var("x")))
    );
    assert_eq!(a.clone(), a);
}
