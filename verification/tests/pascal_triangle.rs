use sicp::pascal_triangle::{make_row, pascal_triangle, triangle};

#[test]
fn triangle1() {
    assert_eq!(triangle(1), vec![vec![1]]);
    assert_eq!(
        pascal_triangle(1),
        "
1"
    );
}

#[test]
fn triangle2() {
    assert_eq!(triangle(2), vec![vec![1], vec![1, 1]]);
    assert_eq!(
        pascal_triangle(2),
        "
.1
1.1"
    );
}

#[test]
fn triangle3() {
    assert_eq!(triangle(3), vec![vec![1], vec![1, 1], vec![1, 2, 1]]);
    assert_eq!(
        pascal_triangle(3),
        "
..1
.1.1
1.2.1"
    );
}

#[test]
fn triangle4() {
    assert_eq!(triangle(4), vec![vec![1], vec![1, 1], vec![1, 2, 1], vec![1, 3, 3, 1]]);
    assert_eq!(
        pascal_triangle(4),
        "
...1
..1.1
.1.2.1
1.3.3.1"
    );
}

#[test]
fn triangle5() {
    assert_eq!(
        triangle(5),
        vec![vec![1], vec![1, 1], vec![1, 2, 1], vec![1, 3, 3, 1], vec![1, 4, 6, 4, 1]]
    );
    assert_eq!(
        pascal_triangle(5),
        "
....1
...1.1
..1.2.1
.1.3.3.1
1.4.6.4.1"
    );
}

#[test]
fn triangle_without_rows() {
    assert_eq!(triangle(0), Vec::<Vec<usize>>::new());
    assert_eq!(pascal_triangle(0), "\n");
}

#[test]
fn numbers_of_several_digits() {
    let text = pascal_triangle(6);
    assert!(text.ends_with("\n1.5.10.10.5.1"));
    assert_eq!(make_row(&vec![1, 5, 10, 10, 5, 1]), vec![1, 6, 15, 20, 15, 6, 1]);
    assert_eq!(make_row(&vec![1]), vec![1, 1]);
}
