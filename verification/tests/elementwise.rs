use linalg::elementwise::{add, mul_const, mul_sub_const, norm, sub};
use linalg::rotation::{givens_left_rotation, givens_right_rotation};
use linalg::sparse::SparseMatrix;
use linalg::svd::eigenvalue_bidiagonal;

fn mul_add(acc: f64, x: f64, y: f64) -> f64 {
    acc + x * y
}

fn plus(x: f64, y: f64) -> f64 {
    x + y
}

#[test]
fn dense_add_sub_and_scale() {
    let a = vec![1.0, 2.0, 3.0, 9.0];
    let b = vec![4.0, -5.0, 6.0];
    assert_eq!(add(&a, &b, 3, plus), vec![5.0, -3.0, 9.0]);
    assert_eq!(sub(&a, &b, 3, |x, y| x - y), vec![-3.0, 7.0, -3.0]);
    assert_eq!(mul_const(&a, 2.0, 2, |x, c| x * c), vec![2.0, 4.0]);
    assert_eq!(add(&a, &b, 0, plus), Vec::<f64>::new());
}

#[test]
fn mul_sub_const_updates_a_prefix() {
    let inp = vec![1.0, 2.0, 3.0];
    let mut out = vec![10.0, 10.0, 10.0];
    mul_sub_const(&inp, &mut out, 2.0, 2, |o, e, c| o - e * c);
    assert_eq!(out, vec![8.0, 6.0, 10.0]);
}

#[test]
fn norm_of_a_dense_buffer() {
    let a = vec![3.0, 4.0, 100.0];
    assert_eq!(norm(&a, 2, 0.0, mul_add, plus, f64::sqrt), 5.0);
    assert_eq!(norm(&a, 0, 0.0, mul_add, plus, f64::sqrt), 0.0);
    let long: Vec<f64> = vec![1.0; 200];
    assert!((norm(&long, 200, 0.0, mul_add, plus, f64::sqrt) - 200.0f64.sqrt()).abs() < 1e-12);
}

#[test]
fn norm_of_a_sparse_matrix() {
    let m = SparseMatrix::new(2, 2, vec![0, 3], vec![3.0, 4.0]).unwrap();
    assert_eq!(linalg::sparse::norm(&m, 0.0, mul_add, plus, f64::sqrt), 5.0);
}

#[test]
fn rotations_are_made_from_neighbouring_elements() {
    // 2 x 3
    let a: Vec<i64> = vec![1, 2, 3, 4, 5, 6];
    let pair = |x: i64, y: i64, flip: bool| if flip { (y, x) } else { (x, y) };
    assert_eq!(givens_left_rotation(&a, 2, 3, 1, 2, false, pair), (3, 6));
    assert_eq!(givens_left_rotation(&a, 2, 3, 1, 0, true, pair), (4, 1));
    assert_eq!(givens_right_rotation(&a, 2, 3, 1, 2, false, pair), (5, 6));
    assert_eq!(givens_right_rotation(&a, 2, 3, 0, 1, true, pair), (2, 1));
}

#[test]
fn shift_reads_the_end_of_its_block() {
    // 3 x 3 bidiagonal
    let a: Vec<i64> = vec![1, 2, 0, 0, 3, 4, 0, 0, 5];
    let list = |d1: i64, d2: i64, d3: i64, d4: i64| ((d1 * 10 + d2) * 10 + d3) * 10 + d4;
    assert_eq!(eigenvalue_bidiagonal(&a, 3, 3, 0, 2, 0, 2, 0, list), 2345);
    assert_eq!(eigenvalue_bidiagonal(&a, 3, 3, 0, 1, 0, 1, 0, list), 123);
    assert_eq!(eigenvalue_bidiagonal(&a, 3, 3, 0, 0, 0, 0, 9, list), 9991);
    assert_eq!(eigenvalue_bidiagonal(&a, 3, 3, 0, 2, 0, 1, 0, list), 123);
}
