use linalg::dense::{identity, transpose};
use linalg::error::MatrixError;
use linalg::givens::givens_rotation_qr;
use linalg::kernel::matrix_multiply;
use linalg::lu::{lu_decomposition, pivot_row};
use linalg::solve::{backward_sub, forward_sub, inverse, solve};
use linalg::svd::golub_reisch_svd;

fn mul_add(acc: f64, x: f64, y: f64) -> f64 {
    acc + x * y
}

fn reflect(x: f64, u: f64, s: f64) -> f64 {
    x - s * (2.0 * u)
}

fn normal(x: Vec<f64>) -> Option<Vec<f64>> {
    let norm = x.iter().map(|v| v * v).sum::<f64>().sqrt();
    let mut u = x.clone();
    u[0] += if x[0] < 0.0 { -norm } else { norm };
    let z = u.iter().map(|v| v * v).sum::<f64>().sqrt();
    if z > 0.0 {
        Some(u.iter().map(|v| v / z).collect())
    } else {
        None
    }
}

fn greater(x: f64, best: f64) -> bool {
    x > best
}

fn is_zero(x: f64) -> bool {
    x == 0.0
}

fn divide(x: f64, pivot: f64) -> f64 {
    x / pivot
}

fn eliminate(x: f64, h: f64, y: f64) -> f64 {
    x - h * y
}

fn finish(b: f64, p: f64, d: f64) -> f64 {
    (b - p) / d
}

fn rotation(x: f64, y: f64, flip: bool) -> (f64, f64) {
    let r = (x * x + y * y).sqrt();
    if r == 0.0 {
        (1.0, 0.0)
    } else if flip {
        (y / r, -x / r)
    } else {
        (x / r, -y / r)
    }
}

fn make(x: f64, y: f64) -> (f64, f64) {
    rotation(x, y, false)
}

fn make_flipped(x: f64, y: f64) -> (f64, f64) {
    rotation(x, y, true)
}

fn rotate(rot: (f64, f64), p: f64, q: f64) -> (f64, f64) {
    let (c, s) = rot;
    (c * p - s * q, s * p + c * q)
}

fn negligible(e: f64, d1: f64, d2: f64) -> bool {
    e.abs() < 1e-7 * (d1.abs() + d2.abs())
}

fn root(x: f64) -> f64 {
    if x > 0.0 {
        x.sqrt()
    } else {
        0.0
    }
}

fn shift(d1: f64, d2: f64, d3: f64, d4: f64) -> f64 {
    let a1 = d2 * d2 + d1 * d1;
    let a2 = d2 * d3;
    let a4 = d4 * d4 + d3 * d3;
    let b = -(a1 + a4);
    let c = a1 * a4 - a2 * a2;
    let v1 = (-b + root(b * b - 4.0 * c)) / 2.0;
    let v2 = (-b - root(b * b - 4.0 * c)) / 2.0;
    if (v1 - a4).abs() < (v2 - a4).abs() {
        v1
    } else {
        v2
    }
}

fn head(u: f64, v: f64, mu: f64) -> (f64, f64) {
    (u * u - mu, u * v)
}

fn is_negative(x: f64) -> bool {
    x < 0.0
}

fn negate(x: f64) -> f64 {
    -x
}

/// A fixed sequence of samples of the standard normal distribution.
struct Noise(u64);

impl Noise {
    fn uniform(&mut self) -> f64 {
        self.0 = self
            .0
            .wrapping_mul(6364136223846793005)
            .wrapping_add(1442695040888963407);
        (((self.0 >> 11) as f64) + 0.5) / ((1u64 << 53) as f64)
    }

    fn normal(&mut self) -> f64 {
        let u = self.uniform();
        let v = self.uniform();
        (-2.0 * u.ln()).sqrt() * (2.0 * std::f64::consts::PI * v).cos()
    }

    fn buffer(&mut self, len: usize) -> Vec<f64> {
        (0..len).map(|_| self.normal()).collect()
    }
}

fn frobenius(a: &[f64]) -> f64 {
    a.iter().map(|v| v * v).sum::<f64>().sqrt()
}

fn distance(a: &[f64], b: &[f64]) -> f64 {
    assert_eq!(a.len(), b.len());
    let d: Vec<f64> = a.iter().zip(b.iter()).map(|(x, y)| x - y).collect();
    frobenius(&d)
}

fn product(a: &[f64], b: &[f64], n: usize, m: usize, p: usize) -> Vec<f64> {
    matrix_multiply(a, b, n, m, p, 0.0, mul_add)
}

fn lu(a: &[f64], n: usize, m: usize) -> (Vec<f64>, Vec<f64>, Vec<f64>) {
    lu_decomposition(a, n, m, 0.0, 1.0, f64::MIN, greater, is_zero, divide, eliminate)
}

fn svd(a: &[f64], n: usize, m: usize) -> Result<(Vec<f64>, Vec<f64>, Vec<f64>), MatrixError> {
    golub_reisch_svd(
        a, n, m, 0.0, 1.0, 10_000, normal, mul_add, reflect, negligible, is_zero, shift, head,
        make, make_flipped, rotate, is_negative, negate,
    )
}

#[test]
fn pivot_row_is_the_row_of_the_largest_value() {
    // 4 x 2, column 1 from row 1 on: 5, -7, 6
    let u = vec![0.0, 9.0, 0.0, 5.0, 0.0, -7.0, 0.0, 6.0];
    assert_eq!(pivot_row(&u, 4, 2, 1, f64::MIN, greater), 3);
    // column 0 from row 0 on: all equal, the first one wins
    assert_eq!(pivot_row(&u, 4, 2, 0, f64::MIN, greater), 0);
}

#[test]
fn lu_of_a_small_matrix() {
    // the pivot of column 0 is 4 in row 1
    let a = vec![2.0, 1.0, 4.0, 3.0];
    let (p, l, u) = lu(&a, 2, 2);
    assert_eq!(p, vec![0.0, 1.0, 1.0, 0.0]);
    assert_eq!(l, vec![1.0, 0.0, 0.5, 1.0]);
    assert_eq!(u, vec![4.0, 3.0, 0.0, -0.5]);
}

#[test]
fn lu_reconstructs_the_permuted_matrix() {
    let mut noise = Noise(31);
    for (n, m) in [(6, 6), (9, 5), (40, 17)] {
        let a = noise.buffer(n * m);
        let (p, l, u) = lu(&a, n, m);
        assert_eq!(p.len(), n * n);
        assert_eq!(l.len(), n * n);
        assert_eq!(u.len(), n * m);
        let pa = product(&p, &a, n, n, m);
        let lu = product(&l, &u, n, n, m);
        assert!(distance(&pa, &lu) / frobenius(&a) < 1e-2);
        assert!(distance(&pa, &lu) / frobenius(&a) < 1e-9);
        // the permutation has one 1 in every row and column
        for i in 0..n {
            assert_eq!((0..n).map(|j| p[i * n + j]).sum::<f64>(), 1.0);
            assert_eq!((0..n).map(|j| p[j * n + i]).sum::<f64>(), 1.0);
        }
        // the factors are triangular
        for i in 0..n {
            assert_eq!(l[i * n + i], 1.0);
            for j in i + 1..n {
                assert_eq!(l[i * n + j], 0.0);
            }
            for j in 0..m.min(i) {
                assert!(u[i * m + j].abs() < 1e-9);
            }
        }
    }
}

#[test]
fn forward_and_backward_substitution() {
    // L = [2 0; 3 4], b = [2, 11]  ->  x = [1, 2]
    let l = vec![2.0, 0.0, 3.0, 4.0];
    assert_eq!(forward_sub(&l, &[2.0, 11.0], 2, 0.0, mul_add, finish), vec![1.0, 2.0]);
    // U = [2 3; 0 4], b = [8, 8]  ->  x = [1, 2]
    let u = vec![2.0, 3.0, 0.0, 4.0];
    assert_eq!(backward_sub(&u, &[8.0, 8.0], 2, 0.0, mul_add, finish), vec![1.0, 2.0]);
    let none: Vec<f64> = Vec::new();
    assert_eq!(forward_sub(&none, &none, 0, 0.0, mul_add, finish), none);
    assert_eq!(backward_sub(&none, &none, 0, 0.0, mul_add, finish), none);
}

#[test]
fn solve_recovers_the_right_hand_side() {
    let n = 30;
    let mut noise = Noise(32);
    let a = noise.buffer(n * n);
    let b = noise.buffer(n);
    let x = solve(
        &a, &b, n, 0.0, 1.0, f64::MIN, greater, is_zero, divide, eliminate, mul_add, finish,
    );
    let ax = product(&a, &x, n, n, 1);
    assert!(distance(&ax, &b) / frobenius(&b) < 1e-8);
}

#[test]
fn inverse_times_matrix_is_the_identity() {
    let n = 12;
    let mut noise = Noise(33);
    let a = noise.buffer(n * n);
    let inv = inverse(
        &a, n, 0.0, 1.0, f64::MIN, greater, is_zero, divide, eliminate, mul_add, finish,
    );
    let eye = identity(n, 0.0, 1.0);
    assert!(distance(&product(&a, &inv, n, n, n), &eye) < 1e-8);
    assert!(distance(&product(&inv, &a, n, n, n), &eye) < 1e-8);
}

#[test]
fn givens_qr_of_a_tall_matrix() {
    let mut noise = Noise(34);
    for (n, m) in [(3, 3), (8, 5), (5, 1)] {
        let a = noise.buffer(n * m);
        let (q, r, rows, inner, cols) = givens_rotation_qr(&a, n, m, 0.0, 1.0, make, rotate);
        assert_eq!((rows, inner, cols), (n, n, m));
        let qtq = product(&transpose(&q, n, n), &q, n, n, n);
        assert!(distance(&qtq, &identity(n, 0.0, 1.0)) < 1e-10);
        for i in 0..n {
            for j in 0..m.min(i) {
                assert!(r[i * m + j].abs() < 1e-10);
            }
        }
        let qr = product(&q, &r, n, n, m);
        assert!(distance(&qr, &a) / frobenius(&a) < 1e-2);
        assert!(distance(&qr, &a) / frobenius(&a) < 1e-10);
    }
}

#[test]
fn givens_qr_of_a_wide_matrix() {
    let n = 4;
    let m = 7;
    let mut noise = Noise(35);
    let a = noise.buffer(n * m);
    let (l, q, rows, inner, cols) = givens_rotation_qr(&a, n, m, 0.0, 1.0, make, rotate);
    assert_eq!((rows, inner, cols), (n, m, m));
    let qtq = product(&transpose(&q, m, m), &q, m, m, m);
    assert!(distance(&qtq, &identity(m, 0.0, 1.0)) < 1e-10);
    for i in 0..n {
        for j in i + 1..m {
            assert!(l[i * m + j].abs() < 1e-10);
        }
    }
    let lq = product(&l, &q, n, m, m);
    assert!(distance(&lq, &a) / frobenius(&a) < 1e-10);
}

fn assert_svd(a: &[f64], n: usize, m: usize) {
    let r = n.min(m);
    let (u, s, vt) = svd(a, n, m).unwrap();
    assert_eq!(u.len(), n * r);
    assert_eq!(s.len(), r * r);
    assert_eq!(vt.len(), r * m);
    for i in 0..r {
        for j in 0..r {
            if i == j {
                assert!(s[i * r + j] >= 0.0);
            } else {
                assert!(s[i * r + j].abs() < 1e-6, "({i}, {j}): {}", s[i * r + j]);
            }
        }
    }
    let us = product(&u, &s, n, r, r);
    let usv = product(&us, &vt, n, r, m);
    for k in 0..n * m {
        assert!((usv[k] - a[k]).abs() < 1e-5, "cell {k}: {} and {}", usv[k], a[k]);
    }
    let utu = product(&transpose(&u, n, r), &u, r, n, r);
    assert!(distance(&utu, &identity(r, 0.0, 1.0)) < 1e-8);
    let vvt = product(&vt, &transpose(&vt, r, m), r, m, r);
    assert!(distance(&vvt, &identity(r, 0.0, 1.0)) < 1e-8);
}

#[test]
fn svd_of_a_five_by_five_matrix() {
    let mut noise = Noise(36);
    let a = noise.buffer(25);
    assert_svd(&a, 5, 5);
}

#[test]
fn svd_of_tall_and_wide_matrices() {
    let mut noise = Noise(37);
    for (n, m) in [(9, 4), (4, 9), (30, 30), (1, 1), (6, 1), (1, 6)] {
        let a = noise.buffer(n * m);
        assert_svd(&a, n, m);
    }
}

#[test]
fn svd_of_a_matrix_of_low_rank() {
    let n = 8;
    let m = 6;
    let k = 2;
    let mut noise = Noise(38);
    let x = noise.buffer(n * k);
    let y = noise.buffer(k * m);
    let a = product(&x, &y, n, k, m);
    assert_svd(&a, n, m);
    let (_, s, _) = svd(&a, n, m).unwrap();
    let large = (0..m).filter(|i| s[i * m + i] > 1e-6).count();
    assert_eq!(large, k);
}

#[test]
fn svd_of_an_empty_matrix() {
    let none: Vec<f64> = Vec::new();
    let (u, s, vt) = svd(&none, 0, 3).unwrap();
    assert!(u.is_empty() && s.is_empty() && vt.is_empty());
}

#[test]
fn svd_without_sweeps_does_not_converge() {
    let a = vec![1.0, 2.0, 3.0, 4.0];
    let stalled = golub_reisch_svd(
        &a, 2, 2, 0.0, 1.0, 0, normal, mul_add, reflect, negligible, is_zero, shift, head, make,
        make_flipped, rotate, is_negative, negate,
    );
    assert_eq!(stalled.err(), Some(MatrixError::DidNotConverge));
}

#[test]
fn lu_with_a_zero_pivot_has_factors_that_are_not_finite() {
    // the largest element of column 0 is the zero in row 0, so the
    // elimination of the -1 below it divides by zero
    let a = vec![0.0, 1.0, -1.0, 0.0];
    let (p, l, u) = lu(&a, 2, 2);
    assert_eq!(p, vec![1.0, 0.0, 0.0, 1.0]);
    assert!(l.iter().chain(u.iter()).any(|x| !x.is_finite()));
}

#[test]
fn lu_of_a_wide_matrix_has_a_step_for_every_row() {
    // 2 x 3: the pivot of column 0 is the 4 in row 1
    let a = vec![2.0, 1.0, 1.0, 4.0, 3.0, 1.0];
    let (p, l, u) = lu(&a, 2, 3);
    assert_eq!(p, vec![0.0, 1.0, 1.0, 0.0]);
    assert_eq!(l, vec![1.0, 0.0, 0.5, 1.0]);
    assert_eq!(u, vec![4.0, 3.0, 1.0, 0.0, -0.5, 0.5]);
}

#[test]
fn svd_of_a_matrix_with_a_zero_column() {
    let n = 5;
    let m = 4;
    let mut noise = Noise(39);
    let mut a = noise.buffer(n * m);
    for i in 0..n {
        a[i * m + 1] = 0.0;
    }
    assert_svd(&a, n, m);
    let (_, s, _) = svd(&a, n, m).unwrap();
    let large = (0..m).filter(|i| s[i * m + i] > 1e-6).count();
    assert_eq!(large, m - 1);
}

#[test]
fn svd_of_a_diagonal_matrix_with_a_zero_entry() {
    let a = vec![3.0, 0.0, 0.0, 0.0, 0.0, 0.0, 0.0, 0.0, 2.0];
    assert_svd(&a, 3, 3);
}
