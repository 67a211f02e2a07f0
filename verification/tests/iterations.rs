use linalg::dense::{identity, transpose};
use linalg::eigen::{eigenvalues, eigenvectors, settle, shift_diagonal};
use linalg::error::MatrixError;
use linalg::kernel::matrix_multiply;
use linalg::qr::{householder_reflection_qr, qr, settle_row_signs};
use linalg::svd::{
    chase_zero_diagonals, deflate, golub_kahan, make_non_negative, randomized_svd, sketch_columns,
    sweep, OVERSAMPLING,
};

fn mul_add(acc: f64, x: f64, y: f64) -> f64 {
    acc + x * y
}

fn reflect(x: f64, u: f64, s: f64) -> f64 {
    x - s * (2.0 * u)
}

fn normal(x: Vec<f64>) -> Option<Vec<f64>> {
    let norm = x.iter().map(|v| v * v).sum::<f64>().sqrt();
    let mut u = x.clone();
    u[0] += if x[0] < 0.0 { -norm } else { norm };
    let z = u.iter().map(|v| v * v).sum::<f64>().sqrt();
    if z > 0.0 {
        Some(u.iter().map(|v| v / z).collect())
    } else {
        None
    }
}

fn is_zero(x: f64) -> bool {
    x == 0.0
}

fn is_negative(x: f64) -> bool {
    x < 0.0
}

fn negate(x: f64) -> f64 {
    -x
}

fn rotation(x: f64, y: f64, flip: bool) -> (f64, f64) {
    let r = (x * x + y * y).sqrt();
    if r == 0.0 {
        (1.0, 0.0)
    } else if flip {
        (y / r, -x / r)
    } else {
        (x / r, -y / r)
    }
}

fn make(x: f64, y: f64) -> (f64, f64) {
    rotation(x, y, false)
}

fn make_flipped(x: f64, y: f64) -> (f64, f64) {
    rotation(x, y, true)
}

fn rotate(rot: (f64, f64), p: f64, q: f64) -> (f64, f64) {
    let (c, s) = rot;
    (c * p - s * q, s * p + c * q)
}

fn negligible(e: f64, d1: f64, d2: f64) -> bool {
    e.abs() < 1e-7 * (d1.abs() + d2.abs())
}

fn root(x: f64) -> f64 {
    if x > 0.0 {
        x.sqrt()
    } else {
        0.0
    }
}

fn shift(d1: f64, d2: f64, d3: f64, d4: f64) -> f64 {
    let a1 = d2 * d2 + d1 * d1;
    let a2 = d2 * d3;
    let a4 = d4 * d4 + d3 * d3;
    let b = -(a1 + a4);
    let c = a1 * a4 - a2 * a2;
    let v1 = (-b + root(b * b - 4.0 * c)) / 2.0;
    let v2 = (-b - root(b * b - 4.0 * c)) / 2.0;
    if (v1 - a4).abs() < (v2 - a4).abs() {
        v1
    } else {
        v2
    }
}

fn head(u: f64, v: f64, mu: f64) -> (f64, f64) {
    (u * u - mu, u * v)
}

fn shift_out(x: f64, s: f64) -> f64 {
    x - s
}

fn shift_in(x: f64, s: f64) -> f64 {
    x + s
}

fn settled(new: f64, old: f64) -> bool {
    !((new - old).abs() / new.abs() > 0.001)
}

/// A fixed sequence of samples of the standard normal distribution.
struct Noise(u64);

impl Noise {
    fn uniform(&mut self) -> f64 {
        self.0 = self
            .0
            .wrapping_mul(6364136223846793005)
            .wrapping_add(1442695040888963407);
        (((self.0 >> 11) as f64) + 0.5) / ((1u64 << 53) as f64)
    }

    fn normal(&mut self) -> f64 {
        let u = self.uniform();
        let v = self.uniform();
        (-2.0 * u.ln()).sqrt() * (2.0 * std::f64::consts::PI * v).cos()
    }

    fn buffer(&mut self, len: usize) -> Vec<f64> {
        (0..len).map(|_| self.normal()).collect()
    }
}

fn frobenius(a: &[f64]) -> f64 {
    a.iter().map(|v| v * v).sum::<f64>().sqrt()
}

fn distance(a: &[f64], b: &[f64]) -> f64 {
    assert_eq!(a.len(), b.len());
    let d: Vec<f64> = a.iter().zip(b.iter()).map(|(x, y)| x - y).collect();
    frobenius(&d)
}

fn product(a: &[f64], b: &[f64], n: usize, m: usize, p: usize) -> Vec<f64> {
    matrix_multiply(a, b, n, m, p, 0.0, mul_add)
}

/// A symmetric positive definite matrix: `a` times its transpose.
fn gram(noise: &mut Noise, n: usize) -> Vec<f64> {
    let a = noise.buffer(n * n);
    product(&a, &transpose(&a, n, n), n, n, n)
}

#[test]
fn householder_qr_has_a_non_negative_diagonal() {
    let mut noise = Noise(41);
    for (n, m) in [(3, 3), (7, 4)] {
        let a = noise.buffer(n * m);
        let (q, r, rows, inner, cols) = householder_reflection_qr(
            &a, n, m, 0.0, 1.0, normal, mul_add, reflect, is_negative, negate,
        );
        assert_eq!((rows, inner, cols), (n, n, m));
        for i in 0..m {
            assert!(r[i * m + i] >= 0.0);
        }
        let qtq = product(&transpose(&q, n, n), &q, n, n, n);
        assert!(distance(&qtq, &identity(n, 0.0, 1.0)) < 1e-10);
        assert!(distance(&product(&q, &r, n, n, m), &a) / frobenius(&a) < 1e-2);
        assert!(distance(&product(&q, &r, n, n, m), &a) / frobenius(&a) < 1e-10);
    }
}

#[test]
fn householder_qr_of_a_wide_matrix() {
    let n = 3;
    let m = 6;
    let mut noise = Noise(42);
    let a = noise.buffer(n * m);
    let (l, q, rows, inner, cols) = householder_reflection_qr(
        &a, n, m, 0.0, 1.0, normal, mul_add, reflect, is_negative, negate,
    );
    assert_eq!((rows, inner, cols), (n, m, m));
    for i in 0..n {
        assert!(l[i * m + i] >= 0.0);
    }
    let qtq = product(&transpose(&q, m, m), &q, m, m, m);
    assert!(distance(&qtq, &identity(m, 0.0, 1.0)) < 1e-10);
    assert!(distance(&product(&l, &q, n, m, m), &a) / frobenius(&a) < 1e-10);
}

#[test]
fn settle_row_signs_negates_rows_with_a_negative_diagonal() {
    let mut q = vec![1.0, 2.0, 3.0, 4.0];
    let mut r = vec![-1.0, 5.0, 0.0, 6.0];
    settle_row_signs(&mut q, &mut r, 2, 2, is_negative, negate);
    assert_eq!(r, vec![1.0, -5.0, 0.0, 6.0]);
    assert_eq!(q, vec![-1.0, -2.0, 3.0, 4.0]);
}

#[test]
fn reduced_qr_of_a_tall_matrix() {
    let n = 6;
    let m = 3;
    let mut noise = Noise(43);
    let a = noise.buffer(n * m);
    let (q, r) = qr(&a, n, m, 0.0, 1.0, make, rotate);
    assert_eq!(q.len(), n * m);
    assert_eq!(r.len(), m * m);
    let qtq = product(&transpose(&q, n, m), &q, m, n, m);
    assert!(distance(&qtq, &identity(m, 0.0, 1.0)) < 1e-10);
    assert!(distance(&product(&q, &r, n, m, m), &a) / frobenius(&a) < 1e-10);
    let (full_q, full_r) = qr(&a[..m * m], m, m, 0.0, 1.0, make, rotate);
    assert_eq!(full_q.len(), m * m);
    assert_eq!(full_r.len(), m * m);
}

#[test]
fn shift_diagonal_moves_the_diagonal_only() {
    let mut b = vec![1.0, 2.0, 3.0, 4.0];
    shift_diagonal(&mut b, 2, 4.0, shift_out);
    assert_eq!(b, vec![-3.0, 2.0, 3.0, 0.0]);
    shift_diagonal(&mut b, 2, 4.0, shift_in);
    assert_eq!(b, vec![1.0, 2.0, 3.0, 4.0]);
}

#[test]
fn settle_compares_the_diagonal_with_the_values_before() {
    let b = vec![1.0, 9.0, 9.0, 2.0];
    let mut values = vec![1.0, 2.5];
    assert!(!settle(&b, &mut values, 2, settled));
    assert_eq!(values, vec![1.0, 2.0]);
    assert!(settle(&b, &mut values, 2, settled));
    assert_eq!(values, vec![1.0, 2.0]);
}

#[test]
fn eigenvalues_of_a_diagonal_matrix() {
    let a = vec![3.0, 0.0, 0.0, 1.0];
    let values = eigenvalues(
        &a, 2, 0.0, 1.0, 1000, normal, mul_add, reflect, is_negative, negate, shift_out, shift_in,
        settled,
    )
    .unwrap();
    assert!((values[0] - 3.0).abs() < 1e-9);
    assert!((values[1] - 1.0).abs() < 1e-9);
}

#[test]
fn eigenvalues_of_a_symmetric_matrix() {
    // the eigenvalues of [[2, 1], [1, 3]] are (5 - sqrt 5) / 2 and (5 + sqrt 5) / 2
    let a = vec![2.0, 1.0, 1.0, 3.0];
    let mut values = eigenvalues(
        &a, 2, 0.0, 1.0, 10_000, normal, mul_add, reflect, is_negative, negate, shift_out,
        shift_in, settled,
    )
    .unwrap();
    values.sort_by(|x, y| x.partial_cmp(y).unwrap());
    let low = (5.0 - 5.0f64.sqrt()) / 2.0;
    let high = (5.0 + 5.0f64.sqrt()) / 2.0;
    assert!((values[0] - low).abs() / low < 2e-2);
    assert!((values[1] - high).abs() / high < 2e-2);
}

#[test]
fn a_shift_between_the_eigenvalues_stalls_the_iteration() {
    // with the shift 2 the matrix [[2, 1], [1, 2]] is its own successor, so
    // the diagonal settles at once, away from the eigenvalues 1 and 3
    let a = vec![2.0, 1.0, 1.0, 2.0];
    let values = eigenvalues(
        &a, 2, 0.0, 1.0, 10_000, normal, mul_add, reflect, is_negative, negate, shift_out,
        shift_in, settled,
    )
    .unwrap();
    assert!((values[0] - 2.0).abs() < 1e-9);
    assert!((values[1] - 2.0).abs() < 1e-9);
}

#[test]
fn eigenvectors_of_a_positive_definite_matrix() {
    let n = 5;
    let mut noise = Noise(44);
    let b = gram(&mut noise, n);
    let (values, vectors) = eigenvectors(
        &b, n, 0.0, 1.0, 100_000, normal, mul_add, reflect, is_negative, negate, settled,
    )
    .unwrap();
    let vtv = product(&transpose(&vectors, n, n), &vectors, n, n, n);
    assert!(distance(&vtv, &identity(n, 0.0, 1.0)) < 1e-8);
    let trace: f64 = (0..n).map(|i| b[i * n + i]).sum();
    assert!((values.iter().sum::<f64>() - trace).abs() / trace < 1e-9);
    // B v = lambda v, up to the tolerance at which the iteration stops
    let bv = product(&b, &vectors, n, n, n);
    for j in 0..n {
        assert!(values[j] > 0.0);
        let column: Vec<f64> = (0..n).map(|i| bv[i * n + j]).collect();
        let scaled: Vec<f64> = (0..n).map(|i| values[j] * vectors[i * n + j]).collect();
        assert!(distance(&column, &scaled) / frobenius(&b) < 0.1);
    }
    let mut shifted = eigenvalues(
        &b, n, 0.0, 1.0, 100_000, normal, mul_add, reflect, is_negative, negate, shift_out,
        shift_in, settled,
    )
    .unwrap();
    let mut plain = values.clone();
    shifted.sort_by(|x, y| x.partial_cmp(y).unwrap());
    plain.sort_by(|x, y| x.partial_cmp(y).unwrap());
    for i in 0..n {
        assert!((shifted[i] - plain[i]).abs() / plain[i] < 0.05);
    }
}

#[test]
fn eigen_iterations_report_when_they_run_out() {
    let a = vec![2.0, 1.0, 1.0, 2.0];
    let stalled = eigenvalues(
        &a, 2, 0.0, 1.0, 1, normal, mul_add, reflect, is_negative, negate, shift_out, shift_in,
        settled,
    );
    assert_eq!(stalled.err(), Some(MatrixError::DidNotConverge));
    let stalled = eigenvectors(
        &a, 2, 0.0, 1.0, 0, normal, mul_add, reflect, is_negative, negate, settled,
    );
    assert_eq!(stalled.err(), Some(MatrixError::DidNotConverge));
    let none: Vec<f64> = Vec::new();
    let empty = eigenvalues(
        &none, 0, 0.0, 1.0, 0, normal, mul_add, reflect, is_negative, negate, shift_out, shift_in,
        settled,
    );
    assert_eq!(empty, Ok(Vec::new()));
}

#[test]
fn deflate_zeroes_negligible_entries() {
    // 3 x 3 bidiagonal
    let mut b = vec![1.0, 1e-9, 0.0, 0.0, 2.0, 0.5, 0.0, 0.0, 3.0];
    let coupled = deflate(&mut b, 3, 0.0, negligible, is_zero);
    assert_eq!(coupled, vec![false, true]);
    assert_eq!(b, vec![1.0, 0.0, 0.0, 0.0, 2.0, 0.5, 0.0, 0.0, 3.0]);
    let mut one = vec![7.0];
    assert_eq!(deflate(&mut one, 1, 0.0, negligible, is_zero), Vec::<bool>::new());
}

#[test]
fn make_non_negative_flips_an_entry_and_its_row() {
    let mut b = vec![-2.0, 0.0, 0.0, 3.0];
    let mut u = vec![1.0, 2.0, 3.0, 4.0, 5.0, 6.0];
    make_non_negative(&mut b, &mut u, 2, 3, is_negative, negate);
    assert_eq!(b, vec![2.0, 0.0, 0.0, 3.0]);
    assert_eq!(u, vec![-1.0, -2.0, -3.0, 4.0, 5.0, 6.0]);
}

#[test]
fn a_step_keeps_the_product_of_the_factors() {
    // B = L^t . b . R^t stays the same while b changes
    let z = 3;
    let start = vec![1.0, 2.0, 0.0, 0.0, 3.0, 4.0, 0.0, 0.0, 5.0];
    let mut b = start.clone();
    let mut l = identity(z, 0.0, 1.0);
    let mut r = identity(z, 0.0, 1.0);
    golub_kahan(&mut b, &mut l, &mut r, z, z, z, 0, 2, 0.0, shift, head, make, rotate);
    let lb = product(&transpose(&l, z, z), &b, z, z, z);
    let back = product(&lb, &transpose(&r, z, z), z, z, z);
    assert!(distance(&back, &start) < 1e-12);
    for i in 0..z {
        for j in 0..z {
            if j != i && j != i + 1 {
                assert!(b[i * z + j].abs() < 1e-12);
            }
        }
    }
}

#[test]
fn chase_does_nothing_without_a_zero_diagonal_entry() {
    let start = vec![1.0, 2.0, 0.0, 0.0, 3.0, 4.0, 0.0, 0.0, 5.0];
    let mut b = start.clone();
    let mut u = identity(3, 0.0, 1.0);
    assert!(!chase_zero_diagonals(&mut b, &mut u, 3, 3, 0, 2, is_zero, make_flipped, rotate));
    assert_eq!(b, start);
    assert_eq!(u, identity(3, 0.0, 1.0));
}

#[test]
fn chase_clears_the_row_of_a_zero_diagonal_entry() {
    let start = vec![0.0, 2.0, 0.0, 0.0, 3.0, 4.0, 0.0, 0.0, 5.0];
    let mut b = start.clone();
    let mut u = identity(3, 0.0, 1.0);
    assert!(chase_zero_diagonals(&mut b, &mut u, 3, 3, 0, 2, is_zero, make_flipped, rotate));
    let back = product(&transpose(&u, 3, 3), &b, 3, 3, 3);
    assert!(distance(&back, &start) < 1e-12);
}

#[test]
fn sweep_of_a_diagonal_matrix_is_the_last() {
    let mut b = vec![1.0, 0.0, 0.0, 2.0];
    let mut u = identity(2, 0.0, 1.0);
    let mut v = identity(2, 0.0, 1.0);
    let done = sweep(
        &mut b, &mut u, &mut v, 2, 2, 2, 0.0, negligible, is_zero, shift, head, make,
        make_flipped, rotate,
    );
    assert!(done);
    assert_eq!(b, vec![1.0, 0.0, 0.0, 2.0]);
    let mut b = vec![1.0, 1.0, 0.0, 2.0];
    let done = sweep(
        &mut b, &mut u, &mut v, 2, 2, 2, 0.0, negligible, is_zero, shift, head, make,
        make_flipped, rotate,
    );
    assert!(!done);
}

#[test]
fn sketch_width_adds_the_oversampling() {
    assert_eq!(OVERSAMPLING, 10);
    assert_eq!(sketch_columns(3, 100), 13);
    assert_eq!(sketch_columns(3, 13), 13);
    assert_eq!(sketch_columns(3, 5), 5);
    assert_eq!(sketch_columns(usize::MAX, 5), 5);
    assert_eq!(sketch_columns(0, 0), 0);
}

#[test]
fn randomized_svd_reconstructs_a_matrix_of_low_rank() {
    let n = 40;
    let m = 30;
    let k = 3;
    let mut noise = Noise(45);
    let x = noise.buffer(n * k);
    let y = noise.buffer(k * m);
    let a = product(&x, &y, n, k, m);
    let l = sketch_columns(k, m);
    assert_eq!(l, k + OVERSAMPLING);
    let sketch = noise.buffer(m * l);
    let (u, s, vt) = randomized_svd(
        &a, &sketch, n, m, k, 0.0, 1.0, 10_000, normal, mul_add, reflect, negligible, is_zero,
        shift, head, make, make_flipped, rotate, is_negative, negate,
    )
    .unwrap();
    assert_eq!(u.len(), n * l);
    assert_eq!(s.len(), l * l);
    assert_eq!(vt.len(), l * m);
    let us = product(&u, &s, n, l, l);
    let usv = product(&us, &vt, n, l, m);
    assert!(distance(&usv, &a) / frobenius(&a) < 1e-8);
}
