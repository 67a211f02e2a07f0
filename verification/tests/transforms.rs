use linalg::dense::{identity, transpose};
use linalg::echelon::row_echelon;
use linalg::householder::{
    householder_reflection_bidiagonalization, householder_reflection_left_multiply,
    householder_reflection_right_multiply,
};
use linalg::kernel::matrix_multiply;
use linalg::reflection::{reflect_left, reflect_right};
use linalg::rotation::{givens_left_rotation_multiply, givens_right_rotation_multiply};
use linalg::rows::{normalize_row, reduce_row};

fn mul_add(acc: f64, x: f64, y: f64) -> f64 {
    acc + x * y
}

fn reflect(x: f64, u: f64, s: f64) -> f64 {
    x - s * (2.0 * u)
}

/// The unit normal of the reflection that takes `x` onto a multiple of the
/// first unit vector.
fn normal(x: Vec<f64>) -> Option<Vec<f64>> {
    let norm = x.iter().map(|v| v * v).sum::<f64>().sqrt();
    let mut u = x.clone();
    u[0] += if x[0] < 0.0 { -norm } else { norm };
    let z = u.iter().map(|v| v * v).sum::<f64>().sqrt();
    if z > 0.0 {
        Some(u.iter().map(|v| v / z).collect())
    } else {
        None
    }
}

/// A fixed sequence of samples of the standard normal distribution.
struct Noise(u64);

impl Noise {
    fn uniform(&mut self) -> f64 {
        self.0 = self
            .0
            .wrapping_mul(6364136223846793005)
            .wrapping_add(1442695040888963407);
        (((self.0 >> 11) as f64) + 0.5) / ((1u64 << 53) as f64)
    }

    fn normal(&mut self) -> f64 {
        let u = self.uniform();
        let v = self.uniform();
        (-2.0 * u.ln()).sqrt() * (2.0 * std::f64::consts::PI * v).cos()
    }

    fn buffer(&mut self, len: usize) -> Vec<f64> {
        (0..len).map(|_| self.normal()).collect()
    }
}

fn frobenius(a: &[f64]) -> f64 {
    a.iter().map(|v| v * v).sum::<f64>().sqrt()
}

fn distance(a: &[f64], b: &[f64]) -> f64 {
    assert_eq!(a.len(), b.len());
    let d: Vec<f64> = a.iter().zip(b.iter()).map(|(x, y)| x - y).collect();
    frobenius(&d)
}

fn assert_orthogonal(q: &[f64], n: usize) {
    let qtq = matrix_multiply(&transpose(q, n, n), q, n, n, n, 0.0, mul_add);
    assert!(distance(&qtq, &identity(n, 0.0, 1.0)) < 1e-10);
}

#[test]
fn rotation_of_rows_touches_two_rows_only() {
    // 3 x 3
    let mut a: Vec<i64> = (1..=9).collect();
    givens_left_rotation_multiply(&mut a, 3, 3, |p, q| (p + q, p - q), 2, 0, 0, 2, 1, 2);
    assert_eq!(a, vec![1, 2, 3, 4, 13, 15, 7, -3, -3]);
}

#[test]
fn rotation_of_columns_touches_two_columns_only() {
    // 3 x 3
    let mut a: Vec<i64> = (1..=9).collect();
    givens_right_rotation_multiply(&mut a, 3, 3, |p, q| (p + q, p - q), 0, 1, 1, 2, 0, 2);
    assert_eq!(a, vec![1, 2, 3, 9, -1, 6, 15, -1, 9]);
}

#[test]
fn rotation_by_a_quarter_turn() {
    let (c, s) = (0.0, 1.0);
    let mut a = vec![1.0, 2.0, 3.0, 4.0];
    givens_left_rotation_multiply(
        &mut a,
        2,
        2,
        |p: f64, q: f64| (c * p - s * q, s * p + c * q),
        1,
        0,
        0,
        1,
        0,
        1,
    );
    assert_eq!(a, vec![-3.0, -4.0, 1.0, 2.0]);
}

#[test]
fn normalize_row_rescales_one_row() {
    let mut a = vec![1.0, 2.0, 3.0, 4.0, 5.0, 6.0];
    normalize_row(&mut a, |x| x / 2.0, 3, 1);
    assert_eq!(a, vec![1.0, 2.0, 3.0, 2.0, 2.5, 3.0]);
}

#[test]
fn reduce_row_subtracts_a_multiple_of_another_row() {
    let mut a = vec![1.0, 2.0, 3.0, 4.0, 5.0, 6.0];
    let h = 4.0;
    reduce_row(&mut a, 3, 0, 1, |x, y| x - h * y);
    assert_eq!(a, vec![1.0, 2.0, 3.0, 0.0, -3.0, -6.0]);
    reduce_row(&mut a, 3, 0, 0, |x, y| x - 0.5 * y);
    assert_eq!(a, vec![0.5, 1.0, 1.5, 0.0, -3.0, -6.0]);
}

#[test]
fn reflection_from_the_left_of_a_block() {
    // 3 x 2, the block is the last two rows; the normal picks out the first of them
    let mut a = vec![1.0, 2.0, 3.0, 4.0, 5.0, 6.0];
    let u = vec![1.0, 0.0];
    reflect_left(&mut a, 3, 2, 1, 0, &u, 0.0, mul_add, reflect);
    assert_eq!(a, vec![1.0, 2.0, -3.0, -4.0, 5.0, 6.0]);
}

#[test]
fn reflection_from_the_right_of_a_block() {
    // 2 x 3, the block is the last two columns; the normal picks out the last one
    let mut a = vec![1.0, 2.0, 3.0, 4.0, 5.0, 6.0];
    let u = vec![0.0, 1.0];
    reflect_right(&mut a, 2, 3, 0, 1, &u, 0.0, mul_add, reflect);
    assert_eq!(a, vec![1.0, 2.0, -3.0, 4.0, 5.0, -6.0]);
}

#[test]
fn householder_qr_of_a_three_by_three_matrix() {
    let n = 3;
    let mut noise = Noise(21);
    let a = noise.buffer(n * n);
    let (q_t, r) =
        householder_reflection_left_multiply(&a, n, n, 0.0, 1.0, normal, mul_add, reflect);
    let q = transpose(&q_t, n, n);
    assert_orthogonal(&q, n);
    for i in 0..n {
        for j in 0..i {
            assert!(r[i * n + j].abs() < 1e-12);
        }
    }
    let qr = matrix_multiply(&q, &r, n, n, n, 0.0, mul_add);
    assert!(distance(&qr, &a) / frobenius(&a) < 1e-2);
    assert!(distance(&qr, &a) / frobenius(&a) < 1e-12);
}

#[test]
fn householder_qr_of_tall_and_wide_matrices() {
    let mut noise = Noise(22);
    for (n, m) in [(7, 4), (4, 7), (1, 5), (5, 1)] {
        let a = noise.buffer(n * m);
        let (q_t, r) =
            householder_reflection_left_multiply(&a, n, m, 0.0, 1.0, normal, mul_add, reflect);
        assert_eq!(q_t.len(), n * n);
        assert_eq!(r.len(), n * m);
        let q = transpose(&q_t, n, n);
        assert_orthogonal(&q, n);
        for i in 0..n {
            for j in 0..m.min(i) {
                assert!(r[i * m + j].abs() < 1e-12);
            }
        }
        let qr = matrix_multiply(&q, &r, n, n, m, 0.0, mul_add);
        assert!(distance(&qr, &a) / frobenius(&a) < 1e-12);
    }
}

#[test]
fn householder_passes_over_a_zero_column() {
    let a = vec![0.0, 1.0, 0.0, 2.0];
    let zero_safe = |x: Vec<f64>| {
        if x.iter().all(|v| *v == 0.0) {
            None
        } else {
            normal(x)
        }
    };
    let (q_t, r) = householder_reflection_left_multiply(&a, 2, 2, 0.0, 1.0, zero_safe, mul_add, reflect);
    let q = transpose(&q_t, 2, 2);
    assert_orthogonal(&q, 2);
    assert!(distance(&matrix_multiply(&q, &r, 2, 2, 2, 0.0, mul_add), &a) < 1e-12);
    assert_eq!(r[0], 0.0);
    assert_eq!(r[2], 0.0);
}

#[test]
fn reduction_from_the_right_leaves_two_elements_in_a_row() {
    let n = 4;
    let m = 6;
    let mut noise = Noise(23);
    let a = noise.buffer(n * m);
    let (q, r) =
        householder_reflection_right_multiply(&a, n, m, 0.0, 1.0, normal, mul_add, reflect);
    assert_orthogonal(&q, m);
    // row 0 keeps its first two elements only
    for j in 2..m {
        assert!(r[j].abs() < 1e-12);
    }
    let aq = matrix_multiply(&a, &q, n, m, m, 0.0, mul_add);
    assert!(distance(&aq, &r) < 1e-12);
}

#[test]
fn bidiagonalization_leaves_two_diagonals() {
    let mut noise = Noise(24);
    for (n, m) in [(5, 5), (6, 3), (3, 6)] {
        let a = noise.buffer(n * m);
        let (q_lt, b, q_rt) =
            householder_reflection_bidiagonalization(&a, n, m, 0.0, 1.0, normal, mul_add, reflect);
        assert_orthogonal(&q_lt, n);
        assert_orthogonal(&q_rt, m);
        for i in 0..n {
            for j in 0..m {
                if j != i && j != i + 1 {
                    assert!(b[i * m + j].abs() < 1e-12, "({i}, {j}) of {n} by {m}");
                }
            }
        }
        let qa = matrix_multiply(&q_lt, &a, n, n, m, 0.0, mul_add);
        let qaq = matrix_multiply(&qa, &q_rt, n, m, m, 0.0, mul_add);
        assert!(distance(&qaq, &b) < 1e-12);
    }
}

#[test]
fn row_echelon_of_a_small_matrix() {
    let mut a = vec![2.0, 4.0, 1.0, 5.0];
    row_echelon(
        &mut a,
        2,
        2,
        |x: f64| x == 0.0,
        |x: f64| x == 1.0,
        |x: f64, h: f64| x / h,
        |x: f64, h: f64, y: f64| x - h * y,
    );
    // row 0 is divided by 2, row 1 loses 1 times row 0, column 1 is divided by 3
    assert_eq!(a, vec![1.0, 2.0, 0.0, 1.0]);
    let mut zero_pivot = vec![0.0, 1.0, 3.0, 6.0];
    row_echelon(
        &mut zero_pivot,
        2,
        2,
        |x: f64| x == 0.0,
        |x: f64| x == 1.0,
        |x: f64, h: f64| x / h,
        |x: f64, h: f64, y: f64| x - h * y,
    );
    // rows 0 and 1 change places, and the new row 0 is divided by 3
    assert_eq!(zero_pivot, vec![1.0, 2.0, 0.0, 1.0]);
}
