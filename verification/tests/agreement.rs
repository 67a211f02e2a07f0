use linalg::dense;
use linalg::kernel::matrix_multiply;
use linalg::sparse::{add, convert_to_array, dot, mul, sub, transpose, SparseMatrix};

const EPS: f64 = 1e-10;

fn significant(x: f64) -> bool {
    x.abs() > EPS
}

fn stored(x: f64) -> Option<f64> {
    if significant(x) {
        Some(x)
    } else {
        None
    }
}

fn mul_add(acc: f64, x: f64, y: f64) -> f64 {
    acc + x * y
}

/// A fixed sequence of samples: uniform numbers, and normal ones by the
/// Box-Muller transform.
struct Noise(u64);

impl Noise {
    fn uniform(&mut self) -> f64 {
        self.0 = self
            .0
            .wrapping_mul(6364136223846793005)
            .wrapping_add(1442695040888963407);
        (((self.0 >> 11) as f64) + 0.5) / ((1u64 << 53) as f64)
    }

    fn normal(&mut self) -> f64 {
        let u = self.uniform();
        let v = self.uniform();
        (-2.0 * u.ln()).sqrt() * (2.0 * std::f64::consts::PI * v).cos()
    }

    /// An `n` by `m` matrix of normal samples of which about the fraction
    /// `sparsity` was set to zero.
    fn sparsified(&mut self, n: usize, m: usize, sparsity: f64) -> Vec<f64> {
        (0..n * m)
            .map(|_| {
                let x = self.normal();
                if self.uniform() < sparsity {
                    0.0
                } else {
                    x
                }
            })
            .collect()
    }
}

fn assert_close(sparse: &[f64], dense: &[f64]) {
    assert_eq!(sparse.len(), dense.len());
    for k in 0..dense.len() {
        assert!(
            (sparse[k] - dense[k]).abs() <= EPS,
            "cell {k}: {} and {}",
            sparse[k],
            dense[k]
        );
    }
}

#[test]
fn sparse_algebra_agrees_with_dense_algebra() {
    let n = 500;
    let m = 500;
    let mut noise = Noise(11);
    let a = noise.sparsified(n, m, 0.9);
    let b = noise.sparsified(n, m, 0.9);
    let sa = SparseMatrix::create(n, m, &a, significant).unwrap();
    let sb = SparseMatrix::create(n, m, &b, significant).unwrap();

    let sum = add(&sa, &sb, |x, y| stored(x + y)).unwrap();
    let dense_sum: Vec<f64> = (0..n * m).map(|k| a[k] + b[k]).collect();
    assert_close(&convert_to_array(&sum, 0.0), &dense_sum);

    let difference = sub(&sa, &sb, |x, y| stored(x - y), |y| -y).unwrap();
    let dense_difference: Vec<f64> = (0..n * m).map(|k| a[k] - b[k]).collect();
    assert_close(&convert_to_array(&difference, 0.0), &dense_difference);

    let product = mul(&sa, &sb, |x, y| stored(x * y)).unwrap();
    let dense_product: Vec<f64> = (0..n * m).map(|k| a[k] * b[k]).collect();
    assert_close(&convert_to_array(&product, 0.0), &dense_product);
}

#[test]
fn sparse_transpose_agrees_with_dense_transpose() {
    let n = 500;
    let m = 300;
    let mut noise = Noise(12);
    let a = noise.sparsified(n, m, 0.95);
    let sa = SparseMatrix::create(n, m, &a, significant).unwrap();
    let t = transpose(&sa);
    assert_eq!(t.nrow(), m);
    assert_eq!(t.ncol(), n);
    assert_eq!(convert_to_array(&t, 0.0), dense::transpose(&a, n, m));
    let back = transpose(&t);
    assert_eq!(back.keys(), sa.keys());
    assert_eq!(back.data(), sa.data());
}

#[test]
fn sparse_dot_agrees_with_dense_product() {
    let n = 120;
    let m = 90;
    let p = 70;
    let mut noise = Noise(13);
    let a = noise.sparsified(n, m, 0.8);
    let b = noise.sparsified(m, p, 0.8);
    let sa = SparseMatrix::create(n, m, &a, significant).unwrap();
    let sb = SparseMatrix::create(m, p, &b, significant).unwrap();
    let product = dot(&sa, &sb, 0.0, mul_add, significant).unwrap();
    let dense_product = matrix_multiply(&a, &b, n, m, p, 0.0, mul_add);
    assert_close(&convert_to_array(&product, 0.0), &dense_product);
    // a stored sum is the dense sum bit for bit
    for (t, key) in product.keys().iter().enumerate() {
        assert_eq!(product.data()[t].to_bits(), dense_product[*key].to_bits());
    }
}

#[test]
fn sparse_dot_of_very_sparse_matrices_matches_dense_product() {
    let n = 500;
    let m = 500;
    let mut noise = Noise(14);
    let a = noise.sparsified(n, m, 0.998);
    let b = noise.sparsified(m, n, 0.998);
    let sa = SparseMatrix::create(n, m, &a, significant).unwrap();
    let sb = SparseMatrix::create(m, n, &b, significant).unwrap();
    assert!(sa.keys().len() > 0 && sa.keys().len() < n * m / 100);
    let product = dot(&sa, &sb, 0.0, mul_add, significant).unwrap();
    let dense_product = matrix_multiply(&a, &b, n, m, n, 0.0, mul_add);
    assert!(product.keys().len() > 0);
    for (t, key) in product.keys().iter().enumerate() {
        assert!((product.data()[t] - dense_product[*key]).abs() <= EPS);
    }
    assert_close(&convert_to_array(&product, 0.0), &dense_product);
}
