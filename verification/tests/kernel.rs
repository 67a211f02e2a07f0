use linalg::dense::sub_mat;
use linalg::kernel::{
    dot_product, dot_product_simd, matrix_multiply, matrix_multiply_simd, matrix_multiply_simd_on_slices,
    matrix_multiply_simd_on_slices_left_vector, LANES,
};

fn mul_add(acc: f64, x: f64, y: f64) -> f64 {
    acc + x * y
}

/// A fixed sequence of numbers between -1 and 1.
struct Noise(u64);

impl Noise {
    fn next(&mut self) -> f64 {
        self.0 = self
            .0
            .wrapping_mul(6364136223846793005)
            .wrapping_add(1442695040888963407);
        ((self.0 >> 11) as f64) / ((1u64 << 53) as f64) * 2.0 - 1.0
    }

    fn buffer(&mut self, len: usize) -> Vec<f64> {
        (0..len).map(|_| self.next()).collect()
    }
}

#[test]
fn dot_product_sums_in_ascending_order() {
    let a = vec![1.0, 2.0, 3.0];
    let b = vec![4.0, -5.0, 6.0];
    assert_eq!(dot_product(&a, &b, 0.0, mul_add), 12.0);
    let none: Vec<f64> = Vec::new();
    assert_eq!(dot_product(&none, &b, 0.0, mul_add), 0.0);
    // the order shows where the rounding depends on it
    let x = vec![1e16, 1.0, -1e16];
    let ones = vec![1.0, 1.0, 1.0];
    assert_eq!(dot_product(&x, &ones, 0.0, mul_add), (1e16 + 1.0) - 1e16);
}

#[test]
fn dot_product_records_the_order_of_its_terms() {
    let a: Vec<u64> = vec![1, 2, 3];
    let b: Vec<u64> = vec![4, 5, 6];
    // every step appends the two digits of its term
    let trace = dot_product(&a, &b, 0, |acc, x, y| acc * 100 + x * 10 + y);
    assert_eq!(trace, 142536);
}

#[test]
fn matrix_multiply_small_product() {
    // (2 x 3) * (3 x 2)
    let a = vec![1.0, 2.0, 3.0, 4.0, 5.0, 6.0];
    let b = vec![7.0, 8.0, 9.0, 10.0, 11.0, 12.0];
    let expected = vec![58.0, 64.0, 139.0, 154.0];
    assert_eq!(matrix_multiply(&a, &b, 2, 3, 2, 0.0, mul_add), expected);
    assert_eq!(matrix_multiply_simd(&a, &b, 2, 3, 2, 0.0, mul_add), expected);
}

#[test]
fn matrix_multiply_with_an_empty_dimension() {
    let a: Vec<f64> = Vec::new();
    let b: Vec<f64> = vec![1.0, 2.0];
    assert_eq!(matrix_multiply(&a, &b, 0, 1, 2, 0.0, mul_add), Vec::<f64>::new());
    assert_eq!(matrix_multiply(&a, &a, 2, 0, 2, 0.0, mul_add), vec![0.0; 4]);
    assert_eq!(matrix_multiply_simd(&a, &a, 2, 0, 2, 0.0, mul_add), vec![0.0; 4]);
}

#[test]
fn blocked_product_is_bit_identical_to_plain_product() {
    let n: usize = 101;
    let m: usize = 511;
    let p: usize = 397;
    let mut noise = Noise(17);
    let inp1 = noise.buffer(n * m);
    let inp2 = noise.buffer(m * p);
    let prod1 = matrix_multiply_simd(&inp1, &inp2, n, m, p, 0.0, mul_add);
    let prod2 = matrix_multiply(&inp1, &inp2, n, m, p, 0.0, mul_add);
    assert!(prod1 == prod2, "Matrix multiplications results are different");
    for (x, y) in prod1.iter().zip(prod2.iter()) {
        assert_eq!(x.to_bits(), y.to_bits());
    }
}

#[test]
fn blocked_product_handles_widths_around_the_block_width() {
    let mut noise = Noise(3);
    for p in [1, LANES - 1, LANES, LANES + 1, 2 * LANES, 2 * LANES + 5] {
        let n = 3;
        let m = 4;
        let a = noise.buffer(n * m);
        let b = noise.buffer(m * p);
        assert_eq!(
            matrix_multiply_simd(&a, &b, n, m, p, 0.0, mul_add),
            matrix_multiply(&a, &b, n, m, p, 0.0, mul_add)
        );
    }
}

#[test]
fn product_of_windows_is_product_of_extracted_blocks() {
    let mut noise = Noise(5);
    let (n1, m1, n2, m2) = (6, 7, 8, 90);
    let a = noise.buffer(n1 * m1);
    let b = noise.buffer(n2 * m2);
    // rows 1..=4, columns 2..=5 of a (4 x 4); rows 3..=6, columns 10..=80 of b (4 x 71)
    let out = matrix_multiply_simd_on_slices(
        &a, &b, n1, m1, n2, m2, 1, 4, 2, 5, 3, 6, 10, 80, 0.0, mul_add,
    );
    let wa = sub_mat(&a, n1, m1, 1, 4, 2, 5);
    let wb = sub_mat(&b, n2, m2, 3, 6, 10, 80);
    assert_eq!(out, matrix_multiply(&wa, &wb, 4, 4, 71, 0.0, mul_add));
}

#[test]
fn product_of_windows_that_do_not_fit_is_zero() {
    let a = vec![1.0; 12];
    let b = vec![1.0; 12];
    // a 2 x 3 window times a 2 x 2 window
    let out =
        matrix_multiply_simd_on_slices(&a, &b, 3, 4, 3, 4, 0, 1, 0, 2, 0, 1, 0, 1, 0.0, mul_add);
    assert_eq!(out, vec![0.0; 4]);
}

#[test]
fn vector_times_window() {
    let u = vec![9.0, 1.0, 2.0, 9.0];
    // 3 x 3
    let b = vec![1.0, 2.0, 3.0, 4.0, 5.0, 6.0, 7.0, 8.0, 9.0];
    // elements 1..=2 of u times rows 1..=2, columns 0..=2 of b
    let out =
        matrix_multiply_simd_on_slices_left_vector(&u, &b, 3, 1, 2, 1, 2, 0, 2, 0.0, mul_add);
    assert_eq!(out, vec![18.0, 21.0, 24.0]);
    let none =
        matrix_multiply_simd_on_slices_left_vector(&u, &b, 3, 1, 3, 1, 2, 0, 2, 0.0, mul_add);
    assert_eq!(none, vec![0.0; 3]);
}

#[test]
fn blocked_dot_product_sums_block_by_block() {
    let a: Vec<u64> = (1..=130).collect();
    let ones: Vec<u64> = vec![1; 130];
    // every block is closed by a mark that shows where the block ended
    let trace = dot_product_simd(&a, &ones, 0, |acc, x, y| acc + x * y, |sum, block| {
        sum * 1_000_000 + block
    });
    let first: u64 = (1..=64).sum();
    let second: u64 = (65..=128).sum();
    let third: u64 = 129 + 130;
    assert_eq!(trace, (first * 1_000_000 + second) * 1_000_000 + third);
    let none: Vec<u64> = Vec::new();
    assert_eq!(dot_product_simd(&none, &ones, 7, |acc, x, y| acc + x * y, |s, b| s + b), 7);
}

#[test]
fn blocked_dot_product_is_close_to_the_ascending_one() {
    let n = 1234567;
    let mut noise = Noise(9);
    let inp1: Vec<f64> = (0..n).map(|_| 100.0 + 5.0 * noise.next()).collect();
    let inp2: Vec<f64> = (0..n).map(|_| 100.0 + 5.0 * noise.next()).collect();
    let dp1 = dot_product_simd(&inp1, &inp2, 0.0, mul_add, |sum, block| sum + block);
    let dp2 = dot_product(&inp1, &inp2, 0.0, mul_add);
    assert!(
        (dp1 - dp2).abs() / dp1.abs() <= 0.001,
        "Dot product results are more than 0.1% different"
    );
}

#[test]
fn product_of_windows_given_by_column_counts() {
    let mut noise = Noise(6);
    let (m, p) = (5, 70);
    let a = noise.buffer(4 * m);
    let b = noise.buffer(6 * p);
    // rows 1..=3, columns 0..=2 of a (3 x 3); rows 2..=4, columns 3..=69 of b (3 x 67)
    let out = linalg::kernel::matrix_multiply_simd_slices(
        &a, &b, 4, m, p, 1, 3, 0, 2, 2, 4, 3, 69, 0.0, mul_add,
    );
    let wa = sub_mat(&a, 4, m, 1, 3, 0, 2);
    let wb = sub_mat(&b, 6, p, 2, 4, 3, 69);
    assert_eq!(out, matrix_multiply(&wa, &wb, 3, 3, 67, 0.0, mul_add));
}
