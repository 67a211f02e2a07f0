use linalg::error::MatrixError;
use linalg::sparse::{
    add, convert_to_array, copy, dot, get_sub_mat, identity, loc, mul, mul_const, sub, transpose,
    vstack, SparseMatrix,
};

const EPS: f64 = 1e-10;

fn significant(x: f64) -> bool {
    x.abs() > EPS
}

fn stored(x: f64) -> Option<f64> {
    if significant(x) {
        Some(x)
    } else {
        None
    }
}

fn from_dense(nrow: usize, ncol: usize, dense: &[f64]) -> SparseMatrix<f64> {
    SparseMatrix::create(nrow, ncol, dense, significant).unwrap()
}

#[test]
fn create_drops_negligible_elements() {
    let dense = vec![1.0, 0.0, 5e-11, -2.0, 0.0, 3.5];
    let m = from_dense(2, 3, &dense);
    assert_eq!(m.nrow(), 2);
    assert_eq!(m.ncol(), 3);
    assert_eq!(m.keys(), &vec![0usize, 3, 5]);
    assert_eq!(m.data(), &vec![1.0, -2.0, 3.5]);
}

#[test]
fn create_rejects_wrong_buffer_length() {
    let dense = vec![1.0, 2.0, 3.0];
    let r = SparseMatrix::create(2, 2, &dense, significant);
    assert_eq!(r.err(), Some(MatrixError::DimensionMismatch));
}

#[test]
fn new_checks_its_parts() {
    assert!(SparseMatrix::new(2, 2, vec![0, 3], vec![1.0, 2.0]).is_ok());
    assert_eq!(
        SparseMatrix::new(2, 2, vec![0, 3], vec![1.0]).err(),
        Some(MatrixError::DimensionMismatch)
    );
    assert_eq!(
        SparseMatrix::new(2, 2, vec![3, 0], vec![1.0, 2.0]).err(),
        Some(MatrixError::UnorderedKeys)
    );
    assert_eq!(
        SparseMatrix::new(2, 2, vec![1, 1], vec![1.0, 2.0]).err(),
        Some(MatrixError::UnorderedKeys)
    );
    assert_eq!(
        SparseMatrix::new(2, 2, vec![0, 4], vec![1.0, 2.0]).err(),
        Some(MatrixError::UnorderedKeys)
    );
    assert_eq!(
        SparseMatrix::new(usize::MAX, 2, Vec::new(), Vec::<f64>::new()).err(),
        Some(MatrixError::TooLarge)
    );
}

#[test]
fn loc_finds_stored_entries_only() {
    let m = from_dense(2, 3, &[1.0, 0.0, 0.0, -2.0, 0.0, 3.5]);
    assert_eq!(loc(&m, 0, 0), Some(1.0));
    assert_eq!(loc(&m, 1, 0), Some(-2.0));
    assert_eq!(loc(&m, 1, 2), Some(3.5));
    assert_eq!(loc(&m, 0, 1), None);
    assert_eq!(loc(&m, 5, 0), None);
    assert_eq!(loc(&m, usize::MAX, usize::MAX), None);
}

#[test]
fn convert_to_array_round_trips() {
    let dense = vec![1.0, 0.0, 0.0, -2.0, 0.0, 3.5];
    let m = from_dense(2, 3, &dense);
    assert_eq!(convert_to_array(&m, 0.0), dense);
}

#[test]
fn identity_has_ones_on_the_diagonal() {
    let m = identity(3, 1.0);
    assert_eq!(m.keys(), &vec![0usize, 4, 8]);
    assert_eq!(
        convert_to_array(&m, 0.0),
        vec![1.0, 0.0, 0.0, 0.0, 1.0, 0.0, 0.0, 0.0, 1.0]
    );
    let empty = identity(0, 1.0);
    assert_eq!(empty.nrow(), 0);
    assert_eq!(empty.keys().len(), 0);
}

#[test]
fn add_merges_and_drops_cancelled_entries() {
    let a = from_dense(2, 2, &[1.0, 2.0, 0.0, 4.0]);
    let b = from_dense(2, 2, &[-1.0, 3.0, 5.0, 0.0]);
    let s = add(&a, &b, |x, y| stored(x + y)).unwrap();
    assert_eq!(s.keys(), &vec![1usize, 2, 3]);
    assert_eq!(s.data(), &vec![5.0, 5.0, 4.0]);
}

#[test]
fn sub_negates_entries_of_the_right_operand() {
    let a = from_dense(2, 2, &[1.0, 2.0, 0.0, 4.0]);
    let b = from_dense(2, 2, &[1.0, 3.0, 5.0, 0.0]);
    let d = sub(&a, &b, |x, y| stored(x - y), |y| -y).unwrap();
    assert_eq!(d.keys(), &vec![1usize, 2, 3]);
    assert_eq!(d.data(), &vec![-1.0, -5.0, 4.0]);
}

#[test]
fn mul_keeps_common_keys_only() {
    let a = from_dense(2, 2, &[1.0, 2.0, 0.0, 4.0]);
    let b = from_dense(2, 2, &[1.0, 3.0, 5.0, 0.0]);
    let p = mul(&a, &b, |x, y| stored(x * y)).unwrap();
    assert_eq!(p.keys(), &vec![0usize, 1]);
    assert_eq!(p.data(), &vec![1.0, 6.0]);
}

#[test]
fn mul_const_scales_and_drops() {
    let a = from_dense(2, 2, &[1.0, 2.0, 0.0, 4.0]);
    let p = mul_const(&a, |x| stored(2.5 * x));
    assert_eq!(p.keys(), &vec![0usize, 1, 3]);
    assert_eq!(p.data(), &vec![2.5, 5.0, 10.0]);
    let z = mul_const(&a, |x| stored(0.0 * x));
    assert_eq!(z.keys().len(), 0);
    assert_eq!(z.nrow(), 2);
    assert_eq!(z.ncol(), 2);
}

#[test]
fn algebra_rejects_different_shapes() {
    let a = from_dense(2, 2, &[1.0, 2.0, 0.0, 4.0]);
    let b = from_dense(1, 4, &[1.0, 2.0, 0.0, 4.0]);
    assert_eq!(
        add(&a, &b, |x, y| stored(x + y)).err(),
        Some(MatrixError::DimensionMismatch)
    );
    assert_eq!(
        sub(&a, &b, |x, y| stored(x - y), |y| -y).err(),
        Some(MatrixError::DimensionMismatch)
    );
    assert_eq!(
        mul(&a, &b, |x, y| stored(x * y)).err(),
        Some(MatrixError::DimensionMismatch)
    );
    assert_eq!(
        dot(&a, &b, 0.0, |acc, x, y| acc + x * y, significant).err(),
        Some(MatrixError::DimensionMismatch)
    );
}

#[test]
fn transpose_rekeys_and_sorts() {
    // 2 x 3:  1 0 2
    //         0 3 4
    let a = from_dense(2, 3, &[1.0, 0.0, 2.0, 0.0, 3.0, 4.0]);
    let t = transpose(&a);
    assert_eq!(t.nrow(), 3);
    assert_eq!(t.ncol(), 2);
    assert_eq!(t.keys(), &vec![0usize, 3, 4, 5]);
    assert_eq!(t.data(), &vec![1.0, 3.0, 2.0, 4.0]);
    assert_eq!(
        convert_to_array(&t, 0.0),
        vec![1.0, 0.0, 0.0, 3.0, 2.0, 4.0]
    );
}

#[test]
fn get_sub_mat_extracts_a_window() {
    // 4 x 4 with value 10*i + j + 1 at (i, j), zeros on the diagonal
    let mut dense = vec![0.0; 16];
    for i in 0..4 {
        for j in 0..4 {
            if i != j {
                dense[i * 4 + j] = (10 * i + j + 1) as f64;
            }
        }
    }
    let a = from_dense(4, 4, &dense);
    let s = get_sub_mat(&a, 1, 2, 1, 3).unwrap();
    assert_eq!(s.nrow(), 2);
    assert_eq!(s.ncol(), 3);
    assert_eq!(
        convert_to_array(&s, 0.0),
        vec![0.0, 13.0, 14.0, 22.0, 0.0, 24.0]
    );
    let whole = get_sub_mat(&a, 0, 3, 0, 3).unwrap();
    assert_eq!(convert_to_array(&whole, 0.0), dense);
    let corner = get_sub_mat(&a, 3, 3, 0, 0).unwrap();
    assert_eq!(convert_to_array(&corner, 0.0), vec![31.0]);
}

#[test]
fn get_sub_mat_window_may_hang_over_the_edge() {
    let a = from_dense(2, 2, &[1.0, 2.0, 3.0, 4.0]);
    let s = get_sub_mat(&a, 1, 2, 1, 2).unwrap();
    assert_eq!(s.nrow(), 2);
    assert_eq!(s.ncol(), 2);
    assert_eq!(convert_to_array(&s, 0.0), vec![4.0, 0.0, 0.0, 0.0]);
    let far = get_sub_mat(&a, 7, 8, 0, 1).unwrap();
    assert_eq!(far.keys().len(), 0);
}

#[test]
fn get_sub_mat_rejects_bad_windows() {
    let a = from_dense(2, 2, &[1.0, 2.0, 3.0, 4.0]);
    assert_eq!(
        get_sub_mat(&a, 1, 0, 0, 1).err(),
        Some(MatrixError::DimensionMismatch)
    );
    assert_eq!(
        get_sub_mat(&a, 0, 1, 1, 0).err(),
        Some(MatrixError::DimensionMismatch)
    );
    assert_eq!(
        get_sub_mat(&a, 0, 2, 0, 1).err(),
        Some(MatrixError::DimensionMismatch)
    );
    assert_eq!(
        get_sub_mat(&a, 0, usize::MAX, 0, 1).err(),
        Some(MatrixError::DimensionMismatch)
    );
}

#[test]
fn copy_writes_a_block_into_a_window() {
    let a = from_dense(3, 3, &[1.0, 2.0, 3.0, 4.0, 5.0, 6.0, 7.0, 8.0, 9.0]);
    let b = from_dense(2, 2, &[0.0, -1.0, -2.0, 0.0]);
    let c = copy(&a, &b, 1, 2, 0, 1).unwrap();
    assert_eq!(
        convert_to_array(&c, 0.0),
        vec![1.0, 2.0, 3.0, 0.0, -1.0, 6.0, -2.0, 0.0, 9.0]
    );
    assert_eq!(c.keys(), &vec![0usize, 1, 2, 4, 5, 6, 8]);
}

#[test]
fn copy_rejects_a_window_of_another_shape() {
    let a = from_dense(3, 3, &[1.0, 2.0, 3.0, 4.0, 5.0, 6.0, 7.0, 8.0, 9.0]);
    let b = from_dense(2, 2, &[0.0, -1.0, -2.0, 0.0]);
    assert_eq!(
        copy(&a, &b, 0, 2, 0, 1).err(),
        Some(MatrixError::DimensionMismatch)
    );
    assert_eq!(
        copy(&a, &b, 2, 3, 0, 1).err(),
        Some(MatrixError::DimensionMismatch)
    );
    assert_eq!(
        copy(&b, &a, 0, 2, 0, 2).err(),
        Some(MatrixError::DimensionMismatch)
    );
}

#[test]
fn vstack_offsets_the_lower_keys() {
    let a = from_dense(1, 3, &[1.0, 0.0, 2.0]);
    let b = from_dense(2, 3, &[0.0, 3.0, 0.0, 4.0, 0.0, 5.0]);
    let s = vstack(&a, &b).unwrap();
    assert_eq!(s.nrow(), 3);
    assert_eq!(s.ncol(), 3);
    assert_eq!(s.keys(), &vec![0usize, 2, 4, 6, 8]);
    assert_eq!(s.data(), &vec![1.0, 2.0, 3.0, 4.0, 5.0]);
}

#[test]
fn vstack_rejects_different_widths_and_overflow() {
    let a = from_dense(1, 3, &[1.0, 0.0, 2.0]);
    let b = from_dense(3, 1, &[1.0, 0.0, 2.0]);
    assert_eq!(vstack(&a, &b).err(), Some(MatrixError::DimensionMismatch));
    let tall: SparseMatrix<f64> = SparseMatrix::new(usize::MAX / 2, 2, Vec::new(), Vec::new()).unwrap();
    assert_eq!(vstack(&tall, &tall).err(), Some(MatrixError::TooLarge));
    let flat: SparseMatrix<f64> = SparseMatrix::new(usize::MAX, 0, Vec::new(), Vec::new()).unwrap();
    assert_eq!(vstack(&flat, &flat).err(), Some(MatrixError::TooLarge));
}

#[test]
fn dot_is_the_matrix_product() {
    // (2 x 3) * (3 x 2)
    let a = from_dense(2, 3, &[1.0, 0.0, 2.0, 0.0, 3.0, 4.0]);
    let b = from_dense(3, 2, &[5.0, 0.0, 6.0, 7.0, 0.0, 8.0]);
    let p = dot(&a, &b, 0.0, |acc, x, y| acc + x * y, significant).unwrap();
    assert_eq!(p.nrow(), 2);
    assert_eq!(p.ncol(), 2);
    assert_eq!(convert_to_array(&p, 0.0), vec![5.0, 16.0, 18.0, 53.0]);
}

#[test]
fn dot_drops_cancelled_sums() {
    let a = from_dense(1, 2, &[1.0, 1.0]);
    let b = from_dense(2, 2, &[2.0, 1.0, -2.0, 1.0]);
    let p = dot(&a, &b, 0.0, |acc, x, y| acc + x * y, significant).unwrap();
    assert_eq!(p.keys(), &vec![1usize]);
    assert_eq!(p.data(), &vec![2.0]);
}

#[test]
fn dot_with_identity_changes_nothing() {
    let a = from_dense(2, 3, &[1.0, 0.0, 2.0, 0.0, 3.0, 4.0]);
    let eye = identity(3, 1.0);
    let p = dot(&a, &eye, 0.0, |acc, x, y| acc + x * y, significant).unwrap();
    assert_eq!(p.keys(), a.keys());
    assert_eq!(p.data(), a.data());
}
