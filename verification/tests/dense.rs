use linalg::dense::{copy, copy_sub_mat, identity, sub_mat, swap_rows, transpose};

#[test]
fn copy_overwrites_a_prefix() {
    let a = vec![1.0, 2.0, 3.0, 4.0];
    let mut b = vec![9.0; 6];
    copy(&a, &mut b, 3);
    assert_eq!(b, vec![1.0, 2.0, 3.0, 9.0, 9.0, 9.0]);
    copy(&a, &mut b, 0);
    assert_eq!(b, vec![1.0, 2.0, 3.0, 9.0, 9.0, 9.0]);
}

#[test]
fn copy_of_a_long_buffer_is_exact() {
    let n = 145;
    let a: Vec<f64> = (0..n).map(|i| (i as f64) * 0.5 - 7.0).collect();
    let mut b = vec![0.0; n];
    copy(&a, &mut b, n);
    assert!(a == b, "Copy not working as expected !!!");
}

#[test]
fn dense_transpose_swaps_rows_and_columns() {
    // 2 x 3
    let a = vec![1, 2, 3, 4, 5, 6];
    assert_eq!(transpose(&a, 2, 3), vec![1, 4, 2, 5, 3, 6]);
    assert_eq!(transpose(&a, 1, 6), a);
    assert_eq!(transpose(&a, 6, 1), a);
    let none: Vec<i32> = Vec::new();
    assert_eq!(transpose(&none, 0, 5), none);
}

#[test]
fn dense_transpose_twice_is_the_identity() {
    let n = 7;
    let m = 4;
    let a: Vec<u32> = (0..(n * m) as u32).collect();
    let t = transpose(&a, n, m);
    assert_eq!(transpose(&t, m, n), a);
}

#[test]
fn sub_mat_extracts_a_block() {
    // 3 x 4
    let a: Vec<u32> = (0..12).collect();
    assert_eq!(sub_mat(&a, 3, 4, 1, 2, 1, 3), vec![5, 6, 7, 9, 10, 11]);
    assert_eq!(sub_mat(&a, 3, 4, 0, 0, 0, 0), vec![0]);
    assert_eq!(sub_mat(&a, 3, 4, 0, 2, 0, 3), a);
    assert_eq!(sub_mat(&a, 3, 4, 0, 2, 2, 2), vec![2, 6, 10]);
}

#[test]
fn copy_sub_mat_writes_a_block() {
    let mut a: Vec<u32> = vec![0; 12];
    let b: Vec<u32> = vec![1, 2, 3, 4, 5, 6];
    copy_sub_mat(&mut a, &b, 3, 4, 1, 2, 1, 3);
    assert_eq!(a, vec![0, 0, 0, 0, 0, 1, 2, 3, 0, 4, 5, 6]);
}

#[test]
fn copy_sub_mat_undoes_sub_mat() {
    let a: Vec<u32> = (0..20).collect();
    let block = sub_mat(&a, 4, 5, 1, 3, 2, 4);
    let mut b: Vec<u32> = vec![0; 20];
    copy_sub_mat(&mut b, &block, 4, 5, 1, 3, 2, 4);
    for i in 0..4 {
        for j in 0..5 {
            let inside = (1..=3).contains(&i) && (2..=4).contains(&j);
            assert_eq!(b[i * 5 + j], if inside { a[i * 5 + j] } else { 0 });
        }
    }
}

#[test]
fn swap_rows_exchanges_two_rows() {
    let mut a: Vec<u32> = (0..12).collect();
    swap_rows(&mut a, 4, 0, 2);
    assert_eq!(a, vec![8, 9, 10, 11, 4, 5, 6, 7, 0, 1, 2, 3]);
    swap_rows(&mut a, 4, 1, 1);
    assert_eq!(a, vec![8, 9, 10, 11, 4, 5, 6, 7, 0, 1, 2, 3]);
    swap_rows(&mut a, 4, 2, 0);
    assert_eq!(a, (0..12).collect::<Vec<u32>>());
}

#[test]
fn swap_rows_handles_rows_wider_than_a_block() {
    let m = 150;
    let mut a: Vec<usize> = (0..3 * m).collect();
    swap_rows(&mut a, m, 0, 2);
    for j in 0..m {
        assert_eq!(a[j], 2 * m + j);
        assert_eq!(a[m + j], m + j);
        assert_eq!(a[2 * m + j], j);
    }
}

#[test]
fn dense_identity_has_ones_on_the_diagonal() {
    assert_eq!(
        identity(3, 0.0, 1.0),
        vec![1.0, 0.0, 0.0, 0.0, 1.0, 0.0, 0.0, 0.0, 1.0]
    );
    assert_eq!(identity(1, 0, 7), vec![7]);
    assert_eq!(identity(0, 0, 7), Vec::<i32>::new());
}
