use linalg::search::{binary_search, binary_search_next};

#[test]
fn binary_search_finds_present_key() {
    let keys: Vec<usize> = vec![1, 4, 9, 16, 25];
    assert_eq!(binary_search(&keys, 9), 2);
    assert_eq!(binary_search(&keys, 1), 0);
    assert_eq!(binary_search(&keys, 25), 4);
}

#[test]
fn binary_search_reports_length_for_absent_key() {
    let keys: Vec<usize> = vec![1, 4, 9, 16, 25];
    assert_eq!(binary_search(&keys, 0), 5);
    assert_eq!(binary_search(&keys, 10), 5);
    assert_eq!(binary_search(&keys, 26), 5);
    let empty: Vec<usize> = Vec::new();
    assert_eq!(binary_search(&empty, 3), 0);
}

#[test]
fn binary_search_next_is_the_lower_bound() {
    let keys: Vec<usize> = vec![1, 4, 9, 16, 25];
    assert_eq!(binary_search_next(&keys, 0), 0);
    assert_eq!(binary_search_next(&keys, 4), 1);
    assert_eq!(binary_search_next(&keys, 5), 2);
    assert_eq!(binary_search_next(&keys, 25), 4);
    assert_eq!(binary_search_next(&keys, 26), 5);
    let empty: Vec<usize> = Vec::new();
    assert_eq!(binary_search_next(&empty, 3), 0);
}
