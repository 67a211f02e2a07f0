use linalg::partition::{chunk_len, partition};

#[test]
fn chunk_len_rounds_up() {
    assert_eq!(chunk_len(0, 4), 0);
    assert_eq!(chunk_len(1, 4), 1);
    assert_eq!(chunk_len(4, 4), 1);
    assert_eq!(chunk_len(5, 4), 2);
    assert_eq!(chunk_len(500, 4), 125);
    assert_eq!(chunk_len(501, 4), 126);
    assert_eq!(chunk_len(usize::MAX, 1), usize::MAX);
    assert_eq!(chunk_len(usize::MAX, usize::MAX), 1);
}

#[test]
fn partition_covers_the_range_in_order() {
    assert_eq!(partition(10, 4), vec![(0, 3), (3, 6), (6, 9), (9, 10)]);
    assert_eq!(partition(8, 4), vec![(0, 2), (2, 4), (4, 6), (6, 8)]);
    assert_eq!(partition(500, 4), vec![(0, 125), (125, 250), (250, 375), (375, 500)]);
}

#[test]
fn partition_uses_fewer_workers_for_few_items() {
    assert_eq!(partition(3, 4), vec![(0, 1), (1, 2), (2, 3)]);
    assert_eq!(partition(1, 4), vec![(0, 1)]);
    assert_eq!(partition(9, 4), vec![(0, 3), (3, 6), (6, 9)]);
    assert_eq!(partition(0, 4), Vec::<(usize, usize)>::new());
}

#[test]
fn partition_of_a_huge_range_does_not_overflow() {
    let ranges = partition(usize::MAX, 2);
    let half = usize::MAX / 2 + 1;
    assert_eq!(ranges, vec![(0, half), (half, usize::MAX)]);
}
