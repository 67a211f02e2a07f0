use linalg::sweep::active_block;

#[test]
fn no_block_when_nothing_is_coupled() {
    assert_eq!(active_block(&[]), None);
    assert_eq!(active_block(&[false, false, false]), None);
}

#[test]
fn block_is_the_last_coupled_run() {
    assert_eq!(active_block(&[true, true, true]), Some((0, 3)));
    assert_eq!(active_block(&[true, false, true]), Some((2, 3)));
    assert_eq!(active_block(&[true, true, false]), Some((0, 2)));
    assert_eq!(active_block(&[false, true, true, false, false]), Some((1, 3)));
    assert_eq!(active_block(&[true, false, false]), Some((0, 1)));
    assert_eq!(active_block(&[false, false, true]), Some((2, 3)));
}
