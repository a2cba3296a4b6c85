use raytracrr::checker::checker_is_even;

#[test]
fn parity_of_cell_coordinates() {
    assert!(checker_is_even(0, 0, 0));
    assert!(!checker_is_even(1, 0, 0));
    assert!(!checker_is_even(0, 0, -1));
    assert!(checker_is_even(-1, -1, 0));
    assert!(checker_is_even(2, -3, 1));
    assert!(!checker_is_even(-5, 2, 2));
}

#[test]
fn parity_without_overflow_at_the_extremes() {
    assert!(!checker_is_even(i32::MAX, i32::MAX, i32::MAX));
    assert!(checker_is_even(i32::MIN, i32::MIN, i32::MIN));
    assert!(!checker_is_even(i32::MAX, i32::MIN, 0));
}
