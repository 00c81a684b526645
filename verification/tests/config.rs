use self_avoiding_walk::config::{Config, DEFAULT_LENGTH, DEFAULT_SIZE, MAX_SIZE};

#[test]
fn absent_values_fall_back_to_defaults() {
    let c = Config::from_values(None, None).unwrap();
    assert_eq!(c.size(), DEFAULT_SIZE);
    assert_eq!(c.min_length(), DEFAULT_LENGTH);
}

#[test]
fn given_values_are_kept() {
    let c = Config::from_values(Some(25), Some(12)).unwrap();
    assert_eq!(c.size(), 25);
    assert_eq!(c.min_length(), 12);
}

#[test]
fn zero_and_negative_sizes_are_rejected() {
    assert!(Config::from_values(Some(0), None).is_none());
    assert!(Config::from_values(Some(-3), None).is_none());
}

#[test]
fn size_bounds_are_checked_on_both_sides() {
    assert!(Config::from_values(Some(1), None).is_some());
    assert!(Config::from_values(Some(MAX_SIZE as i64), None).is_some());
    assert!(Config::from_values(Some(MAX_SIZE as i64 + 1), None).is_none());
}

#[test]
fn min_length_bounds_are_checked() {
    assert!(Config::from_values(None, Some(0)).is_none());
    assert!(Config::from_values(None, Some(-1)).is_none());
    assert!(Config::from_values(None, Some(1)).is_some());
    assert!(Config::from_values(None, Some(i32::MAX as i64)).is_some());
    assert!(Config::from_values(None, Some(i32::MAX as i64 + 1)).is_none());
}

#[test]
fn accepted_sizes_fit_the_grid() {
    // The largest accepted dimension still yields a cell count that the
    // grid's constructor accepts on every machine word size.
    let c = Config::from_values(Some(MAX_SIZE as i64), Some(1)).unwrap();
    assert!(c.size().checked_mul(c.size()).is_some());
}
