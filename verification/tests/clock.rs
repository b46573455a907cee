use resp_store::clock::time_of_reading;

#[test]
fn reading_before_the_epoch_is_zero() {
    assert_eq!(time_of_reading(None), 0);
}

#[test]
fn reading_is_taken_in_whole_milliseconds() {
    assert_eq!(time_of_reading(Some(0)), 0);
    assert_eq!(time_of_reading(Some(1)), 1);
    assert_eq!(time_of_reading(Some(1_700_000_000_000)), 1_700_000_000_000);
    assert_eq!(time_of_reading(Some(u64::MAX as u128)), u64::MAX);
}

#[test]
fn reading_beyond_64_bits_is_the_largest_time() {
    assert_eq!(time_of_reading(Some(u64::MAX as u128 + 1)), u64::MAX);
    assert_eq!(time_of_reading(Some(u128::MAX)), u64::MAX);
}
