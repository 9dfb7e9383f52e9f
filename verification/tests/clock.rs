use zrs::clock::{time_delta, unix_time};

#[test]
fn time_delta_is_the_difference() {
    assert_eq!(2, time_delta(5, 3));
    assert_eq!(0, time_delta(5, 5));
    assert_eq!(u64::MAX, time_delta(u64::MAX, 0));
    assert_eq!(1_800, time_delta(1_500_001_800, 1_500_000_000));
}

#[test]
fn time_delta_of_a_future_timestamp_is_zero() {
    assert_eq!(0, time_delta(3, 5));
    assert_eq!(0, time_delta(0, u64::MAX));
}

#[test]
fn unix_time_is_after_2020() {
    let now = unix_time();
    assert!(now > 1_577_836_800);
    assert!(unix_time() >= now);
}
