use swapview::filesize;

#[test]
fn zero_is_bytes_without_decimal() {
    assert_eq!(filesize(0), "0B");
}

#[test]
fn kib_with_one_decimal() {
    assert_eq!(filesize(1536), "1.5KiB");
}

#[test]
fn negative_keeps_sign_and_unit_by_magnitude() {
    assert_eq!(filesize(-2048), "-2.0KiB");
}

#[test]
fn just_under_threshold_stays_bytes() {
    assert_eq!(filesize(1100), "1100B");
    assert_eq!(filesize(-1100), "-1100B");
    assert_eq!(filesize(1), "1B");
    assert_eq!(filesize(-1), "-1B");
}

#[test]
fn just_over_threshold_promotes_to_next_unit() {
    assert_eq!(filesize(1101), "1.1KiB");
}

#[test]
fn larger_units_by_magnitude() {
    assert_eq!(filesize(2 * 1024 * 1024), "2.0MiB");
    assert_eq!(filesize(3 * 1024 * 1024 * 1024), "3.0GiB");
    assert_eq!(filesize(5 * 1024 * 1024 * 1024 * 1024), "5.0TiB");
}

#[test]
fn threshold_at_unit_boundary() {
    // 1100 KiB exactly: stays in KiB, one step above promotes.
    assert_eq!(filesize(1126400), "1100.0KiB");
    assert_eq!(filesize(1126401), "1.1MiB");
}

#[test]
fn rounding_is_half_to_even() {
    // 1280 / 1024 = 1.25 and 1792 / 1024 = 1.75: ties go to the even tenth.
    assert_eq!(filesize(1280), "1.2KiB");
    assert_eq!(filesize(1792), "1.8KiB");
}

#[test]
fn tib_is_the_last_unit() {
    // Nothing above TiB: huge magnitudes keep large numbers of TiB.
    assert_eq!(filesize(i64::MAX), "8388608.0TiB");
    assert_eq!(filesize(i64::MIN), "-8388608.0TiB");
}
