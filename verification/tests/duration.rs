use kronos::parse_duration;

#[test]
fn empty_string_is_none() {
    assert_eq!(parse_duration(""), None);
}

#[test]
fn text_without_digits_is_none() {
    assert_eq!(parse_duration("abc"), None);
}

#[test]
fn all_zero_is_none() {
    assert_eq!(parse_duration("0h0m0s"), None);
}

#[test]
fn one_hour_is_3600_seconds() {
    assert_eq!(parse_duration("1h"), Some(3600));
}

#[test]
fn ninety_minutes_is_5400_seconds() {
    assert_eq!(parse_duration("90m"), Some(5400));
}

#[test]
fn seconds_count_once() {
    assert_eq!(parse_duration("45s"), Some(45));
}

#[test]
fn units_add_up() {
    assert_eq!(parse_duration("1h30m10s"), Some(3600 + 30 * 60 + 10));
}

#[test]
fn units_in_any_order() {
    assert_eq!(parse_duration("10s30m1h"), Some(5410));
    assert_eq!(parse_duration("30m1h"), Some(5400));
}

#[test]
fn a_unit_may_repeat() {
    assert_eq!(parse_duration("1h1h"), Some(7200));
    assert_eq!(parse_duration("5s5s5s"), Some(15));
}

#[test]
fn unknown_unit_adds_nothing() {
    assert_eq!(parse_duration("5x"), None);
    assert_eq!(parse_duration("5x1h"), Some(3600));
    assert_eq!(parse_duration("1h5x"), Some(3600));
}

#[test]
fn unknown_unit_closes_its_digits() {
    // The 5 belongs to the x and is gone with it: the m has no digits.
    assert_eq!(parse_duration("5xm"), None);
    assert_eq!(parse_duration("5 m"), None);
    assert_eq!(parse_duration("1-2h"), Some(7200));
}

#[test]
fn upper_case_units_are_unknown() {
    assert_eq!(parse_duration("1H"), None);
    assert_eq!(parse_duration("1M2S3h"), Some(3 * 3600));
}

#[test]
fn unit_without_digits_adds_nothing() {
    assert_eq!(parse_duration("hms"), None);
    assert_eq!(parse_duration("h5m"), Some(300));
    assert_eq!(parse_duration("1hm"), Some(3600));
}

#[test]
fn trailing_digits_are_dropped() {
    assert_eq!(parse_duration("1h30"), Some(3600));
    assert_eq!(parse_duration("30"), None);
}

#[test]
fn leading_zeros_are_read() {
    assert_eq!(parse_duration("007s"), Some(7));
    assert_eq!(parse_duration("00000000000000000000000000000001h"), Some(3600));
}

#[test]
fn zero_segments_leave_the_rest() {
    assert_eq!(parse_duration("0h5m"), Some(300));
}

#[test]
fn magnitude_beyond_i64_drops_its_segment_only() {
    assert_eq!(parse_duration("9223372036854775808s"), None);
    assert_eq!(parse_duration("99999999999999999999h5m"), Some(300));
    assert_eq!(parse_duration("1h99999999999999999999m1s"), Some(3601));
}

#[test]
fn largest_span_is_held() {
    assert_eq!(parse_duration("9223372036854775807s"), Some(i64::MAX));
    assert_eq!(parse_duration("9223372036854775806s1s"), Some(i64::MAX));
}

#[test]
fn total_beyond_i64_is_none() {
    assert_eq!(parse_duration("9223372036854775807s1s"), None);
    assert_eq!(parse_duration("9223372036854775807h"), None);
    assert_eq!(parse_duration("2562047788015216h"), None);
    assert_eq!(parse_duration("2562047788015215h"), Some(2562047788015215 * 3600));
    assert_eq!(parse_duration("9223372036854775807m5s"), None);
}

#[test]
fn other_scripts_are_units_not_digits() {
    // An Arabic-Indic digit is no ASCII digit: it closes the segment before it.
    assert_eq!(parse_duration("1\u{0661}h"), None);
    assert_eq!(parse_duration("2h\u{00e9}3m"), Some(2 * 3600 + 180));
}

#[test]
fn sign_and_point_are_units() {
    assert_eq!(parse_duration("-5m"), Some(300));
    assert_eq!(parse_duration("1.5h"), Some(5 * 3600));
}

#[test]
fn odd_input_never_panics() {
    let samples = [
        "\0",
        "hhhhhhhhhhhhhhhhhhhhhhhhhhhhhhhhhhhhhhhh",
        "99999999999999999999999999999999999999999999999999999999999",
        "1h\n2m\t3s",
        "\u{10ffff}1s",
        "18446744073709551615s",
        "9223372036854775807s9223372036854775807s",
        "3600h3600m3600s",
    ];
    for text in samples {
        if let Some(span) = parse_duration(text) {
            assert!(span > 0);
        }
    }
    assert_eq!(parse_duration("3600h3600m3600s"), Some(3600 * 3600 + 3600 * 60 + 3600));
    assert_eq!(parse_duration("1h\n2m\t3s"), Some(3723));
}
