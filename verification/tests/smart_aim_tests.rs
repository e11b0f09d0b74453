use agg_gui::smart_aim::{from_decimal_string, smart_digits, to_decimal_string, u8_midpoint};

#[test]
fn decimal_digits_are_most_significant_first() {
    let d = to_decimal_string(12345);
    assert_eq!(d, [0, 0, 0, 0, 0, 0, 0, 0, 0, 0, 0, 1, 2, 3, 4, 5]);
    assert_eq!(from_decimal_string(d), 12345);
}

#[test]
fn decimal_round_trip_below_ten_to_the_sixteen() {
    for v in [0u64, 7, 10, 999_999, 1_234_567_890_123_456, 9_999_999_999_999_999] {
        assert_eq!(from_decimal_string(to_decimal_string(v)), v);
    }
    // Only the sixteen lowest digits are kept.
    assert_eq!(from_decimal_string(to_decimal_string(12_345_678_901_234_567_890)), 5_678_901_234_567_890);
}

#[test]
fn midpoint_rounds_down() {
    assert_eq!(u8_midpoint(4, 9), 6);
    assert_eq!(u8_midpoint(255, 255), 255);
    assert_eq!(u8_midpoint(0, 1), 0);
}

fn pick(a: u64, b: u64) -> Option<u64> {
    smart_digits(&to_decimal_string(a), &to_decimal_string(b)).map(from_decimal_string)
}

#[test]
fn the_deciding_digit_prefers_five() {
    // 12345 .. 12780 (scaled to sixteen digits): the first differing digit
    // ranges over 4..7 once the trailing digits of the low end are counted.
    assert_eq!(pick(1_234_500_000_000_000, 1_278_000_000_000_000), Some(1_250_000_000_000_000));
    // 37 .. 48: digits 3..4, no 5 in reach: the midpoint rounds down to 4.
    assert_eq!(pick(3_700_000_000_000_000, 4_800_000_000_000_000), Some(4_000_000_000_000_000));
    // 14 .. 19 at the last digits: 5 is in reach.
    assert_eq!(pick(14, 19), Some(15));
}

#[test]
fn a_zero_deciding_digit_stays_zero() {
    assert_eq!(pick(100, 900), Some(500));
    assert_eq!(pick(0, 900), Some(0));
}

#[test]
fn equal_digit_strings_have_no_pick() {
    assert_eq!(pick(4242, 4242), None);
}
