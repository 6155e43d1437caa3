use fdf::fixed::{clamp_i64, div_trunc, round_div, sat_i32};

#[test]
fn truncating_division_rounds_toward_zero() {
    assert_eq!(div_trunc(7, 2), 3);
    assert_eq!(div_trunc(-7, 2), -3);
    assert_eq!(div_trunc(0, 5), 0);
}

#[test]
fn rounding_division_rounds_half_away_from_zero() {
    assert_eq!(round_div(7, 2), 4);
    assert_eq!(round_div(-7, 2), -4);
    assert_eq!(round_div(5, 4), 1);
    assert_eq!(round_div(6, 4), 2);
    assert_eq!(round_div(-6, 4), -2);
    assert_eq!(round_div(1, 3), 0);
    assert_eq!(round_div(2, 3), 1);
}

#[test]
fn saturation_clips_at_the_i32_range() {
    assert_eq!(sat_i32(1 << 40), i32::MAX);
    assert_eq!(sat_i32(-(1 << 40)), i32::MIN);
    assert_eq!(sat_i32(-5), -5);
}

#[test]
fn clamping_holds_the_bounds() {
    assert_eq!(clamp_i64(5, 0, 10), 5);
    assert_eq!(clamp_i64(-5, 0, 10), 0);
    assert_eq!(clamp_i64(50, 0, 10), 10);
}
