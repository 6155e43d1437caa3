use fdf::heightfield::{parse_grid, HeightField, ParseError};

#[test]
fn rectangular_grid_parses() {
    let hf: HeightField = parse_grid(b"1 2 3\n4 5 6", false).unwrap();
    assert_eq!(hf.width, 3);
    assert_eq!(hf.samples.len(), 6);
    // Each sample shifted by the minimum, 1.
    assert_eq!(hf.samples, vec![20_000, 30_000, 40_000, 50_000, 60_000, 70_000]);
}

#[test]
fn ragged_grid_is_malformed() {
    let e = parse_grid(b"1 2\n3", false).unwrap_err();
    assert_eq!(e, ParseError::MalformedGrid { row: 1, expected: 2, got: 1 });
}

#[test]
fn bad_token_is_invalid_number() {
    let e = parse_grid(b"1 2\n3 x", false).unwrap_err();
    assert_eq!(e, ParseError::InvalidNumber { row: 1 });
}

#[test]
fn bad_token_beats_length_check_in_same_row() {
    // Row 1 is both short and unreadable; tokens are read first.
    let e = parse_grid(b"1 2\ny", false).unwrap_err();
    assert_eq!(e, ParseError::InvalidNumber { row: 1 });
}

#[test]
fn empty_input_is_empty_grid() {
    assert_eq!(parse_grid(b"", false).unwrap_err(), ParseError::EmptyGrid);
}

#[test]
fn blank_rows_are_empty_grid() {
    // Rows exist but hold zero columns.
    assert_eq!(parse_grid(b" \n \n ", false).unwrap_err(), ParseError::EmptyGrid);
}

#[test]
fn shift_by_zero_minimum_is_identity() {
    // Samples {0,1,2}: the minimum is 0, so adding it changes nothing.
    let hf = parse_grid(b"0 1 2", false).unwrap();
    assert_eq!(hf.samples, vec![0, 10_000, 20_000]);
}

#[test]
fn shift_adds_the_minimum() {
    // Samples {-1,0,1}: every value moves by the minimum, -1 — the sum,
    // not the difference.
    let hf = parse_grid(b"-1 0 1", false).unwrap();
    assert_eq!(hf.samples, vec![-20_000, -10_000, 0]);
}

#[test]
fn normalizing_divides_by_the_range() {
    // Shifted samples {0,1,2} over a range of 2.
    let hf = parse_grid(b"0 1 2", true).unwrap();
    assert_eq!(hf.samples, vec![0, 5_000, 10_000]);
}

#[test]
fn zero_range_skips_the_division() {
    let hf = parse_grid(b"3 3\n3 3", true).unwrap();
    assert_eq!(hf.samples, vec![60_000, 60_000, 60_000, 60_000]);
}

#[test]
fn fractions_and_signs_parse() {
    let hf = parse_grid(b"1.5 -0.25 .5 1. +2", false).unwrap();
    // Minimum is -0.25; every value is shifted by it.
    assert_eq!(
        hf.samples,
        vec![15_000 - 2_500, -5_000, 5_000 - 2_500, 10_000 - 2_500, 20_000 - 2_500]
    );
}

#[test]
fn exponent_tokens_are_rejected() {
    let e = parse_grid(b"1e3", false).unwrap_err();
    assert_eq!(e, ParseError::InvalidNumber { row: 0 });
}

#[test]
fn out_of_range_tokens_are_rejected() {
    let e = parse_grid(b"1000000", false).unwrap_err();
    assert_eq!(e, ParseError::InvalidNumber { row: 0 });
}

#[test]
fn crlf_lines_parse() {
    let hf = parse_grid(b"1 2\r\n3 4\r\n", false).unwrap();
    assert_eq!(hf.width, 2);
    assert_eq!(hf.samples.len(), 4);
}

#[test]
fn trailing_blank_line_is_malformed() {
    let e = parse_grid(b"1 2\n\n", false).unwrap_err();
    assert_eq!(e, ParseError::MalformedGrid { row: 1, expected: 2, got: 0 });
}

#[test]
fn fraction_rounds_to_nearest_unit() {
    let hf = parse_grid(b"0.00005 0", false).unwrap();
    // 0.00005 rounds half away from zero to one unit.
    assert_eq!(hf.samples, vec![1, 0]);
}
