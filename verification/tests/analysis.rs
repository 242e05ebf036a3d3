use flight_telemetry::stats::{first_max_index, first_min_index};
use flight_telemetry::timefmt::{format_timestamp, i32_to_dec, pad2_render, u64_to_dec};

fn bytes(s: &str) -> Vec<u8> {
    s.as_bytes().to_vec()
}

#[test]
fn timestamp_is_synthesized_with_padding() {
    let r = format_timestamp(2024, 3, 7, &bytes("12:34:56"));
    assert_eq!(r, bytes("2024-03-07 12:34:56"));
}

#[test]
fn timestamp_keeps_two_digit_parts() {
    let r = format_timestamp(1999, 11, 30, &bytes("00:00:01"));
    assert_eq!(r, bytes("1999-11-30 00:00:01"));
}

#[test]
fn timestamp_handles_negative_year() {
    let r = format_timestamp(-44, 3, 15, &bytes("noon"));
    assert_eq!(r, bytes("-44-03-15 noon"));
}

#[test]
fn decimal_rendering_is_exact() {
    assert_eq!(u64_to_dec(0), bytes("0"));
    assert_eq!(u64_to_dec(7), bytes("7"));
    assert_eq!(u64_to_dec(10), bytes("10"));
    assert_eq!(u64_to_dec(4209), bytes("4209"));
    assert_eq!(u64_to_dec(u64::MAX), bytes("18446744073709551615"));
}

#[test]
fn signed_rendering_is_exact() {
    assert_eq!(i32_to_dec(-1), bytes("-1"));
    assert_eq!(i32_to_dec(i32::MIN), bytes("-2147483648"));
    assert_eq!(i32_to_dec(2024), bytes("2024"));
}

#[test]
fn two_digit_padding_matches_display_rules() {
    assert_eq!(pad2_render(0), bytes("00"));
    assert_eq!(pad2_render(9), bytes("09"));
    assert_eq!(pad2_render(10), bytes("10"));
    assert_eq!(pad2_render(-5), bytes("-5"));
}

#[test]
fn max_selection_takes_first_occurrence() {
    assert_eq!(first_max_index(&vec![1, 3, 3, 2]), 1);
    assert_eq!(first_max_index(&vec![5]), 0);
    assert_eq!(first_max_index(&vec![0, 0, 0]), 0);
}

#[test]
fn min_selection_takes_first_occurrence() {
    assert_eq!(first_min_index(&vec![2, 1, 1, 4]), 1);
    assert_eq!(first_min_index(&vec![9]), 0);
    assert_eq!(first_min_index(&vec![3, 3]), 0);
}
