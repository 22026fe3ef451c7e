use aoc2023::d09::{run_part_1, run_part_2};
use aoc2023::text::InputError;

const SAMPLE: &str = "0 3 6 9 12 15\n1 3 6 10 15 21\n10 13 16 21 30 45\n";

#[test]
fn forward_sample() {
    assert_eq!(run_part_1(SAMPLE.to_string()), Ok(114));
}

#[test]
fn backward_sample() {
    assert_eq!(run_part_2(SAMPLE.to_string()), Ok(2));
}

#[test]
fn negative_values() {
    assert_eq!(run_part_1("-1 -3 -5".to_string()), Ok(-7));
    assert_eq!(run_part_2("-1 -3 -5".to_string()), Ok(1));
}

#[test]
fn non_numbers_are_rejected() {
    assert_eq!(run_part_1("1 x 3".to_string()), Err(InputError::Malformed));
}

#[test]
fn extrapolation_leaving_i64_is_too_large() {
    assert_eq!(run_part_1("0 9223372036854775807".to_string()), Err(InputError::TooLarge));
}
