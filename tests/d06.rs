use aoc2023::d06::{run_part_1, run_part_2};
use aoc2023::text::InputError;

const SAMPLE: &str = "Time:      7  15   30\nDistance:  9  40  200\n";

#[test]
fn race_product_sample() {
    assert_eq!(run_part_1(SAMPLE.to_string()), Ok(288));
}

#[test]
fn kerned_race_sample() {
    assert_eq!(run_part_2(SAMPLE.to_string()), Ok(71503));
}

#[test]
fn unbeatable_race_counts_zero() {
    assert_eq!(run_part_1("Time: 2\nDistance: 5\n".to_string()), Ok(0));
}

#[test]
fn board_needs_two_lines() {
    assert_eq!(run_part_1("Time: 7".to_string()), Err(InputError::Malformed));
}
