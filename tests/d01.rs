use aoc2023::d01::{run_part_1, run_part_2};
use aoc2023::text::InputError;

#[test]
fn calibration_sample() {
    let input = "1abc2\npqr3stu8vwx\na1b2c3d4e5f\ntreb7uchet\n";
    assert_eq!(run_part_1(input.to_string()), Ok(142));
}

#[test]
fn spelled_calibration_sample() {
    let input = "two1nine\neightwothree\nabcone2threexyz\nxtwone3four\n4nineeightseven2\nzoneight234\n7pqrstsixteen\n";
    assert_eq!(run_part_2(input.to_string()), Ok(281));
}

#[test]
fn overlapping_spelled_digits() {
    assert_eq!(run_part_2("eightwo".to_string()), Ok(82));
    assert_eq!(run_part_2("nineight".to_string()), Ok(98));
}

#[test]
fn single_digit_counts_twice() {
    assert_eq!(run_part_1("abc7def".to_string()), Ok(77));
}

#[test]
fn line_without_digit_is_rejected() {
    assert_eq!(run_part_1("12\nabc\n".to_string()), Err(InputError::Malformed));
    assert_eq!(run_part_2("12\nxyz\n".to_string()), Err(InputError::Malformed));
}

#[test]
fn form_feed_is_trimmed() {
    assert_eq!(run_part_1("\u{0C}\n1".to_string()), Ok(11));
    assert_eq!(run_part_2("\u{0C}\n1".to_string()), Ok(11));
}
