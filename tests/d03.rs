use aoc2023::d03::{run_part_1, run_part_2};

const SAMPLE: &str = "467..114..
...*......
..35..633.
......#...
617*......
.....+.58.
..592.....
......755.
...$.*....
.664.598..
";

#[test]
fn part_numbers_sample() {
    assert_eq!(run_part_1(SAMPLE.to_string()), Ok(4361));
}

#[test]
fn gear_ratios_sample() {
    assert_eq!(run_part_2(SAMPLE.to_string()), Ok(467835));
}

#[test]
fn number_at_line_end_counts() {
    assert_eq!(run_part_1("..#12".to_string()), Ok(12));
}

#[test]
fn star_with_three_numbers_is_no_gear() {
    assert_eq!(run_part_2("1.2\n.*.\n3..".to_string()), Ok(0));
    assert_eq!(run_part_2("1.2\n.*.\n...".to_string()), Ok(2));
}

#[test]
fn huge_number_away_from_gear_is_harmless() {
    assert_eq!(run_part_2("99999999999999999999999.\n........\n..2*3...".to_string()), Ok(6));
}

#[test]
fn huge_part_number_overflows() {
    assert_eq!(run_part_1("99999999999999999999999#".to_string()), Err(aoc2023::text::InputError::TooLarge));
}
