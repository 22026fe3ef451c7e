use aoc2023::d13::{run_part_1, run_part_2};
use aoc2023::text::InputError;

const SAMPLE: &str = "#.##..##.
..#.##.#.
##......#
##......#
..#.##.#.
..##..##.
#.#.##.#.

#...##..#
#....#..#
..##..###
#####.##.
#####.##.
..##..###
#....#..#
";

#[test]
fn mirrors_sample() {
    assert_eq!(run_part_1(SAMPLE.to_string()), Ok(405));
}

#[test]
fn smudged_mirrors_sample() {
    assert_eq!(run_part_2(SAMPLE.to_string()), Ok(400));
}

#[test]
fn bad_pixel_is_rejected() {
    assert_eq!(run_part_1("#x\n##".to_string()), Err(InputError::Malformed));
}
