use aoc2023::d14::run_part_1;
use aoc2023::text::InputError;

const SAMPLE: &str = "O....#....
O.OO#....#
.....##...
OO.#O....O
.O.....O#.
O.#..O.#.#
..O..#O..O
.......O..
#....###..
#OO..#....
";

#[test]
fn north_load_sample() {
    assert_eq!(run_part_1(SAMPLE.to_string()), Ok(136));
}

#[test]
fn ragged_platform_is_rejected() {
    assert_eq!(run_part_1("O..\nO.".to_string()), Err(InputError::Malformed));
}
