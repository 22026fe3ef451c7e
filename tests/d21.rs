use aoc2023::d21::run_part_1;
use aoc2023::text::InputError;

const SAMPLE: &str = "...........
.....###.#.
.###.##..#.
..#.#...#..
....#.#....
.##..S####.
.##..#...#.
.......##..
.##.#.####.
.##..##.##.
...........
";

#[test]
fn reachable_plots_sample() {
    assert_eq!(run_part_1(SAMPLE.to_string(), 6), Ok(16));
}

#[test]
fn no_steps_leaves_the_start() {
    assert_eq!(run_part_1(SAMPLE.to_string(), 0), Ok(1));
}

#[test]
fn map_without_start_is_rejected() {
    assert_eq!(run_part_1("...\n...".to_string(), 3), Err(InputError::Malformed));
}
