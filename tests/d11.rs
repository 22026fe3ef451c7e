use aoc2023::d11::{run_part_1, run_part_2};

const SAMPLE: &str = "...#......
.......#..
#.........
..........
......#...
.#........
.........#
..........
.......#..
#...#.....
";

#[test]
fn galaxies_sample() {
    assert_eq!(run_part_1(SAMPLE.to_string()), Ok(374));
}

#[test]
fn old_galaxies_sample() {
    assert_eq!(run_part_2(SAMPLE.to_string()), Ok(82000210));
}

#[test]
fn no_galaxies_sum_to_zero() {
    assert_eq!(run_part_1("...\n...".to_string()), Ok(0));
}
