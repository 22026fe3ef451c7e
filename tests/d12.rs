use aoc2023::d12::{run_part_1, run_part_2};
use aoc2023::text::InputError;

const SAMPLE: &str = "???.### 1,1,3
.??..??...?##. 1,1,3
?#?#?#?#?#?#?#? 1,3,1,6
????.#...#... 4,1,1
????.######..#####. 1,6,5
?###???????? 3,2,1
";

#[test]
fn arrangements_sample() {
    assert_eq!(run_part_1(SAMPLE.to_string()), Ok(21));
}

#[test]
fn unfolded_arrangements_sample() {
    assert_eq!(run_part_2(SAMPLE.to_string()), Ok(525152));
}

#[test]
fn single_record_counts() {
    assert_eq!(run_part_1("?###???????? 3,2,1".to_string()), Ok(10));
}

#[test]
fn unknown_spring_is_rejected() {
    assert_eq!(run_part_1("?x? 1".to_string()), Err(InputError::Malformed));
}
