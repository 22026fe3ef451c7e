use aoc2023::d07::{run_part_1, run_part_2};
use aoc2023::text::InputError;

const SAMPLE: &str = "32T3K 765\nT55J5 684\nKK677 28\nKTJJT 220\nQQQJA 483\n";

#[test]
fn winnings_sample() {
    assert_eq!(run_part_1(SAMPLE.to_string()), Ok(6440));
}

#[test]
fn joker_winnings_sample() {
    assert_eq!(run_part_2(SAMPLE.to_string()), Ok(5905));
}

#[test]
fn equal_hands_keep_their_order() {
    assert_eq!(run_part_1("AAAAA 1\nAAAAA 10\n".to_string()), Ok(21));
}

#[test]
fn short_hand_is_rejected() {
    assert_eq!(run_part_1("AAAA 1".to_string()), Err(InputError::Malformed));
}
