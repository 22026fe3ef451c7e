use aoc2023::d02::{run_part_1, run_part_2};
use aoc2023::text::InputError;

const SAMPLE: &str = "Game 1: 3 blue, 4 red; 1 red, 2 green, 6 blue; 2 green
Game 2: 1 blue, 2 green; 3 green, 4 blue, 1 red; 1 green, 1 blue
Game 3: 8 green, 6 blue, 20 red; 5 blue, 4 red, 13 green; 5 green, 1 red
Game 4: 1 green, 3 red, 6 blue; 3 green, 6 red; 3 green, 15 blue, 14 red
Game 5: 6 red, 1 blue, 3 green; 2 blue, 1 red, 2 green
";

#[test]
fn possible_games_sample() {
    assert_eq!(run_part_1(SAMPLE.to_string()), Ok(8));
}

#[test]
fn game_power_sample() {
    assert_eq!(run_part_2(SAMPLE.to_string()), Ok(2286));
}

#[test]
fn unknown_colour_is_rejected() {
    assert_eq!(run_part_1("Game 1: 3 purple".to_string()), Err(InputError::Malformed));
}

#[test]
fn missing_label_is_rejected() {
    assert_eq!(run_part_2("Round 1: 3 red".to_string()), Err(InputError::Malformed));
}

#[test]
fn huge_game_ids_overflow() {
    let input = "Game 18446744073709551615: 1 red\nGame 1: 1 red\n";
    assert_eq!(run_part_1(input.to_string()), Err(InputError::TooLarge));
}

#[test]
fn zero_colour_keeps_power_zero() {
    let input = "Game 1: 18446744073709551615 red, 18446744073709551615 green\n";
    assert_eq!(run_part_2(input.to_string()), Ok(0));
}
