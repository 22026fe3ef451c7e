use aoc2023::d05::run_part_1;
use aoc2023::text::InputError;

const SAMPLE: &str = "seeds: 79 14 55 13

seed-to-soil map:
50 98 2
52 50 48

soil-to-fertilizer map:
0 15 37
37 52 2
39 0 15

fertilizer-to-water map:
49 53 8
0 11 42
42 0 7
57 7 4

water-to-light map:
88 18 7
18 25 70

light-to-temperature map:
45 77 23
81 45 19
68 64 13

temperature-to-humidity map:
0 69 1
1 0 69

humidity-to-location map:
60 56 37
56 93 4
";

#[test]
fn lowest_location_sample() {
    assert_eq!(run_part_1(SAMPLE.to_string()), Ok(35));
}

#[test]
fn unmapped_seed_keeps_its_number() {
    assert_eq!(run_part_1("seeds: 5 3\n\nmap:\n100 50 2\n".to_string()), Ok(3));
}

#[test]
fn almanac_without_seeds_is_rejected() {
    assert_eq!(run_part_1("seeds:\n\nmap:\n1 2 3\n".to_string()), Err(InputError::Malformed));
}

#[test]
fn short_map_line_is_rejected() {
    assert_eq!(run_part_1("seeds: 1\n\nmap:\n1 2\n".to_string()), Err(InputError::Malformed));
}
