use aoc2023::d15::run_part_1;

#[test]
fn hash_sample() {
    let input = "rn=1,cm-,qp=3,cm=2,qp-,pc=4,ot=9,ab=5,pc-,pc=6,ot=7\n";
    assert_eq!(run_part_1(input.to_string()), Ok(1320));
}

#[test]
fn hash_of_word() {
    assert_eq!(run_part_1("HASH".to_string()), Ok(52));
}

#[test]
fn lens_power_sample() {
    let input = "rn=1,cm-,qp=3,cm=2,qp-,pc=4,ot=9,ab=5,pc-,pc=6,ot=7\n";
    assert_eq!(aoc2023::d15::run_part_2(input.to_string()), Ok(145));
}

#[test]
fn malformed_step_is_rejected() {
    assert_eq!(aoc2023::d15::run_part_2("ab".to_string()), Err(aoc2023::text::InputError::Malformed));
}
