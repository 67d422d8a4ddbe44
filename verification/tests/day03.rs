use rustvent::days::day03::{max_battery_with_index, parse_bank, parse_input, Day};
use rustvent::solution::{Solution, SolvedValue};

const BANKS: &str = "987654321111111\n811111111111119\n234234234234278\n818181911112111\n";

#[test]
fn day03_test_part1_example() {
    assert_eq!(Day.part1(BANKS), Some(357.into()));
}

#[test]
fn day03_test_part2_example() {
    assert_eq!(Day.part2(BANKS), Some(3_121_910_778_619.into()));
}

#[test]
fn day03_first_greatest_battery() {
    assert_eq!(max_battery_with_index(&[1, 9, 3, 9]), (1, 9));
    assert_eq!(max_battery_with_index(&[0, 0, 0]), (0, 0));
    assert_eq!(max_battery_with_index(&[]), (0, 0));
    assert_eq!(max_battery_with_index(&[0, 0, 4]), (2, 4));
}

#[test]
fn day03_power_of_each_example_bank() {
    assert_eq!(parse_bank(b"987654321111111").max_power_2(), 98);
    assert_eq!(parse_bank(b"811111111111119").max_power_2(), 89);
    assert_eq!(parse_bank(b"234234234234278").max_power_2(), 78);
    assert_eq!(parse_bank(b"818181911112111").max_power_2(), 92);
    assert_eq!(parse_bank(b"987654321111111").max_power_12(), 987_654_321_111);
    assert_eq!(parse_bank(b"811111111111119").max_power_12(), 811_111_111_119);
    assert_eq!(parse_bank(b"234234234234278").max_power_12(), 434_234_234_278);
    assert_eq!(parse_bank(b"818181911112111").max_power_12(), 888_911_112_111);
    assert_eq!(parse_bank(b"00").max_power_2(), 0);
    assert_eq!(parse_bank(b"19").max_power_2(), 19);
    assert_eq!(parse_bank(b"123456789012").max_power_12(), 123_456_789_012);
}

#[test]
fn day03_banks_keep_digits_only() {
    assert_eq!(parse_bank(b"1a2 b3").0, vec![1, 2, 3]);
    let banks = parse_input(b"12\n\n345\n");
    assert_eq!(banks.len(), 3);
    assert_eq!(banks[0].0, vec![1, 2]);
    assert_eq!(banks[1].0, vec![]);
    assert_eq!(banks[2].0, vec![3, 4, 5]);
}

#[test]
fn day03_short_banks_have_no_answer() {
    assert_eq!(Day.part1("12\n3\n"), None);
    assert_eq!(Day.part2("12345678901\n"), None);
    assert_eq!(Day.part1(""), Some(SolvedValue::Usize(0)));
    assert_eq!(Day.part2(""), Some(SolvedValue::Usize(0)));
}
