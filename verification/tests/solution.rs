use rustvent::days::{day00, day01, day03, day08, day12, get_day};
use rustvent::solution::{solved, Part, Solution, SolvedValue};

#[test]
fn solved_values_come_from_numbers() {
    assert_eq!(SolvedValue::from(7usize), SolvedValue::Usize(7));
    let value: SolvedValue = 9usize.into();
    assert_eq!(value, SolvedValue::Usize(9));
    assert_eq!(solved(12), Some(SolvedValue::Usize(12)));
    assert_eq!(solved(u64::MAX), Some(SolvedValue::Usize(usize::MAX)));
}

#[test]
fn solved_values_come_from_text() {
    assert_eq!(SolvedValue::from("abc"), SolvedValue::String("abc".to_string()));
    assert_eq!(SolvedValue::from("abc".to_string()), SolvedValue::String("abc".to_string()));
    assert_ne!(SolvedValue::from("7"), SolvedValue::Usize(7));
}

#[test]
fn parts_have_numbers() {
    assert_eq!(u8::from(Part::One), 1);
    assert_eq!(u8::from(Part::Two), 2);
}

#[test]
fn day00_test_part1_example() {
    assert_eq!(day00::Day.part1("anything"), None);
}

#[test]
fn day00_test_part2_example() {
    assert_eq!(day00::Day.part2("anything"), None);
}

#[test]
fn run_picks_the_part() {
    let rotations = "L50\nR100\n";
    assert_eq!(day01::Day.run(rotations, Part::One), day01::Day.part1(rotations));
    assert_eq!(day01::Day.run(rotations, Part::Two), day01::Day.part2(rotations));
    assert_eq!(day01::Day.run(rotations, Part::One), Some(SolvedValue::Usize(2)));
    assert_eq!(day01::Day.run(rotations, Part::Two), Some(SolvedValue::Usize(2)));
}

#[test]
fn get_day_knows_days_zero_to_eleven() {
    for day in 0..=11 {
        assert!(get_day(day).is_some());
    }
    assert!(get_day(12).is_none());
    assert!(get_day(25).is_none());
    assert!(get_day(usize::MAX).is_none());
}

#[test]
fn get_day_hands_out_the_solver_of_that_day() {
    let rotations = "L68\nL30\nR48\n";
    assert_eq!(get_day(1).unwrap().part1(rotations), day01::Day.part1(rotations));
    assert_eq!(get_day(1).unwrap().run(rotations, Part::Two), Some(SolvedValue::Usize(2)));
    let banks = "987654321111111\n";
    assert_eq!(get_day(3).unwrap().part1(banks), Some(SolvedValue::Usize(98)));
    assert_eq!(get_day(3).unwrap().part2(banks), day03::Day.part2(banks));
    let boxes = "0,0,0\n3,0,0\n";
    assert_eq!(get_day(8).unwrap().part2(boxes), day08::Day.part2(boxes));
    assert_eq!(get_day(8).unwrap().part2(boxes), Some(SolvedValue::Usize(0)));
    let near = "2,0,0\n3,0,0";
    assert_eq!(get_day(8).unwrap().part2(near), Some(SolvedValue::Usize(6)));
    assert_eq!(get_day(0).unwrap().part1(boxes), None);
    assert_eq!(day12::Day.part1("3x3: 1\n"), Some(SolvedValue::Usize(1)));
}

#[test]
fn answers_are_shown_to_the_right_of_forty_columns() {
    assert_eq!(SolvedValue::Usize(40).to_text(), format!("{: >40}", 40));
    assert_eq!(SolvedValue::Usize(0).to_text(), format!("{: >40}", 0));
    assert_eq!(SolvedValue::Usize(usize::MAX).to_text(), format!("{: >40}", usize::MAX));
    assert_eq!(SolvedValue::from("abc").to_text(), format!("{: >40}", "abc"));
    assert_eq!(SolvedValue::from("").to_text(), " ".repeat(40));
    let long = "x".repeat(45);
    assert_eq!(SolvedValue::from(long.as_str()).to_text(), long);
    let exact = "y".repeat(40);
    assert_eq!(SolvedValue::from(exact.as_str()).to_text(), exact);
    assert_eq!(SolvedValue::from("\u{e9}t\u{e9}").to_text(), format!("{: >40}", "\u{e9}t\u{e9}"));
}

#[test]
fn parts_are_shown_by_their_number() {
    assert_eq!(Part::One.to_text(), "1");
    assert_eq!(Part::Two.to_text(), "2");
}
