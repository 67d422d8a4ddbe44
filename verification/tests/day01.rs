use rustvent::days::day01::{
    parse_rotation, parse_rotations, parse_signed, Day, Dial, Rotation,
};
use rustvent::solution::{Solution, SolvedValue};

const ROTATIONS: &str = "L68\nL30\nR48\nL5\nR60\nL55\nL1\nL99\nR14\nL82\n";

#[test]
fn day01_test_part1_example() {
    assert_eq!(Day.part1(ROTATIONS), Some(3.into()));
}

#[test]
fn day01_test_part2_example() {
    assert_eq!(Day.part2(ROTATIONS), Some(6.into()));
}

#[test]
fn day01_dial_starts_at_fifty() {
    assert_eq!(Dial::new().position, 50);
}

#[test]
fn day01_rotate_counts_every_click_at_zero() {
    let mut dial = Dial::new();
    assert_eq!(dial.rotate(&Rotation::L(68)), 1);
    assert_eq!(dial.position, 82);
    assert_eq!(dial.rotate(&Rotation::L(30)), 0);
    assert_eq!(dial.position, 52);
    assert_eq!(dial.rotate(&Rotation::R(48)), 1);
    assert_eq!(dial.position, 0);
    assert_eq!(dial.rotate(&Rotation::L(5)), 0);
    assert_eq!(dial.position, 95);
    assert_eq!(dial.rotate(&Rotation::R(1000)), 10);
    assert_eq!(dial.position, 95);
    assert_eq!(dial.rotate(&Rotation::R(5)), 1);
    assert_eq!(dial.position, 0);
    assert_eq!(dial.rotate(&Rotation::L(300)), 3);
    assert_eq!(dial.position, 0);
    assert_eq!(dial.rotate(&Rotation::R(0)), 0);
    assert_eq!(dial.rotate(&Rotation::L(100)), 1);
    assert_eq!(dial.rotate(&Rotation::R(99)), 0);
    assert_eq!(dial.position, 99);
    assert_eq!(dial.rotate(&Rotation::L(199)), 2);
    assert_eq!(dial.position, 0);
}

#[test]
fn day01_amount_is_the_number_of_clicks() {
    assert_eq!(Rotation::L(7).amount(), 7);
    assert_eq!(Rotation::R(123).amount(), 123);
}

#[test]
fn day01_parses_rotations() {
    assert_eq!(parse_rotation(b"L68"), Some(Rotation::L(68)));
    assert_eq!(parse_rotation(b"R0"), Some(Rotation::R(0)));
    assert_eq!(parse_rotation(b"R+5"), Some(Rotation::R(5)));
    assert_eq!(parse_rotation(b"X5"), None);
    assert_eq!(parse_rotation(b"L"), None);
    assert_eq!(parse_rotation(b"L-5"), Some(Rotation::L(-5)));
    assert_eq!(parse_rotation(b"R-0"), Some(Rotation::R(0)));
    assert_eq!(parse_rotation(b"L-"), None);
    assert_eq!(parse_rotation(b"L+"), None);
    assert_eq!(parse_rotation(b"L-+5"), None);
    assert_eq!(parse_rotation(b"L--5"), None);
    assert_eq!(
        parse_rotation(b"R9223372036854775807"),
        Some(Rotation::R(isize::MAX))
    );
    assert_eq!(parse_rotation(b"R9223372036854775808"), None);
    assert_eq!(
        parse_rotation(b"L-9223372036854775808"),
        Some(Rotation::L(isize::MIN))
    );
    assert_eq!(parse_rotation(b"L-9223372036854775809"), None);
    assert_eq!(parse_rotation(b""), None);
    assert_eq!(parse_rotation(b"L5 "), None);
    assert_eq!(
        parse_rotations(b"\n  L1\nR2\n\n"),
        Some(vec![Rotation::L(1), Rotation::R(2)])
    );
    assert_eq!(parse_rotations(b"L1\n\nR2"), None);
    assert_eq!(parse_rotations(b""), Some(vec![]));
}

#[test]
fn day01_malformed_input_has_no_answer() {
    assert_eq!(Day.part1("L10\nup\n"), None);
    assert_eq!(Day.part2("L10\nup\n"), None);
    assert_eq!(Day.part1(""), Some(SolvedValue::Usize(0)));
    assert_eq!(Day.part2("R50"), Some(SolvedValue::Usize(1)));
}

#[test]
fn day01_parses_whole_numbers_with_a_sign() {
    assert_eq!(parse_signed(b"12"), Some(12));
    assert_eq!(parse_signed(b"+12"), Some(12));
    assert_eq!(parse_signed(b"-12"), Some(-12));
    assert_eq!(parse_signed(b"-007"), Some(-7));
    assert_eq!(parse_signed(b""), None);
    assert_eq!(parse_signed(b"-"), None);
    assert_eq!(parse_signed(b"1-2"), None);
    assert_eq!(parse_signed(b"99999999999999999999"), None);
    assert_eq!(parse_signed(b"-99999999999999999999"), None);
}

#[test]
fn day01_rotate_by_an_amount_below_zero() {
    let mut dial = Dial::new();
    assert!(dial.can_rotate(&Rotation::L(-5)));
    assert_eq!(dial.rotate(&Rotation::L(-5)), 0);
    assert_eq!(dial.position, 55);
    assert_eq!(dial.rotate(&Rotation::R(-60)), 1);
    assert_eq!(dial.position, 95);
    assert_eq!(dial.rotate(&Rotation::L(-250)), 3);
    assert_eq!(dial.position, 445);
    assert_eq!(dial.rotate(&Rotation::R(5)), 1);
    assert_eq!(dial.position, 350);
    assert_eq!(Day.part2("R-60"), Some(SolvedValue::Usize(1)));
    assert_eq!(Day.part1("L-50\n"), Some(SolvedValue::Usize(1)));
    assert_eq!(Day.part2("L-50\nR7\n"), Some(SolvedValue::Usize(1)));
}

#[test]
fn day01_rotation_beyond_the_machine_word_has_no_answer() {
    let dial = Dial::new();
    assert!(dial.can_rotate(&Rotation::R(isize::MAX)));
    assert!(dial.can_rotate(&Rotation::L(isize::MAX)));
    assert!(!dial.can_rotate(&Rotation::L(isize::MIN)));
    assert!(!dial.can_rotate(&Rotation::R(isize::MIN)));
    assert_eq!(Day.part1("L-9223372036854775808"), None);
    assert_eq!(Day.part2("R5\nR-9223372036854775808"), None);
}
