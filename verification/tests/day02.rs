use rustvent::days::day02::{
    double, find_doubles_in_range, get_base10_half_number, get_range_repitions,
    has_number_repetitions, parse_input_to_ranges, Day,
};
use rustvent::solution::{Solution, SolvedValue};
use rustvent::span::Span;

const RANGES: &str = "11-22,95-115,998-1012,1188511880-1188511890,222220-222224,\
1698522-1698528,446443-446449,38593856-38593862,565653-565659,\
824824821-824824827,2121212118-2121212124";

#[test]
fn day02_part1_adds_up_the_doubles() {
    assert_eq!(Day.part1(RANGES), Some(1_227_775_554.into()));
}

#[test]
fn day02_test_part2_example() {
    assert_eq!(Day.part2(RANGES), Some(4_174_379_265.into()));
}

#[test]
fn day02_parses_ranges_between_commas() {
    assert_eq!(
        parse_input_to_ranges(b"11-22, 95 - 115 ,x-3,7,9-8\n"),
        vec![Span { start: 11, end: 22 }, Span { start: 95, end: 115 }, Span { start: 9, end: 8 }]
    );
    assert_eq!(parse_input_to_ranges(b""), vec![]);
}

#[test]
fn day02_half_numbers() {
    assert_eq!(get_base10_half_number(7, 1), 1);
    assert_eq!(get_base10_half_number(10, 1), 1);
    assert_eq!(get_base10_half_number(10, 0), 1);
    assert_eq!(get_base10_half_number(100, 1), 1);
    assert_eq!(get_base10_half_number(100, 0), 10);
    assert_eq!(get_base10_half_number(1234, 1), 12);
    assert_eq!(get_base10_half_number(9876, 0), 98);
    assert_eq!(get_base10_half_number(12345, 0), 123);
    assert_eq!(get_base10_half_number(12345, 1), 12);
    assert_eq!(get_base10_half_number(u64::MAX, 0), 1_844_674_407);
    assert_eq!(get_base10_half_number(u64::MAX, 40), 0);
}

#[test]
fn day02_doubles() {
    assert_eq!(double(1), Some(11));
    assert_eq!(double(12), Some(1212));
    assert_eq!(double(100), Some(100_100));
    assert_eq!(double(0), Some(0));
    assert_eq!(double(999_999_999), Some(999_999_999_999_999_999));
    assert_eq!(double(1_844_674_407), Some(18_446_744_071_844_674_407));
    assert_eq!(double(1_844_674_408), None);
    assert_eq!(find_doubles_in_range(&Span { start: 11, end: 22 }), vec![11, 22]);
    assert_eq!(find_doubles_in_range(&Span { start: 95, end: 115 }), vec![99]);
    assert_eq!(find_doubles_in_range(&Span { start: 998, end: 1012 }), vec![1010]);
    assert_eq!(find_doubles_in_range(&Span { start: 1698522, end: 1698528 }), vec![]);
    assert_eq!(find_doubles_in_range(&Span { start: 22, end: 11 }), vec![]);
}

#[test]
fn day02_repetitions() {
    assert!(has_number_repetitions(11));
    assert!(has_number_repetitions(11_241_124));
    assert!(has_number_repetitions(123_123_123));
    assert!(has_number_repetitions(1_111_111));
    assert!(!has_number_repetitions(0));
    assert!(!has_number_repetitions(7));
    assert!(!has_number_repetitions(12));
    assert!(!has_number_repetitions(121));
    assert!(!has_number_repetitions(1_231_230));
    assert_eq!(get_range_repitions(&Span { start: 95, end: 115 }), vec![99, 111]);
    assert_eq!(get_range_repitions(&Span { start: 998, end: 1012 }), vec![999, 1010]);
    assert_eq!(get_range_repitions(&Span { start: 5, end: 4 }), vec![]);
    assert_eq!(get_range_repitions(&Span { start: u64::MAX, end: u64::MAX }), vec![]);
}

#[test]
fn day02_empty_input_sums_to_zero() {
    assert_eq!(Day.part1(""), Some(SolvedValue::Usize(0)));
    assert_eq!(Day.part2("nothing here"), Some(SolvedValue::Usize(0)));
}
