use rustvent::digits::{decimal_digits, ilog10, power_of_ten};
use rustvent::span::{checked_sum, Span};
use rustvent::text::{
    blank, copy_last_section, copy_range, lines, parse_padded_u64, parse_u64, split_on,
    split_once, split_once_pair, split_sections, split_whitespace, trim, trim_end_matches,
    trim_start_matches,
};

fn strings(parts: Vec<Vec<u8>>) -> Vec<String> {
    parts.into_iter().map(|p| String::from_utf8(p).unwrap()).collect()
}

#[test]
fn text_splits_on_a_separator() {
    assert_eq!(strings(split_on(b"a,b,,c", b',')), vec!["a", "b", "", "c"]);
    assert_eq!(strings(split_on(b"a,b,", b',')), vec!["a", "b", ""]);
    assert_eq!(strings(split_on(b"", b',')), vec![""]);
    assert_eq!(strings(split_on(b",", b',')), vec!["", ""]);
    assert_eq!(copy_range(b"hello", 1, 3), b"el".to_vec());
    assert_eq!(copy_range(b"hello", 2, 2), b"".to_vec());
}

#[test]
fn text_lines_drop_the_last_line_feed_and_carriage_returns() {
    assert_eq!(strings(lines(b"one\ntwo\r\n\nfour\n")), vec!["one", "two", "", "four"]);
    assert_eq!(strings(lines(b"one\ntwo")), vec!["one", "two"]);
    assert_eq!(strings(lines(b"")), Vec::<String>::new());
    assert_eq!(strings(lines(b"\n")), vec![""]);
    assert_eq!(strings(lines(b"\n\n")), vec!["", ""]);
    assert_eq!(strings(lines(b"a\r\r\n")), vec!["a\r"]);
}

#[test]
fn text_lines_keep_a_carriage_return_that_no_line_feed_follows() {
    assert_eq!(strings(lines(b"a\r")), vec!["a\r"]);
    assert_eq!(strings(lines(b"\r")), vec!["\r"]);
    assert_eq!(strings(lines(b"a\r\nb\r")), vec!["a", "b\r"]);
    assert_eq!(strings(lines(b"a\n\r")), vec!["a", "\r"]);
    assert_eq!(strings(lines(b"a\rb\r\n")), vec!["a\rb"]);
    assert_eq!(strings(lines(b"a\r\n")), vec!["a"]);
    for text in ["a\r", "x\r\ny\r", "\r\n\r", "one\ntwo\r\n\nfour\n", "", "\n"] {
        let expected: Vec<String> = text.lines().map(|line| line.to_string()).collect();
        assert_eq!(strings(lines(text.as_bytes())), expected);
    }
}

#[test]
fn text_trims_blanks() {
    assert_eq!(trim(b"  \t xy z \r\n"), b"xy z".to_vec());
    assert_eq!(trim(b"   "), b"".to_vec());
    assert_eq!(trim(b""), b"".to_vec());
    assert_eq!(trim(b"x"), b"x".to_vec());
    assert!(blank(b' ') && blank(b'\t') && blank(b'\n') && blank(0x0b) && blank(0x0c));
    assert!(!blank(b'x') && !blank(0) && !blank(8) && !blank(14));
    assert_eq!(trim_start_matches(b"((1,2))", b'('), b"1,2))".to_vec());
    assert_eq!(trim_end_matches(b"((1,2))", b')'), b"((1,2".to_vec());
    assert_eq!(trim_end_matches(b")))", b')'), b"".to_vec());
    assert_eq!(trim_start_matches(b"", b'('), b"".to_vec());
}

#[test]
fn text_reads_numbers() {
    assert_eq!(parse_u64(b"0"), Some(0));
    assert_eq!(parse_u64(b"007"), Some(7));
    assert_eq!(parse_u64(b"+42"), Some(42));
    assert_eq!(parse_u64(b"18446744073709551615"), Some(u64::MAX));
    assert_eq!(parse_u64(b"18446744073709551616"), None);
    assert_eq!(parse_u64(b"99999999999999999999"), None);
    assert_eq!(parse_u64(b""), None);
    assert_eq!(parse_u64(b"+"), None);
    assert_eq!(parse_u64(b"-1"), None);
    assert_eq!(parse_u64(b"++1"), None);
    assert_eq!(parse_u64(b"1 "), None);
    assert_eq!(parse_u64(b"1a"), None);
    assert_eq!(parse_padded_u64(b" 12\t"), Some(12));
    assert_eq!(parse_padded_u64(b" 1 2 "), None);
}

#[test]
fn text_splits_once_and_into_sections() {
    let (a, b) = split_once(b"3-5-7", b'-').unwrap();
    assert_eq!((a, b), (b"3".to_vec(), b"5-7".to_vec()));
    assert!(split_once(b"35", b'-').is_none());
    let (a, b) = split_once_pair(b"x: y: z", b':', b' ').unwrap();
    assert_eq!((a, b), (b"x".to_vec(), b"y: z".to_vec()));
    assert!(split_once_pair(b"x:y", b':', b' ').is_none());
    assert!(split_once_pair(b"x:", b':', b' ').is_none());
    let (a, b) = split_sections(b"a\nb\n\nc\n\nd").unwrap();
    assert_eq!((a, b), (b"a\nb".to_vec(), b"c\n\nd".to_vec()));
    assert!(split_sections(b"a\nb\n").is_none());
    assert_eq!(copy_last_section(b"a\n\nb\n\nc\n"), b"c\n".to_vec());
    assert_eq!(copy_last_section(b"a\n\n\nb"), b"\nb".to_vec());
    assert_eq!(copy_last_section(b"abc"), b"abc".to_vec());
    assert_eq!(copy_last_section(b"abc\n\n"), b"".to_vec());
}

#[test]
fn text_splits_into_words() {
    assert_eq!(strings(split_whitespace(b"  one two\t\tthree \n")), vec!["one", "two", "three"]);
    assert_eq!(strings(split_whitespace(b"one")), vec!["one"]);
    assert_eq!(strings(split_whitespace(b"   ")), Vec::<String>::new());
    assert_eq!(strings(split_whitespace(b"")), Vec::<String>::new());
}

#[test]
fn digits_and_powers_of_ten() {
    assert_eq!(ilog10(0), 0);
    assert_eq!(ilog10(9), 0);
    assert_eq!(ilog10(10), 1);
    assert_eq!(ilog10(999), 2);
    assert_eq!(ilog10(u64::MAX), 19);
    assert_eq!(power_of_ten(0), Some(1));
    assert_eq!(power_of_ten(3), Some(1000));
    assert_eq!(power_of_ten(19), Some(10_000_000_000_000_000_000));
    assert_eq!(power_of_ten(20), None);
    assert_eq!(power_of_ten(u32::MAX), None);
    assert_eq!(decimal_digits(0), vec![0]);
    assert_eq!(decimal_digits(7), vec![7]);
    assert_eq!(decimal_digits(1205), vec![1, 2, 0, 5]);
    assert_eq!(decimal_digits(u64::MAX).len(), 20);
}

#[test]
fn spans_and_sums() {
    let span = Span { start: 3, end: 5 };
    assert!(span.contains(3) && span.contains(5) && !span.contains(2) && !span.contains(6));
    assert!(!Span { start: 5, end: 3 }.contains(4));
    assert_eq!(checked_sum(&[1, 2, 3]), Some(6));
    assert_eq!(checked_sum(&[]), Some(0));
    assert_eq!(checked_sum(&[u64::MAX, 0]), Some(u64::MAX));
    assert_eq!(checked_sum(&[u64::MAX, 1]), None);
}
