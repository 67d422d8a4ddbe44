use rustvent::days::day05::{
    do_ranges_overlap, merge_overlapping_ranges, parse_database, parse_span, Database, Day,
};
use rustvent::solution::{Solution, SolvedValue};
use rustvent::span::Span;

const DATABASE: &str = "3-5\n10-14\n16-20\n12-18\n\n1\n5\n8\n11\n17\n32\n";

fn span(start: u64, end: u64) -> Span {
    Span { start, end }
}

#[test]
fn day05_test_part1_example() {
    assert_eq!(Day.part1(DATABASE), Some(3.into()));
}

#[test]
fn day05_test_part2_example() {
    assert_eq!(Day.part2(DATABASE), Some(14.into()));
}

#[test]
fn day05_overlap_needs_a_common_number() {
    assert!(do_ranges_overlap(&span(3, 5), &span(5, 9)));
    assert!(do_ranges_overlap(&span(5, 9), &span(3, 5)));
    assert!(do_ranges_overlap(&span(1, 9), &span(4, 5)));
    assert!(!do_ranges_overlap(&span(3, 5), &span(6, 9)));
    assert!(!do_ranges_overlap(&span(6, 9), &span(3, 5)));
}

#[test]
fn day05_merging_leaves_ranges_apart() {
    assert_eq!(
        merge_overlapping_ranges(&[span(3, 5), span(10, 14), span(16, 20), span(12, 18)]),
        vec![span(3, 5), span(10, 20)]
    );
    assert_eq!(
        merge_overlapping_ranges(&[span(1, 2), span(5, 6), span(9, 10), span(2, 9)]),
        vec![span(1, 10)]
    );
    assert_eq!(merge_overlapping_ranges(&[span(1, 2), span(3, 4)]), vec![span(1, 2), span(3, 4)]);
    assert_eq!(merge_overlapping_ranges(&[]), vec![]);
}

#[test]
fn day05_counts() {
    let database = Database {
        fresh: vec![span(0, u64::MAX), span(5, 6)],
        items: vec![0, 7, u64::MAX],
    };
    assert_eq!(database.count_fresh_items(), 3);
    assert_eq!(database.possible_items_in_fresh_ranges_count(), 1u128 << 64);
    let empty = Database { fresh: vec![], items: vec![1, 2] };
    assert_eq!(empty.count_fresh_items(), 0);
    assert_eq!(empty.possible_items_in_fresh_ranges_count(), 0);
    assert!(database.is_fresh(9));
    assert!(!empty.is_fresh(9));
}

#[test]
fn day05_parses_ranges_and_items() {
    assert_eq!(parse_span(b" 3 - 5 "), Some(span(3, 5)));
    assert_eq!(parse_span(b"5-3"), None);
    assert_eq!(parse_span(b"35"), None);
    assert_eq!(parse_span(b"3-5-7"), None);
    let database = parse_database(b"1-2\njunk\n7-7\n\n4\nx\n 9 \n").unwrap();
    assert_eq!(database.fresh, vec![span(1, 2), span(7, 7)]);
    assert_eq!(database.items, vec![4, 9]);
    assert!(parse_database(b"1-2\n3\n").is_none());
}

#[test]
fn day05_needs_an_empty_line() {
    assert_eq!(Day.part1("3-5\n4\n"), None);
    assert_eq!(Day.part2("3-5\n4\n"), None);
    assert_eq!(Day.part2("3-5\n4-9\n\n"), Some(SolvedValue::Usize(7)));
}

#[test]
fn day05_merged_ranges_keep_the_place_of_the_first_of_them() {
    assert_eq!(
        merge_overlapping_ranges(&[span(10, 14), span(3, 5), span(12, 18)]),
        vec![span(10, 18), span(3, 5)]
    );
    assert_eq!(
        merge_overlapping_ranges(&[span(20, 30), span(1, 2), span(8, 9), span(2, 8), span(9, 20)]),
        vec![span(1, 30)]
    );
    assert_eq!(
        merge_overlapping_ranges(&[span(7, 7), span(1, 1), span(4, 4), span(1, 1)]),
        vec![span(7, 7), span(1, 1), span(4, 4)]
    );
}
