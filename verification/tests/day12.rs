use rustvent::days::day12::{count_roomy, parse_counts, parse_input, parse_region, Day, Region};
use rustvent::solution::{Solution, SolvedValue};

const REGIONS: &str = "0:\n###\n##.\n##.\n\n1:\n###\n.#.\n###\n\n4x4: 0 0 0 0 2 0\n12x5: 1 0 1 0 2 2\n12x5: 1 0 1 0 3 2\n";

#[test]
fn day12_counts_roomy_regions() {
    assert_eq!(Day.part1(REGIONS), Some(SolvedValue::Usize(1)));
    let regions = parse_input(REGIONS.as_bytes()).unwrap();
    assert_eq!(regions.len(), 3);
    assert_eq!(regions[1], Region { width: 12, height: 5, counts: vec![1, 0, 1, 0, 2, 2] });
    assert_eq!(count_roomy(&regions), 1);
    assert_eq!(count_roomy(&vec![]), 0);
    assert!(parse_input(b"1x1: 1\n1y1: 1\n").is_none());
}

#[test]
fn day12_test_part2_example() {
    assert_eq!(Day.part2(REGIONS), None);
}

#[test]
fn day12_reads_regions() {
    assert_eq!(
        parse_region(b"12x5: 1 0 1 0 2 2"),
        Some(Region { width: 12, height: 5, counts: vec![1, 0, 1, 0, 2, 2] })
    );
    assert_eq!(
        parse_region(b"no colon here"),
        Some(Region { width: 0, height: 0, counts: vec![0, 0, 0, 0, 0, 0] })
    );
    assert_eq!(parse_region(b"12: 1 2"), None);
    assert_eq!(parse_region(b"12xx: 1 2"), None);
    assert_eq!(parse_region(b"12x5: 1 b"), None);
    assert_eq!(parse_region(b"3x3:  "), Some(Region { width: 3, height: 3, counts: vec![] }));
    assert_eq!(parse_counts(b"  7\t8  9 "), Some(vec![7, 8, 9]));
    assert_eq!(parse_counts(b""), Some(vec![]));
}

#[test]
fn day12_room_is_nine_units_a_present() {
    assert!(Region { width: 3, height: 3, counts: vec![1] }.is_roomy());
    assert!(!Region { width: 3, height: 3, counts: vec![1, 1] }.is_roomy());
    assert!(Region { width: 6, height: 3, counts: vec![1, 1] }.is_roomy());
    assert!(Region { width: 0, height: 0, counts: vec![] }.is_roomy());
    assert!(Region { width: u64::MAX, height: u64::MAX, counts: vec![u64::MAX; 5] }.is_roomy());
    assert!(!Region { width: u64::MAX, height: 8, counts: vec![u64::MAX] }.is_roomy());
    assert!(Region { width: u64::MAX, height: 9, counts: vec![u64::MAX] }.is_roomy());
}

#[test]
fn day12_only_the_last_section_counts() {
    assert_eq!(Day.part1("1x1: 5\n\n3x3: 1\n"), Some(SolvedValue::Usize(1)));
    assert_eq!(Day.part1("3x3: 1\n\n\n3x3: 2\n"), Some(SolvedValue::Usize(1)));
    assert_eq!(Day.part1("3x3: 1\n\n\n\n3x3: 2\n"), Some(SolvedValue::Usize(0)));
    assert_eq!(Day.part1("3x3: 1\n\nbad: 2\n"), None);
    assert_eq!(Day.part1(""), Some(SolvedValue::Usize(0)));
    assert_eq!(Day.part1("anything\n"), Some(SolvedValue::Usize(1)));
}
