use rustvent::days::day08::{parse_coordinate, parse_input, parse_point, Day};
use rustvent::linkage::point::Point;
use rustvent::solution::{Part, Solution, SolvedValue};

const BOXES: &str = "162,817,812\n57,618,57\n906,360,560\n592,479,940\n352,342,300\n466,668,158\n542,29,236\n431,825,988\n739,650,466\n52,470,668\n216,146,977\n819,987,18\n117,168,530\n805,96,715\n346,949,466\n970,615,88\n941,993,340\n862,61,35\n984,92,344\n425,690,689\n";

#[test]
fn day08_test_part1_example() {
    assert_eq!(Day.part1(BOXES), Some(40.into()));
}

#[test]
fn day08_test_part2_example() {
    assert_eq!(Day.part2(BOXES), Some(25_272.into()));
}

#[test]
fn day08_run_picks_the_part() {
    assert_eq!(Day.run(BOXES, Part::One), Some(SolvedValue::Usize(40)));
    assert_eq!(Day.run(BOXES, Part::Two), Some(SolvedValue::Usize(25_272)));
}

#[test]
fn day08_parses_points_and_skips_malformed_lines() {
    let points = parse_input(b"1,2,3\nnot a point\n4,5\n6,7,8,9\n+10,11,12\r\n,1,2\n4294967295,0,0\n4294967296,0,0\n 1,2,3\n18446744073709551616,0,0\n13,14,15");
    assert_eq!(
        points,
        vec![
            Point::new(1, 2, 3),
            Point::new(10, 11, 12),
            Point::new(4_294_967_295, 0, 0),
            Point::new(4_294_967_296, 0, 0),
            Point::new(13, 14, 15),
        ]
    );
    assert_eq!(parse_input(b""), vec![]);
}

#[test]
fn day08_parse_point_wants_three_numbers() {
    assert_eq!(parse_point(b"0,0,0"), Some(Point::new(0, 0, 0)));
    assert_eq!(parse_point(b"007,8,9"), Some(Point::new(7, 8, 9)));
    assert_eq!(parse_point(b"1,2,"), None);
    assert_eq!(parse_point(b"1,,2"), None);
    assert_eq!(parse_point(b"1,2,-3"), None);
    assert_eq!(parse_point(b""), None);
    assert_eq!(parse_coordinate(b"4294967295"), Some(4_294_967_295));
    assert_eq!(parse_coordinate(b"4294967296"), Some(4_294_967_296));
    assert_eq!(parse_coordinate(b"18446744073709551615"), Some(usize::MAX));
    assert_eq!(parse_coordinate(b"18446744073709551616"), None);
    assert_eq!(parse_coordinate(b"+"), None);
    assert_eq!(parse_point(b"4294967296,0,0"), Some(Point::new(4_294_967_296, 0, 0)));
}

#[test]
fn day08_needs_enough_boxes() {
    assert_eq!(Day.part1(""), None);
    assert_eq!(Day.part2(""), None);
    assert_eq!(Day.part2("1,1,1\n"), None);
    assert_eq!(Day.part1("1,1,1\n2,2,2\n3,3,3\n"), None);
    assert_eq!(Day.part2("3,0,0\n5,0,0\n"), Some(SolvedValue::Usize(15)));
}

#[test]
fn day08_reads_coordinates_of_the_machine_word() {
    assert_eq!(Day.part2("4294967296,0,0\n1,0,0\n"), Some(SolvedValue::Usize(4_294_967_296)));
    assert_eq!(Day.part2("2,0,0\n3,0,0"), Some(SolvedValue::Usize(6)));
    assert_eq!(Day.part2("4294967296,0,0\n4294967296,1,0\n"), None);
    assert_eq!(Day.part2("18446744073709551615,18446744073709551615,0\n0,0,0\n"), None);
    assert_eq!(Day.part1("18446744073709551615,18446744073709551615,0\n0,0,0\n"), None);
}
