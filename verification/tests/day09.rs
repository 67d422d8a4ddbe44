use rustvent::days::day09::{
    insert_sorted, largest_rectangle, largest_within_loop, no_corner_between, parse_input,
    position_in, rectangle_area, Compressor, Day, Position,
};
use rustvent::solution::{Solution, SolvedValue};

const TILES: &str = "7,1\n11,1\n11,7\n9,7\n9,5\n2,5\n2,3\n7,3\n";

fn tile(x: usize, y: usize) -> Position {
    Position { x, y }
}

#[test]
fn day09_test_part1_example() {
    assert_eq!(Day.part1(TILES), Some(50.into()));
}

#[test]
fn day09_test_part2_example() {
    assert_eq!(Day.part2(TILES), Some(24.into()));
}

#[test]
fn day09_parses_tiles_and_skips_malformed_lines() {
    assert_eq!(parse_input(b"7,1\nx,2\n3\n11,1\n 1,2\n1,2,3\n"), vec![tile(7, 1), tile(11, 1)]);
    assert_eq!(parse_input(b""), vec![]);
}

#[test]
fn day09_sorted_insertion_and_search() {
    let mut v: Vec<usize> = vec![];
    for x in [5, 1, 9, 5, 3, 1, 7] {
        insert_sorted(&mut v, x);
    }
    assert_eq!(v, vec![1, 3, 5, 7, 9]);
    assert_eq!(position_in(&v, 1), Some(0));
    assert_eq!(position_in(&v, 7), Some(3));
    assert_eq!(position_in(&v, 9), Some(4));
    assert_eq!(position_in(&v, 4), None);
    assert_eq!(position_in(&v, 0), None);
    assert_eq!(position_in(&v, 10), None);
    assert_eq!(position_in(&vec![], 3), None);
}

#[test]
fn day09_compressor_round_trips() {
    let corners = parse_input(TILES.as_bytes());
    let compressor = Compressor::new(&corners);
    assert_eq!(compressor.xs, vec![2, 7, 9, 11]);
    assert_eq!(compressor.ys, vec![1, 3, 5, 7]);
    assert_eq!(compressor.compress_x(9), Some(2));
    assert_eq!(compressor.compress_x(8), None);
    assert_eq!(compressor.compress_y(7), Some(3));
    assert_eq!(compressor.compress_y(0), None);
    assert_eq!(compressor.decompress_x(3), Some(11));
    assert_eq!(compressor.decompress_x(4), None);
    assert_eq!(compressor.decompress_y(0), Some(1));
    assert_eq!(compressor.decompress_y(9), None);
    for corner in &corners {
        let small = compressor.compress(corner).unwrap();
        assert_eq!(compressor.decompress(&small), Some(*corner));
    }
    assert_eq!(compressor.compress(&tile(2, 2)), None);
    assert_eq!(compressor.decompress(&tile(0, 4)), None);
}

#[test]
fn day09_areas_count_both_corners() {
    assert_eq!(rectangle_area(&tile(2, 5), &tile(11, 1)), 50);
    assert_eq!(rectangle_area(&tile(7, 3), &tile(7, 3)), 1);
    assert_eq!(rectangle_area(&tile(0, 0), &tile(usize::MAX, 0)), usize::MAX as u128 + 1);
    assert_eq!(rectangle_area(&tile(0, 0), &tile(usize::MAX, usize::MAX)), u128::MAX);
    assert_eq!(largest_rectangle(&[]), 0);
    assert_eq!(largest_rectangle(&[tile(4, 4)]), 0);
    assert_eq!(largest_rectangle(&[tile(4, 4), tile(4, 4)]), 1);
}

#[test]
fn day09_rectangles_within_the_loop() {
    let corners = parse_input(TILES.as_bytes());
    assert_eq!(largest_within_loop(&corners), Some(24));
    assert_eq!(largest_within_loop(&[]), None);
    assert_eq!(largest_within_loop(&[tile(3, 3)]), Some(0));
    let square = [tile(0, 0), tile(9, 0), tile(9, 9), tile(0, 9)];
    assert_eq!(largest_within_loop(&square), Some(100));
    assert!(no_corner_between(&vec![tile(0, 0), tile(2, 2), tile(1, 0)], 0, 1));
    assert!(!no_corner_between(&vec![tile(0, 0), tile(2, 2), tile(1, 1)], 0, 1));
    assert!(!no_corner_between(&vec![tile(0, 0), tile(2, 2), tile(1, 1)], 1, 0));
}

#[test]
fn day09_answers_without_tiles() {
    assert_eq!(Day.part1(""), Some(SolvedValue::Usize(0)));
    assert_eq!(Day.part2(""), None);
}
