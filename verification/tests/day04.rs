use rustvent::days::day04::{parse_map, Day, Floor, Position};
use rustvent::solution::{Solution, SolvedValue};

const FLOOR: &str = "..@@.@@@@.\n@@@.@.@.@@\n@@@@@.@.@@\n@.@@@@..@.\n@@.@@@@.@@\n.@@@@@@@.@\n.@.@.@.@@@\n@.@@@.@@@@\n.@@@@@@@@.\n@.@.@@@.@.\n";

#[test]
fn day04_test_part1_example() {
    assert_eq!(Day.part1(FLOOR), Some(13.into()));
}

#[test]
fn day04_test_part2_example() {
    assert_eq!(Day.part2(FLOOR), Some(43.into()));
}

#[test]
fn day04_counts_neighbours_within_the_plan() {
    let floor = parse_map(b"@@@\n@@@\n@@@\n");
    assert_eq!(floor.number_of_neighbour_rolls(&Position { row: 1, col: 1 }), 8);
    assert_eq!(floor.number_of_neighbour_rolls(&Position { row: 0, col: 0 }), 3);
    assert_eq!(floor.number_of_neighbour_rolls(&Position { row: 2, col: 1 }), 5);
    assert_eq!(floor.number_of_neighbour_rolls(&Position { row: 3, col: 3 }), 1);
    assert_eq!(floor.number_of_neighbour_rolls(&Position { row: 9, col: 9 }), 0);
    assert_eq!(
        floor.number_of_neighbour_rolls(&Position { row: usize::MAX, col: usize::MAX }),
        0
    );
    assert!(floor.has_roll(0, 2));
    assert!(!floor.has_roll(-1, 0));
    assert!(!floor.has_roll(0, 3));
}

#[test]
fn day04_reachables_come_row_by_row() {
    let floor = parse_map(b"@@@\n@@@\n@@@\n");
    assert_eq!(
        floor.reachables(),
        vec![
            Position { row: 0, col: 0 },
            Position { row: 0, col: 2 },
            Position { row: 2, col: 0 },
            Position { row: 2, col: 2 },
        ]
    );
    assert_eq!(floor.reachable_roll_count(), 4);
}

#[test]
fn day04_removing_strips_layer_by_layer() {
    let mut floor = parse_map(b"@@@\n@@@\n@@@\n");
    assert_eq!(floor.remove_reachables(), Some(4));
    assert_eq!(
        floor.0,
        vec![vec![false, true, false], vec![true, true, true], vec![false, true, false]]
    );
    assert_eq!(floor.remove_reachables(), Some(4));
    assert_eq!(floor.remove_reachables(), Some(1));
    assert_eq!(floor.remove_reachables(), None);
    let mut again = parse_map(b"@@@\n@@@\n@@@\n");
    assert_eq!(again.recursive_remove(), 9);
    assert_eq!(again.reachable_roll_count(), 0);
}

#[test]
fn day04_ragged_and_empty_plans() {
    let floor = parse_map(b"@\n@@@@@\n\n@@");
    assert_eq!(floor.0.len(), 4);
    assert_eq!(floor.reachable_roll_count(), 8);
    let mut empty = Floor(vec![]);
    assert_eq!(empty.recursive_remove(), 0);
    assert_eq!(Day.part1(""), Some(SolvedValue::Usize(0)));
    assert_eq!(Day.part2("....\n"), Some(SolvedValue::Usize(0)));
}
