use rustvent::days::day07::{parse_manifold, Day, Manifold, Position};
use rustvent::solution::{Solution, SolvedValue};

const MANIFOLD: &str = ".......S.......\n...............\n.......^.......\n...............\n......^.^......\n...............\n.....^.^.^.....\n...............\n....^.^...^....\n...............\n...^.^...^.^...\n...............\n..^...^.....^..\n...............\n.^.^.^.^.^...^.\n...............\n";

#[test]
fn day07_test_part1_example() {
    assert_eq!(Day.part1(MANIFOLD), Some(21.into()));
}

#[test]
fn day07_test_part2_example() {
    assert_eq!(Day.part2(MANIFOLD), Some(40.into()));
}

#[test]
fn day07_parses_start_and_splitters() {
    let manifold = parse_manifold(b"  ..S..  \n..^..\n.^.^.\n");
    assert_eq!(manifold.start, Position { col: 2, row: 0 });
    assert_eq!(
        manifold.splitters,
        vec![
            vec![false, false, false, false, false],
            vec![false, false, true, false, false],
            vec![false, true, false, true, false],
        ]
    );
    assert!(manifold.is_splitter_at(Position { col: 2, row: 1 }));
    assert!(!manifold.is_splitter_at(Position { col: 2, row: 0 }));
    assert!(!manifold.is_splitter_at(Position { col: 9, row: 1 }));
    assert!(!manifold.is_splitter_at(Position { col: 0, row: 9 }));
    assert!(manifold.is_splitter_below(Position { col: 2, row: 0 }));
    assert!(!manifold.is_splitter_below(Position { col: 2, row: usize::MAX }));
    assert_eq!(manifold.width(), 5);
    assert!(manifold.can_walk());
    assert_eq!(manifold.number_of_splits(), Some(3));
    assert_eq!(manifold.number_of_timeline_splits(), Some(4));
}

#[test]
fn day07_beam_without_splitters_falls_straight() {
    let manifold = parse_manifold(b".S.\n...\n...\n");
    assert_eq!(manifold.number_of_splits(), Some(0));
    assert_eq!(manifold.number_of_timeline_splits(), Some(1));
}

#[test]
fn day07_beam_leaving_to_the_left_has_no_answer() {
    assert_eq!(Day.part1("S..\n^..\n"), None);
    assert_eq!(Day.part2("S..\n^..\n"), None);
    assert_eq!(Day.part2(".S.\n..^\n"), None);
    assert_eq!(Day.part1(".S.\n..^\n"), Some(SolvedValue::Usize(0)));
    assert_eq!(Day.part1("..S\n..^\n"), Some(SolvedValue::Usize(1)));
    assert_eq!(Day.part2(""), None);
    assert_eq!(Day.part1(""), Some(SolvedValue::Usize(0)));
}

#[test]
fn day07_start_outside_the_rows() {
    let manifold = Manifold {
        start: Position { col: 7, row: 0 },
        splitters: vec![vec![false, true], vec![true, false]],
    };
    assert_eq!(manifold.number_of_splits(), Some(0));
    assert_eq!(manifold.number_of_timeline_splits(), None);
    assert!(!manifold.can_walk());
}

#[test]
fn day07_draws_the_manifold() {
    let manifold = parse_manifold(b"..S..\n..^..\n.^.^.\n");
    assert_eq!(manifold.drawing(), "..S..\n..^..\n.^.^.\n");
    let ragged = Manifold {
        start: Position { col: 1, row: 1 },
        splitters: vec![vec![true], vec![], vec![false, true, false]],
    };
    assert_eq!(ragged.drawing(), "^\n\n.^.\n");
    let hidden = Manifold { start: Position { col: 0, row: 0 }, splitters: vec![vec![true]] };
    assert_eq!(hidden.drawing(), "S\n");
    assert_eq!(parse_manifold(b"").drawing(), "");
}
