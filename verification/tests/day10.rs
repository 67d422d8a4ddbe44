use rustvent::days::day10::{
    bool_vec_to_u64, button_mask, parse_indices, parse_machine, parse_machines, presses_from,
    total_presses, Day, Machine,
};
use rustvent::solution::{Solution, SolvedValue};
use rustvent::solver::Verdict;

const MACHINES: &str = "[.##.] (3) (1,3) (2) (2,3) (0,2) (0,1) {3,5,4,7}\n[...#.] (0,2,3,4) (2,3) (0,4) (0,1,2) (1,2,3,4) {7,5,12,7,2}\n[.###.#] (0,1,2,3,4) (0,3,4) (0,1,2,4,5) (1,2) {10,11,11,5,10,5}\n";

fn first_machine() -> Machine {
    parse_machine(b"[.##.] (3) (1,3) (2) (2,3) (0,2) (0,1) {3,5,4,7}").unwrap()
}

#[test]
fn day10_test_part1_example() {
    assert_eq!(Day.part1(MACHINES), Some(7.into()));
}

#[test]
fn day10_test_part2_example() {
    assert_eq!(Day.part2(MACHINES), Some(33.into()));
}

#[test]
fn day10_lights_and_buttons_as_numbers() {
    assert_eq!(bool_vec_to_u64(&[false, true, true, false]), 6);
    assert_eq!(bool_vec_to_u64(&[]), 0);
    assert_eq!(bool_vec_to_u64(&[true; 64]), u64::MAX);
    assert_eq!(button_mask(&vec![1, 3]), 10);
    assert_eq!(button_mask(&vec![0, 0]), 0);
    assert_eq!(button_mask(&vec![63]), 1 << 63);
    assert_eq!(button_mask(&vec![]), 0);
}

#[test]
fn day10_parses_a_machine() {
    let machine = first_machine();
    assert_eq!(machine.lights, vec![false, true, true, false]);
    assert_eq!(
        machine.buttons,
        vec![vec![3], vec![1, 3], vec![2], vec![2, 3], vec![0, 2], vec![0, 1]]
    );
    assert_eq!(machine.joltages, vec![3, 5, 4, 7]);
    assert_eq!(machine.masks(), vec![8, 10, 4, 12, 5, 3]);
    assert!(machine.is_wf());
    assert!(machine.is_modest());
    assert!(parse_machine(b"[.##.]").is_none());
    assert!(parse_machine(b"[ (3) {3}").is_none());
    assert!(parse_machine(b"[.] (3) 3}").is_none());
    let odd = parse_machine(b"[] ((0,x,2)) () {}}").unwrap();
    assert_eq!(odd.lights, vec![]);
    assert_eq!(odd.buttons, vec![vec![0, 2], vec![]]);
    assert_eq!(odd.joltages, vec![]);
    assert_eq!(parse_indices(b"1, 2,,x,3"), vec![1, 2, 3]);
    assert!(parse_machines(b"[.] (0) {1}\nnope\n").is_none());
    assert_eq!(parse_machines(b"").unwrap().len(), 0);
}

#[test]
fn day10_fewest_presses_for_the_lights() {
    assert_eq!(first_machine().init_steps(), 2);
    let second = parse_machine(b"[...#.] (0,2,3,4) (2,3) (0,4) (0,1,2) (1,2,3,4) {7,5,12,7,2}");
    assert_eq!(second.unwrap().init_steps(), 3);
    let dark = Machine { lights: vec![false, false], buttons: vec![vec![0]], joltages: vec![] };
    assert_eq!(dark.init_steps(), 0);
    let stuck = Machine { lights: vec![false, true], buttons: vec![vec![0]], joltages: vec![] };
    assert_eq!(stuck.init_steps(), usize::MAX);
    let bare = Machine { lights: vec![false], buttons: vec![], joltages: vec![] };
    assert_eq!(bare.init_steps(), usize::MAX);
}

#[test]
fn day10_machines_that_do_not_fit() {
    let wide = Machine { lights: vec![false; 65], buttons: vec![vec![0]], joltages: vec![] };
    assert!(!wide.is_wf());
    let far = Machine { lights: vec![true], buttons: vec![vec![0], vec![64]], joltages: vec![] };
    assert!(!far.is_wf());
    assert_eq!(Day.part1("[#] (0) (64) {1}\n"), None);
    assert_eq!(Day.part1("[#] (0) {1}\n[.#] (0) {1}\n"), None);
    assert_eq!(Day.part1(""), Some(SolvedValue::Usize(0)));
    assert_eq!(Day.part1("nothing"), None);
    assert_eq!(Day.part2("nothing"), None);
}

#[test]
fn day10_joltages_by_the_solver() {
    let machine = first_machine();
    assert_eq!(machine.buttons_for(3), vec![0, 1, 3]);
    assert_eq!(machine.buttons_for(0), vec![4, 5]);
    assert_eq!(machine.buttons_for(9), vec![]);
    assert!(machine.button_names(1, 3));
    assert!(!machine.button_names(1, 2));
    assert_eq!(machine.joltages(), Some(10));
    let hopeless = Machine { lights: vec![], buttons: vec![vec![0]], joltages: vec![1, 2] };
    assert_eq!(hopeless.joltages(), Some(usize::MAX));
    let greedy = Machine { lights: vec![], buttons: vec![vec![0]], joltages: vec![1 << 33] };
    assert!(!greedy.is_modest());
    assert_eq!(greedy.joltages(), None);
    let idle = Machine { lights: vec![], buttons: vec![], joltages: vec![] };
    assert_eq!(idle.joltages(), Some(0));
}

#[test]
fn day10_reading_the_solver() {
    assert_eq!(presses_from(Verdict::Sat, Some(12)), Some(12));
    assert_eq!(presses_from(Verdict::Sat, None), None);
    assert_eq!(presses_from(Verdict::Unsat, None), Some(usize::MAX));
    assert_eq!(presses_from(Verdict::Unsat, Some(3)), Some(usize::MAX));
    assert_eq!(presses_from(Verdict::Unknown, None), Some(usize::MAX));
}

#[test]
fn day10_presses_of_all_machines_add_up() {
    assert_eq!(total_presses(&vec![]), Some(0));
    assert_eq!(total_presses(&vec![Some(3), Some(4), Some(0)]), Some(7));
    assert_eq!(total_presses(&vec![Some(3), None, Some(1)]), None);
    assert_eq!(total_presses(&vec![None]), None);
    assert_eq!(total_presses(&vec![Some(usize::MAX), Some(0)]), Some(usize::MAX));
    assert_eq!(total_presses(&vec![Some(usize::MAX), Some(1)]), None);
    assert_eq!(total_presses(&vec![Some(usize::MAX), Some(1), None]), None);
}

#[test]
fn day10_part_two_where_the_solver_has_no_say() {
    assert_eq!(Day.part2(""), Some(SolvedValue::Usize(0)));
    assert_eq!(Day.part2("[.] (0) {4294967296}\n"), None);
    assert_eq!(Day.part2("[#] (0) {1}\n[.] (0) {4294967296}\n"), None);
    assert_eq!(Day.part2("[.] (0) {4294967296}\n[#] (0) {1}\n"), None);
    assert_eq!(Day.part2("[#] (0) {1}\n[.] (0) {4294967295}\n"), Some(SolvedValue::Usize(4294967296)));
}
