use rustvent::days::day11::{
    capped_add, get_paths_count_to_out, find_device, parse_input, product3, same_name, Day, Device,
};
use rustvent::solution::{Solution, SolvedValue};

const WIRING: &str = "aaa: you hhh\nyou: bbb ccc\nbbb: ddd eee\nccc: ddd eee fff\nddd: ggg\neee: out\nfff: out\nggg: out\nhhh: ccc fff iii\niii: out\n";

const SERVERS: &str = "svr: aaa bbb\naaa: fft\nfft: ccc\nbbb: tty\ntty: ccc\nccc: ddd eee\nddd: hub\nhub: fff\neee: dac\ndac: fff\nfff: ggg hhh\nggg: out\nhhh: out\n";

#[test]
fn day11_test_part1_example() {
    assert_eq!(Day.part1(WIRING), Some(5.into()));
}

#[test]
fn day11_test_part2_example() {
    assert_eq!(Day.part2(SERVERS), Some(2.into()));
}

#[test]
fn day11_parses_devices_and_lets_later_lines_win() {
    let devices = parse_input(b"a: b c\nb: c\na: d\n").unwrap();
    assert_eq!(
        devices,
        vec![
            Device { name: b"a".to_vec(), outputs: vec![b"d".to_vec()] },
            Device { name: b"b".to_vec(), outputs: vec![b"c".to_vec()] },
        ]
    );
    assert_eq!(find_device(&devices, b"b"), Some(1));
    assert_eq!(find_device(&devices, b"c"), None);
    assert!(parse_input(b"a: b\nno colon\n").is_none());
    assert_eq!(parse_input(b"").unwrap(), vec![]);
    assert!(same_name(&b"abc".to_vec(), b"abc"));
    assert!(!same_name(&b"abc".to_vec(), b"abd"));
    assert!(!same_name(&b"abc".to_vec(), b"ab"));
}

#[test]
fn day11_counts_paths() {
    let devices = parse_input(WIRING.as_bytes()).unwrap();
    assert_eq!(get_paths_count_to_out(&devices, b"you", b"out"), Some(5));
    assert_eq!(get_paths_count_to_out(&devices, b"aaa", b"out"), Some(10));
    assert_eq!(get_paths_count_to_out(&devices, b"out", b"out"), Some(1));
    assert_eq!(get_paths_count_to_out(&devices, b"out", b"you"), Some(0));
    assert_eq!(get_paths_count_to_out(&devices, b"eee", b"you"), Some(0));
    assert_eq!(get_paths_count_to_out(&devices, b"nobody", b"out"), Some(0));
    assert_eq!(get_paths_count_to_out(&devices, b"nobody", b"nobody"), Some(1));
    let twice = parse_input(b"a: b b\nb: c c c\n").unwrap();
    assert_eq!(get_paths_count_to_out(&twice, b"a", b"c"), Some(6));
}

#[test]
fn day11_circles_cannot_be_counted() {
    let devices = parse_input(b"a: b\nb: a c\nc: d\n").unwrap();
    assert_eq!(get_paths_count_to_out(&devices, b"a", b"d"), None);
    assert_eq!(get_paths_count_to_out(&devices, b"c", b"d"), Some(1));
    assert_eq!(get_paths_count_to_out(&devices, b"a", b"b"), Some(1));
    let own = parse_input(b"a: a\n").unwrap();
    assert_eq!(get_paths_count_to_out(&own, b"a", b"z"), None);
    assert_eq!(get_paths_count_to_out(&own, b"a", b"a"), Some(1));
    assert_eq!(Day.part1("you: you out\n"), None);
}

#[test]
fn day11_capped_sums_and_products() {
    assert_eq!(capped_add(1, 2), 3);
    assert_eq!(capped_add(u64::MAX, 2), u64::MAX);
    assert_eq!(capped_add(u64::MAX - 1, 1), u64::MAX);
    assert_eq!(product3(2, 3, 4), Some(24));
    assert_eq!(product3(u64::MAX, 2, 0), Some(0));
    assert_eq!(product3(u64::MAX, 2, 1), None);
    assert_eq!(product3(1 << 32, 1 << 31, 2), None);
    assert_eq!(product3(1 << 32, 1 << 31, 1), Some(1 << 63));
}

#[test]
fn day11_malformed_input_has_no_answer() {
    assert_eq!(Day.part1("you out\n"), None);
    assert_eq!(Day.part2("svr fft\n"), None);
    assert_eq!(Day.part1(""), Some(SolvedValue::Usize(0)));
    assert_eq!(Day.part2(""), Some(SolvedValue::Usize(0)));
}
