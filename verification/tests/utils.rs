use rustvent::utils::{get_possible_paths, path_of, push_number};

#[test]
fn paths_for_an_example_come_most_specific_first() {
    assert_eq!(
        get_possible_paths(8, true, 1),
        vec!["inputs/08-example-1.txt", "inputs/08-example.txt", "inputs/08.txt"]
    );
    assert_eq!(
        get_possible_paths(12, true, 2),
        vec!["inputs/12-example-2.txt", "inputs/12-example.txt", "inputs/12.txt"]
    );
}

#[test]
fn paths_for_the_challenge_name_the_day_only() {
    assert_eq!(get_possible_paths(8, false, 1), vec!["inputs/08.txt"]);
    assert_eq!(get_possible_paths(0, false, 2), vec!["inputs/00.txt"]);
    assert_eq!(get_possible_paths(123, false, 2), vec!["inputs/123.txt"]);
}

#[test]
fn path_parts() {
    assert_eq!(path_of(9, false, None), "inputs/09.txt");
    assert_eq!(path_of(10, true, Some(255)), "inputs/10-example-255.txt");
    assert_eq!(path_of(7, false, Some(0)), "inputs/07-0.txt");
    let mut text = String::from("n=");
    push_number(&mut text, 0);
    push_number(&mut text, 1234567890);
    assert_eq!(text, "n=01234567890");
}
