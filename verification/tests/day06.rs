use rustvent::days::day06::{
    checked_product, parse_input, parse_transposed_input, total, Day, Equation,
};
use rustvent::solution::{Solution, SolvedValue};

const WORKSHEET: &str = "123 328  51 64 \n 45 64  387 23 \n  6 98  215 314\n*   +   *   +  \n";

fn numbers(e: &Equation) -> (bool, Vec<u64>) {
    match e {
        Equation::Add(n) => (true, n.clone()),
        Equation::Multiply(n) => (false, n.clone()),
    }
}

#[test]
fn day06_test_part1_example() {
    assert_eq!(Day.part1(WORKSHEET), Some(4_277_556.into()));
}

#[test]
fn day06_test_part2_example() {
    assert_eq!(Day.part2(WORKSHEET), Some(3_263_827.into()));
}

#[test]
fn day06_reads_problems_row_by_row() {
    let equations = parse_input(WORKSHEET.as_bytes()).unwrap();
    let read: Vec<(bool, Vec<u64>)> = equations.iter().map(numbers).collect();
    assert_eq!(
        read,
        vec![
            (false, vec![123, 45, 6]),
            (true, vec![328, 64, 98]),
            (false, vec![51, 387, 215]),
            (true, vec![64, 23, 314]),
        ]
    );
    assert_eq!(total(&equations), Some(4_277_556));
}

#[test]
fn day06_reads_problems_column_by_column() {
    let equations = parse_transposed_input(WORKSHEET.as_bytes()).unwrap();
    let read: Vec<(bool, Vec<u64>)> = equations.iter().map(numbers).collect();
    assert_eq!(
        read,
        vec![
            (false, vec![1, 24, 356]),
            (true, vec![369, 248, 8]),
            (false, vec![32, 581, 175]),
            (true, vec![623, 431, 4]),
        ]
    );
}

#[test]
fn day06_executes_sums_and_products() {
    assert_eq!(Equation::Add(vec![1, 2, 3]).execute(), Some(6));
    assert_eq!(Equation::Add(vec![]).execute(), Some(0));
    assert_eq!(Equation::Multiply(vec![4, 5, 6]).execute(), Some(120));
    assert_eq!(Equation::Multiply(vec![]).execute(), Some(1));
    assert_eq!(Equation::Add(vec![u64::MAX, 1]).execute(), None);
    assert_eq!(Equation::Multiply(vec![u64::MAX, 2]).execute(), None);
    assert_eq!(Equation::Multiply(vec![u64::MAX, 2, 0]).execute(), Some(0));
    assert_eq!(checked_product(&[1 << 32, 1 << 31]), Some(1 << 63));
    assert_eq!(checked_product(&[1 << 32, 1 << 32]), None);
}

#[test]
fn day06_malformed_worksheets_have_no_answer() {
    assert_eq!(Day.part1(""), None);
    assert_eq!(Day.part2(""), None);
    assert_eq!(Day.part1("1 2\n3\n+ *\n"), None);
    assert_eq!(Day.part1("1 2\n3 4\n+ -\n"), None);
    assert_eq!(Day.part2("12\n3\n+ \n"), None);
    assert_eq!(Day.part1("1 x\n3 4\n+ *\n"), Some(SolvedValue::Usize(8)));
    assert_eq!(Day.part1("+ *\n"), Some(SolvedValue::Usize(1)));
    assert_eq!(Day.part2("1\n2\n*\n"), Some(SolvedValue::Usize(12)));
}
