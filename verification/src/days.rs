//! The puzzles, one module a day.

use vstd::prelude::*;
use crate::solution::{Solution, SolvedValue};

pub mod day00;
pub mod day01;
pub mod day02;
pub mod day03;
pub mod day04;
pub mod day05;
pub mod day06;
pub mod day07;
pub mod day08;
pub mod day09;
pub mod day10;
pub mod day11;
pub mod day12;

verus! {

/// What part one of the given day may answer on an input text. Days 0 to
/// 11 have a solver.
pub open spec fn part1_of(day: usize, input: Seq<u8>, answer: Option<SolvedValue>) -> bool {
    match day {
        0 => day00::Day.part1_answers(input, answer),
        1 => day01::Day.part1_answers(input, answer),
        2 => day02::Day.part1_answers(input, answer),
        3 => day03::Day.part1_answers(input, answer),
        4 => day04::Day.part1_answers(input, answer),
        5 => day05::Day.part1_answers(input, answer),
        6 => day06::Day.part1_answers(input, answer),
        7 => day07::Day.part1_answers(input, answer),
        8 => day08::Day.part1_answers(input, answer),
        9 => day09::Day.part1_answers(input, answer),
        10 => day10::Day.part1_answers(input, answer),
        _ => day11::Day.part1_answers(input, answer),
    }
}

/// What part two of the given day may answer on an input text.
pub open spec fn part2_of(day: usize, input: Seq<u8>, answer: Option<SolvedValue>) -> bool {
    match day {
        0 => day00::Day.part2_answers(input, answer),
        1 => day01::Day.part2_answers(input, answer),
        2 => day02::Day.part2_answers(input, answer),
        3 => day03::Day.part2_answers(input, answer),
        4 => day04::Day.part2_answers(input, answer),
        5 => day05::Day.part2_answers(input, answer),
        6 => day06::Day.part2_answers(input, answer),
        7 => day07::Day.part2_answers(input, answer),
        8 => day08::Day.part2_answers(input, answer),
        9 => day09::Day.part2_answers(input, answer),
        10 => day10::Day.part2_answers(input, answer),
        _ => day11::Day.part2_answers(input, answer),
    }
}

/// The solver of the given day, where there is one: days 0 to 11 have one,
/// and what is handed out answers as the solver of that very day does.
#[must_use]
pub fn get_day(day: usize) -> (res: Option<Box<dyn Solution>>)
    ensures
        res.is_some() <==> day <= 11,
        res matches Some(solver) ==> (forall|input: Seq<u8>, answer: Option<SolvedValue>|
            #[trigger] solver.part1_answers(input, answer) == part1_of(day, input, answer)),
        res matches Some(solver) ==> (forall|input: Seq<u8>, answer: Option<SolvedValue>|
            #[trigger] solver.part2_answers(input, answer) == part2_of(day, input, answer)),
{
    let res: Option<Box<dyn Solution>> = match day {
        0 => Some(Box::new(day00::Day)),
        1 => Some(Box::new(day01::Day)),
        2 => Some(Box::new(day02::Day)),
        3 => Some(Box::new(day03::Day)),
        4 => Some(Box::new(day04::Day)),
        5 => Some(Box::new(day05::Day)),
        6 => Some(Box::new(day06::Day)),
        7 => Some(Box::new(day07::Day)),
        8 => Some(Box::new(day08::Day)),
        9 => Some(Box::new(day09::Day)),
        10 => Some(Box::new(day10::Day)),
        11 => Some(Box::new(day11::Day)),
        _ => None,
    };
    proof {
        if res.is_some() {
            let solver = res.unwrap();
            assert forall|input: Seq<u8>, answer: Option<SolvedValue>|
                #[trigger] solver.part1_answers(input, answer) == part1_of(day, input, answer) by {}
            assert forall|input: Seq<u8>, answer: Option<SolvedValue>|
                #[trigger] solver.part2_answers(input, answer) == part2_of(day, input, answer) by {}
        }
    }
    res
}

} // verus!
