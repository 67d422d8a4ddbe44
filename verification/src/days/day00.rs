//! The day before the first: nothing to solve.

use vstd::prelude::*;
use crate::solution::{Solution, SolvedValue};

verus! {

pub struct Day;

impl Solution for Day {
    open spec fn part1_answers(&self, input: Seq<u8>, answer: Option<SolvedValue>) -> bool {
        answer.is_none()
    }

    open spec fn part2_answers(&self, input: Seq<u8>, answer: Option<SolvedValue>) -> bool {
        answer.is_none()
    }

    fn part1(&self, _input: &str) -> (res: Option<SolvedValue>) {
        None
    }

    fn part2(&self, _input: &str) -> (res: Option<SolvedValue>) {
        None
    }
}

} // verus!
