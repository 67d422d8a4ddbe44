//! Day 1: a safe dial with the numbers 0 to 99, turned left and right.
//!
//! Part one counts the rotations that leave the dial at 0; part two counts
//! every click at which the dial points at 0.

use vstd::prelude::*;
use vstd::string::StringSliceAdditionalSpecFns;
use crate::solution::{Solution, SolvedValue};
use crate::text::{
    all_digits, digits_value, lines, lines_of, parse_u64, trim, trimmed, unsigned_part, views,
};

verus! {

/// A rotation of the dial by a number of clicks, to the left (towards lower
/// numbers) or to the right.
#[derive(Debug, PartialEq, Eq, Clone, Copy, Structural)]
pub enum Rotation {
    L(isize),
    R(isize),
}

/// The dial, pointing at `position`.
#[derive(Debug, PartialEq, Eq, Clone, Copy, Structural)]
pub struct Dial {
    pub position: isize,
}

/// The number of clicks of a rotation.
pub open spec fn amount_of(rotation: Rotation) -> isize {
    match rotation {
        Rotation::L(steps) => steps,
        Rotation::R(steps) => steps,
    }
}

/// Where the dial points after `clicks` clicks of `rotation` from
/// `position`.
pub open spec fn turned(position: int, rotation: Rotation, clicks: int) -> int {
    match rotation {
        Rotation::L(_) => (position - clicks) % 100,
        Rotation::R(_) => (position + clicks) % 100,
    }
}

/// Among the first `clicks` clicks of `rotation` from `position`, the number
/// of those at which the dial points at 0.
pub open spec fn zero_clicks(position: int, rotation: Rotation, clicks: nat) -> nat
    decreases clicks,
{
    if clicks == 0 {
        0
    } else {
        zero_clicks(position, rotation, (clicks - 1) as nat) + if turned(
            position,
            rotation,
            clicks as int,
        ) == 0 {
            1nat
        } else {
            0nat
        }
    }
}

/// The count of clicks at 0 in closed form: the multiples of 100 that the
/// rotation passes over.
pub proof fn lemma_zero_clicks(position: int, rotation: Rotation, clicks: nat)
    ensures
        zero_clicks(position, rotation, clicks) == match rotation {
            Rotation::L(_) => (position - 1) / 100 - (position - clicks - 1) / 100,
            Rotation::R(_) => (position + clicks) / 100 - position / 100,
        },
    decreases clicks,
{
    if clicks > 0 {
        lemma_zero_clicks(position, rotation, (clicks - 1) as nat);
    }
}

/// The whole turns of the dial in a rotation by `amount` clicks: the
/// hundreds in `amount`, its sign set aside.
pub open spec fn whole_turns(amount: int) -> int {
    if amount >= 0 {
        amount / 100
    } else {
        (-amount) / 100
    }
}

/// The clicks of a rotation that its whole turns leave over. For an amount
/// below zero nothing cancels: the hundreds are taken off once more.
pub open spec fn rest_clicks(amount: int) -> int {
    amount - 100 * whole_turns(amount)
}

/// Where the clicks left over take the dial, before it is brought back
/// among its numbers.
pub open spec fn moved(position: int, rotation: Rotation) -> int {
    match rotation {
        Rotation::L(steps) => position - rest_clicks(steps as int),
        Rotation::R(steps) => position + rest_clicks(steps as int),
    }
}

/// Where the dial points after `rotation` from `position`: where the
/// clicks left over take it, brought back by one turn at most.
pub open spec fn next_position(position: int, rotation: Rotation) -> int {
    let at = moved(position, rotation);
    if at < 0 {
        at + 100
    } else if at >= 100 {
        at - 100
    } else {
        at
    }
}

/// The count that `rotation` from `position` gives: its whole turns, and
/// from a position other than 0 one more where the dial comes to 0 or
/// leaves its numbers.
pub open spec fn crossings(position: int, rotation: Rotation) -> int {
    let at = moved(position, rotation);
    whole_turns(amount_of(rotation) as int) + if position != 0 && (at <= 0 || at >= 100) {
        1int
    } else {
        0int
    }
}

/// The rotation can be made from `position` within the machine word.
pub open spec fn within_reach(position: int, rotation: Rotation) -> bool {
    &&& isize::MIN <= rest_clicks(amount_of(rotation) as int)
    &&& isize::MIN <= moved(position, rotation) <= isize::MAX
}

/// A rotation by a number of clicks that is not negative, from one of the
/// dial's numbers, is within reach, leaves the dial where that many single
/// clicks take it, and counts the clicks at which the dial pointed at 0.
pub proof fn lemma_forward_rotation(position: int, rotation: Rotation)
    requires
        0 <= position < 100,
        amount_of(rotation) >= 0,
    ensures
        within_reach(position, rotation),
        0 <= next_position(position, rotation) < 100,
        next_position(position, rotation) == turned(
            position,
            rotation,
            amount_of(rotation) as int,
        ),
        crossings(position, rotation) == zero_clicks(
            position,
            rotation,
            amount_of(rotation) as nat,
        ),
{
    lemma_zero_clicks(position, rotation, amount_of(rotation) as nat);
}

impl Rotation {
    /// The number of clicks.
    pub fn amount(&self) -> (steps: isize)
        ensures
            steps == amount_of(*self),
    {
        match self {
            Rotation::L(steps) => *steps,
            Rotation::R(steps) => *steps,
        }
    }
}

impl Dial {
    /// The dial points at one of its hundred numbers.
    pub open spec fn wf(&self) -> bool {
        0 <= self.position < 100
    }

    /// A dial in its starting position, 50.
    pub fn new() -> (dial: Dial)
        ensures
            dial.position == 50,
            dial.wf(),
    {
        Self { position: 50 }
    }

    /// Whether `rotation` can be made from here within the machine word.
    pub fn can_rotate(&self, rotation: &Rotation) -> (can: bool)
        ensures
            can == within_reach(self.position as int, *rotation),
    {
        let amount: i128 = rotation.amount() as i128;
        let whole: i128 = if amount >= 0 {
            amount / 100
        } else {
            (-amount) / 100
        };
        let rest: i128 = amount - 100 * whole;
        let at: i128 = match rotation {
            Rotation::L(_) => self.position as i128 - rest,
            Rotation::R(_) => self.position as i128 + rest,
        };
        rest >= isize::MIN as i128 && isize::MIN as i128 <= at && at <= isize::MAX as i128
    }

    /// Turns the dial and gives the count of the rotation. From one of the
    /// dial's numbers and by an amount that is not negative, the dial
    /// comes to where that many single clicks take it, and the count is
    /// that of the clicks at which it pointed at 0.
    pub fn rotate(&mut self, rotation: &Rotation) -> (crossed: usize)
        requires
            within_reach(old(self).position as int, *rotation),
        ensures
            final(self).position == next_position(old(self).position as int, *rotation),
            crossed == crossings(old(self).position as int, *rotation),
            old(self).wf() && amount_of(*rotation) >= 0 ==> {
                &&& final(self).wf()
                &&& final(self).position == turned(
                    old(self).position as int,
                    *rotation,
                    amount_of(*rotation) as int,
                )
                &&& crossed == zero_clicks(
                    old(self).position as int,
                    *rotation,
                    amount_of(*rotation) as nat,
                )
            },
    {
        proof {
            if self.wf() && amount_of(*rotation) >= 0 {
                lemma_forward_rotation(self.position as int, *rotation);
            }
        }
        let amount: isize = rotation.amount();
        let full_rotations: usize = if amount >= 0 {
            (amount / 100) as usize
        } else {
            ((-(amount + 1)) as usize + 1) / 100
        };
        let part_rotation: isize = amount - 100 * (full_rotations as isize);
        let starts_at_0: bool = self.position == 0;
        match rotation {
            Rotation::L(_) => {
                self.position = self.position - part_rotation;
            },
            Rotation::R(_) => {
                self.position = self.position + part_rotation;
            },
        }
        let mut crossed: usize = full_rotations;
        if !starts_at_0 {
            if self.position == 0 {
                crossed += 1;
            }
            if self.position < 0 {
                crossed += 1;
            } else if self.position >= 100 {
                crossed += 1;
            }
        }
        if self.position < 0 {
            self.position += 100;
        } else if self.position >= 100 {
            self.position -= 100;
        }
        crossed
    }
}

/// The whole number written by `s`: decimal digits, with or without a plus
/// or a minus sign before them. `None` for anything else.
pub open spec fn signed_number_of(s: Seq<u8>) -> Option<int> {
    if s.len() > 0 && s[0] == 45 {
        let digits = s.subrange(1, s.len() as int);
        if all_digits(digits) {
            Some(-(digits_value(digits) as int))
        } else {
            None
        }
    } else {
        let digits = unsigned_part(s);
        if all_digits(digits) {
            Some(digits_value(digits) as int)
        } else {
            None
        }
    }
}

/// The rotation written by a line: `L` or `R` and then the number of clicks,
/// a whole number of the machine word. `None` for any other line.
pub open spec fn rotation_of(line: Seq<u8>) -> Option<Rotation> {
    if line.len() == 0 {
        None
    } else {
        match signed_number_of(line.subrange(1, line.len() as int)) {
            Some(steps) => if steps < isize::MIN || steps > isize::MAX {
                None
            } else if line[0] == 76 {
                Some(Rotation::L(steps as isize))
            } else if line[0] == 82 {
                Some(Rotation::R(steps as isize))
            } else {
                None
            },
            None => None,
        }
    }
}

/// The rotations written by `lines`. `None` where some line writes none.
pub open spec fn rotations_of_lines(lines: Seq<Seq<u8>>) -> Option<Seq<Rotation>>
    decreases lines.len(),
{
    if lines.len() == 0 {
        Some(Seq::empty())
    } else {
        match (rotations_of_lines(lines.drop_last()), rotation_of(lines.last())) {
            (Some(rest), Some(rotation)) => Some(rest.push(rotation)),
            _ => None,
        }
    }
}

/// The rotations of an input text, blanks around it set aside.
pub open spec fn rotations_of(input: Seq<u8>) -> Option<Seq<Rotation>> {
    rotations_of_lines(lines_of(trimmed(input)))
}

/// Where the dial points after the rotations, starting at 50.
pub open spec fn position_after(rotations: Seq<Rotation>) -> int
    decreases rotations.len(),
{
    if rotations.len() == 0 {
        50
    } else {
        next_position(position_after(rotations.drop_last()), rotations.last())
    }
}

/// Every one of the rotations, made in turn from 50, is within reach.
pub open spec fn all_within_reach(rotations: Seq<Rotation>) -> bool
    decreases rotations.len(),
{
    rotations.len() == 0 || (all_within_reach(rotations.drop_last()) && within_reach(
        position_after(rotations.drop_last()),
        rotations.last(),
    ))
}

/// Where all rotations are within reach, the first of them are.
pub proof fn lemma_reach_prefix(rotations: Seq<Rotation>, k: int)
    requires
        0 <= k <= rotations.len(),
        all_within_reach(rotations),
    ensures
        all_within_reach(rotations.take(k)),
    decreases rotations.len(),
{
    if k < rotations.len() {
        assert(rotations.drop_last().take(k) == rotations.take(k));
        lemma_reach_prefix(rotations.drop_last(), k);
    } else {
        assert(rotations.take(k) == rotations);
    }
}

/// The number of rotations that leave the dial at 0.
pub open spec fn rests_at_zero(rotations: Seq<Rotation>) -> nat
    decreases rotations.len(),
{
    if rotations.len() == 0 {
        0
    } else {
        rests_at_zero(rotations.drop_last()) + if position_after(rotations) == 0 {
            1nat
        } else {
            0nat
        }
    }
}

/// The sum of the counts of the rotations. Where no amount is negative,
/// that is the number of clicks at which the dial points at 0.
pub open spec fn passes_of_zero(rotations: Seq<Rotation>) -> nat
    decreases rotations.len(),
{
    if rotations.len() == 0 {
        0
    } else {
        passes_of_zero(rotations.drop_last()) + crossings(
            position_after(rotations.drop_last()),
            rotations.last(),
        ) as nat
    }
}

/// The sum, over the rotations, of the clicks at which the dial points at 0.
pub open spec fn clicks_at_zero(rotations: Seq<Rotation>) -> nat
    decreases rotations.len(),
{
    if rotations.len() == 0 {
        0
    } else {
        clicks_at_zero(rotations.drop_last()) + zero_clicks(
            position_after(rotations.drop_last()),
            rotations.last(),
            amount_of(rotations.last()) as nat,
        )
    }
}

/// Every rotation turns by a number of clicks that is not negative.
pub open spec fn forward(rotations: Seq<Rotation>) -> bool {
    forall|i: int| 0 <= i < rotations.len() ==> amount_of(#[trigger] rotations[i]) >= 0
}

/// Rotations by amounts that are not negative keep the dial among its
/// numbers, are all within reach, and their counts add up to the number of
/// clicks at which the dial points at 0.
pub proof fn lemma_forward_rotations(rotations: Seq<Rotation>)
    requires
        forward(rotations),
    ensures
        0 <= position_after(rotations) < 100,
        all_within_reach(rotations),
        passes_of_zero(rotations) == clicks_at_zero(rotations),
    decreases rotations.len(),
{
    if rotations.len() > 0 {
        let before = rotations.drop_last();
        lemma_forward_rotations(before);
        lemma_forward_rotation(position_after(before), rotations.last());
    }
}

/// Reads a whole number with or without a sign.
pub fn parse_signed(bytes: &[u8]) -> (r: Option<isize>)
    ensures
        r == match signed_number_of(bytes@) {
            Some(value) => if isize::MIN <= value <= isize::MAX {
                Some(value as isize)
            } else {
                None
            },
            None => None,
        },
{
    if bytes.len() > 0 && bytes[0] == 45 {
        if bytes.len() > 1 && bytes[1] == 43 {
            proof {
                assert(bytes@.subrange(1, bytes@.len() as int)[0] == 43);
            }
            return None;
        }
        let digits = crate::text::copy_range(bytes, 1, bytes.len());
        match parse_u64(digits.as_slice()) {
            Some(size) => if size <= isize::MAX as u64 {
                Some(-(size as isize))
            } else if size - 1 == isize::MAX as u64 {
                Some(isize::MIN)
            } else {
                None
            },
            None => None,
        }
    } else {
        match parse_u64(bytes) {
            Some(size) => if size <= isize::MAX as u64 {
                Some(size as isize)
            } else {
                None
            },
            None => None,
        }
    }
}

/// Reads the rotation that a line writes.
pub fn parse_rotation(line: &[u8]) -> (r: Option<Rotation>)
    ensures
        r == rotation_of(line@),
{
    if line.len() == 0 {
        return None;
    }
    let rest = crate::text::copy_range(line, 1, line.len());
    match parse_signed(rest.as_slice()) {
        Some(steps) => if line[0] == 76 {
            Some(Rotation::L(steps))
        } else if line[0] == 82 {
            Some(Rotation::R(steps))
        } else {
            None
        },
        None => None,
    }
}

/// Reads the rotations of an input text, one a line.
pub fn parse_rotations(input: &[u8]) -> (r: Option<Vec<Rotation>>)
    ensures
        match r {
            Some(rotations) => rotations_of(input@) == Some(rotations@),
            None => rotations_of(input@).is_none(),
        },
{
    let body = trim(input);
    let rows = lines(body.as_slice());
    let mut rotations: Vec<Rotation> = Vec::new();
    let mut i: usize = 0;
    while i < rows.len()
        invariant
            i <= rows.len(),
            views(rows@) == lines_of(trimmed(input@)),
            rotations_of_lines(views(rows@).take(i as int)) == Some(rotations@),
        decreases rows.len() - i,
    {
        proof {
            let upto = views(rows@).take(i + 1);
            assert(upto.drop_last() == views(rows@).take(i as int));
            assert(upto.last() == rows[i as int]@);
        }
        match parse_rotation(rows[i].as_slice()) {
            Some(rotation) => {
                rotations.push(rotation);
            },
            None => {
                proof {
                    lemma_rotations_prefix(views(rows@), i + 1);
                }
                return None;
            },
        }
        i = i + 1;
    }
    proof {
        assert(views(rows@).take(rows.len() as int) == views(rows@));
    }
    Some(rotations)
}

/// Where the lines up to some place write no rotations, all of them write
/// none.
pub proof fn lemma_rotations_prefix(lines: Seq<Seq<u8>>, k: int)
    requires
        0 <= k <= lines.len(),
        rotations_of_lines(lines.take(k)).is_none(),
    ensures
        rotations_of_lines(lines).is_none(),
    decreases lines.len(),
{
    if k < lines.len() {
        assert(lines.drop_last().take(k) == lines.take(k));
        lemma_rotations_prefix(lines.drop_last(), k);
    } else {
        assert(lines.take(k) == lines);
    }
}

/// The answer to part one. `None` where a line writes no rotation or a
/// rotation is not within reach.
pub open spec fn rest_answer(input: Seq<u8>) -> Option<SolvedValue> {
    match rotations_of(input) {
        Some(rotations) => if all_within_reach(rotations) {
            Some(SolvedValue::Usize(rests_at_zero(rotations) as usize))
        } else {
            None
        },
        None => None,
    }
}

/// The answer to part two. `None` where a line writes no rotation, a
/// rotation is not within reach, or the count does not fit the machine word.
pub open spec fn pass_answer(input: Seq<u8>) -> Option<SolvedValue> {
    match rotations_of(input) {
        Some(rotations) => if all_within_reach(rotations) && passes_of_zero(rotations)
            <= usize::MAX {
            Some(SolvedValue::Usize(passes_of_zero(rotations) as usize))
        } else {
            None
        },
        None => None,
    }
}

/// The count of clicks at 0 only grows with further rotations.
pub proof fn lemma_passes_grow(rotations: Seq<Rotation>, k: int)
    requires
        0 <= k <= rotations.len(),
    ensures
        passes_of_zero(rotations.take(k)) <= passes_of_zero(rotations),
    decreases rotations.len(),
{
    if k < rotations.len() {
        assert(rotations.drop_last().take(k) == rotations.take(k));
        lemma_passes_grow(rotations.drop_last(), k);
    } else {
        assert(rotations.take(k) == rotations);
    }
}

pub struct Day;

impl Solution for Day {
    open spec fn part1_answers(&self, input: Seq<u8>, answer: Option<SolvedValue>) -> bool {
        answer == rest_answer(input)
    }

    open spec fn part2_answers(&self, input: Seq<u8>, answer: Option<SolvedValue>) -> bool {
        answer == pass_answer(input)
    }

    fn part1(&self, input: &str) -> (res: Option<SolvedValue>) {
        let rotations = match parse_rotations(input.as_bytes()) {
            Some(rotations) => rotations,
            None => {
                return None;
            },
        };
        let mut dial = Dial::new();
        let mut times_0_reached: usize = 0;
        let mut i: usize = 0;
        while i < rotations.len()
            invariant
                i <= rotations.len(),
                dial.position == position_after(rotations@.take(i as int)),
                times_0_reached == rests_at_zero(rotations@.take(i as int)),
                times_0_reached <= i,
                rotations_of(input.spec_bytes()) == Some(rotations@),
                all_within_reach(rotations@.take(i as int)),
            decreases rotations.len() - i,
        {
            proof {
                assert(rotations@.take(i + 1).drop_last() == rotations@.take(i as int));
                assert(rotations@.take(i + 1).last() == rotations[i as int]);
            }
            if !dial.can_rotate(&rotations[i]) {
                proof {
                    if all_within_reach(rotations@) {
                        lemma_reach_prefix(rotations@, i + 1);
                    }
                }
                return None;
            }
            dial.rotate(&rotations[i]);
            if dial.position == 0 {
                times_0_reached += 1;
            }
            i = i + 1;
        }
        proof {
            assert(rotations@.take(rotations.len() as int) == rotations@);
        }
        Some(SolvedValue::Usize(times_0_reached))
    }

    fn part2(&self, input: &str) -> (res: Option<SolvedValue>) {
        let rotations = match parse_rotations(input.as_bytes()) {
            Some(rotations) => rotations,
            None => {
                return None;
            },
        };
        let mut dial = Dial::new();
        let mut times_0_passed: usize = 0;
        let mut i: usize = 0;
        while i < rotations.len()
            invariant
                i <= rotations.len(),
                dial.position == position_after(rotations@.take(i as int)),
                times_0_passed == passes_of_zero(rotations@.take(i as int)),
                rotations_of(input.spec_bytes()) == Some(rotations@),
                all_within_reach(rotations@.take(i as int)),
            decreases rotations.len() - i,
        {
            proof {
                assert(rotations@.take(i + 1).drop_last() == rotations@.take(i as int));
                assert(rotations@.take(i + 1).last() == rotations[i as int]);
                lemma_passes_grow(rotations@, i + 1);
            }
            if !dial.can_rotate(&rotations[i]) {
                proof {
                    if all_within_reach(rotations@) {
                        lemma_reach_prefix(rotations@, i + 1);
                    }
                }
                return None;
            }
            let crossed = dial.rotate(&rotations[i]);
            match times_0_passed.checked_add(crossed) {
                Some(total) => {
                    times_0_passed = total;
                },
                None => {
                    return None;
                },
            }
            i = i + 1;
        }
        proof {
            assert(rotations@.take(rotations.len() as int) == rotations@);
        }
        Some(SolvedValue::Usize(times_0_passed))
    }
}

} // verus!
