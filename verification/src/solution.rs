//! What a puzzle solver offers, and the values it answers with.

use vstd::prelude::*;
use vstd::std_specs::convert::FromSpecImpl;
use vstd::string::{StringExecFns, StringSliceAdditionalSpecFns};
use crate::utils::{decimal_text, push_number};

verus! {

/// The answer to one part of a puzzle.
#[derive(Debug, Clone, PartialEq, Eq)]
pub enum SolvedValue {
    Usize(usize),
    String(String),
}

/// `n` blanks.
pub open spec fn blanks(n: nat) -> Seq<char> {
    Seq::new(n, |i: int| ' ')
}

/// The text set to the right of forty columns: blanks before it make up
/// for what it lacks.
pub open spec fn right_aligned(text: Seq<char>) -> Seq<char> {
    if text.len() < 40 {
        blanks((40 - text.len()) as nat) + text
    } else {
        text
    }
}

/// The text of an answer: the digits of a number, the text itself.
pub open spec fn plain_text(value: SolvedValue) -> Seq<char> {
    match value {
        SolvedValue::Usize(n) => decimal_text(n as nat),
        SolvedValue::String(text) => text@,
    }
}

/// Appends `n` blanks to `text`.
pub fn push_blanks(text: &mut String, n: usize)
    ensures
        final(text)@ == old(text)@ + blanks(n as nat),
{
    let ghost start = text@;
    let mut i: usize = 0;
    proof {
        assert(start + blanks(0) =~= start);
    }
    while i < n
        invariant
            i <= n,
            text@ == start + blanks(i as nat),
        decreases n - i,
    {
        let ghost before = text@;
        proof {
            reveal_strlit(" ");
        }
        text.append(" ");
        proof {
            assert(text@ =~= before.push(' '));
            assert(start + blanks((i + 1) as nat) =~= (start + blanks(i as nat)).push(' '));
        }
        i = i + 1;
    }
}

impl SolvedValue {
    /// The answer as it is shown: set to the right of forty columns.
    pub fn to_text(&self) -> (text: String)
        ensures
            text@ == right_aligned(plain_text(*self)),
    {
        let mut plain = String::from_str("");
        proof {
            reveal_strlit("");
            assert(plain@ =~= Seq::<char>::empty());
        }
        match self {
            SolvedValue::Usize(value) => {
                push_number(&mut plain, *value as u64);
            },
            SolvedValue::String(value) => {
                plain.append(value.as_str());
            },
        }
        proof {
            assert(plain@ =~= plain_text(*self));
        }
        let len: usize = plain.as_str().unicode_len();
        let mut text = String::from_str("");
        if len < 40 {
            push_blanks(&mut text, 40 - len);
        }
        text.append(plain.as_str());
        proof {
            assert(text@ =~= right_aligned(plain_text(*self)));
        }
        text
    }
}

impl From<usize> for SolvedValue {
    fn from(value: usize) -> (r: Self) {
        Self::Usize(value)
    }
}

impl FromSpecImpl<usize> for SolvedValue {
    open spec fn obeys_from_spec() -> bool {
        true
    }

    open spec fn from_spec(value: usize) -> SolvedValue {
        SolvedValue::Usize(value)
    }
}

impl From<&str> for SolvedValue {
    fn from(value: &str) -> (r: Self)
        ensures
            r matches SolvedValue::String(text) && text@ == value@,
    {
        Self::String(value.to_owned())
    }
}

impl FromSpecImpl<&str> for SolvedValue {
    /// The text of the result is that of the argument; which `String` holds
    /// it is not laid down.
    open spec fn obeys_from_spec() -> bool {
        false
    }

    open spec fn from_spec(value: &str) -> SolvedValue {
        SolvedValue::String(choose|text: String| text@ == value@)
    }
}

impl From<String> for SolvedValue {
    fn from(value: String) -> (r: Self) {
        Self::String(value)
    }
}

impl FromSpecImpl<String> for SolvedValue {
    open spec fn obeys_from_spec() -> bool {
        true
    }

    open spec fn from_spec(value: String) -> SolvedValue {
        SolvedValue::String(value)
    }
}

/// A count as an answer: `None` where it is undefined or does not fit the
/// machine word.
pub open spec fn answer_of(total: Option<nat>) -> Option<SolvedValue> {
    match total {
        Some(sum) => if sum <= usize::MAX {
            Some(SolvedValue::Usize(sum as usize))
        } else {
            None
        },
        None => None,
    }
}

/// Turns a count into an answer, where it fits the machine word.
pub fn solved(value: u64) -> (r: Option<SolvedValue>)
    ensures
        r == answer_of(Some(value as nat)),
{
    if value <= usize::MAX as u64 {
        Some(SolvedValue::Usize(value as usize))
    } else {
        None
    }
}

/// One of the two parts of a puzzle.
#[derive(Debug, Clone, Copy)]
pub enum Part {
    One,
    Two,
}

impl Part {
    /// The part as it is shown: by its number.
    pub fn to_text(&self) -> (text: String)
        ensures
            text@ == match self {
                Part::One => seq!['1'],
                Part::Two => seq!['2'],
            },
    {
        proof {
            reveal_strlit("1");
            reveal_strlit("2");
        }
        let text = match self {
            Part::One => String::from_str("1"),
            Part::Two => String::from_str("2"),
        };
        proof {
            assert(text@ =~= match self {
                Part::One => seq!['1'],
                Part::Two => seq!['2'],
            });
        }
        text
    }
}

impl From<Part> for u8 {
    fn from(part: Part) -> (r: u8) {
        match part {
            Part::One => 1,
            Part::Two => 2,
        }
    }
}

impl FromSpecImpl<Part> for u8 {
    open spec fn obeys_from_spec() -> bool {
        true
    }

    open spec fn from_spec(part: Part) -> u8 {
        match part {
            Part::One => 1,
            Part::Two => 2,
        }
    }
}

/// A puzzle solver. Each part answers on the bytes of an input text; what
/// it may answer is laid down by the solver's `answers` predicates. Most
/// parts have exactly one answer to every input.
pub trait Solution {
    /// Whether `answer` is what part one may answer on `input`. `None`
    /// stands for a part that is not solved or an input that cannot be
    /// worked on.
    spec fn part1_answers(&self, input: Seq<u8>, answer: Option<SolvedValue>) -> bool;

    /// Whether `answer` is what part two may answer on `input`.
    spec fn part2_answers(&self, input: Seq<u8>, answer: Option<SolvedValue>) -> bool;

    /// Solves part one.
    fn part1(&self, input: &str) -> (res: Option<SolvedValue>)
        ensures
            self.part1_answers(input.spec_bytes(), res),
    ;

    /// Solves part two.
    fn part2(&self, input: &str) -> (res: Option<SolvedValue>)
        ensures
            self.part2_answers(input.spec_bytes(), res),
    ;

    /// Solves the part asked for.
    fn run(&self, input: &str, part: Part) -> (res: Option<SolvedValue>)
        ensures
            match part {
                Part::One => self.part1_answers(input.spec_bytes(), res),
                Part::Two => self.part2_answers(input.spec_bytes(), res),
            },
    {
        match part {
            Part::One => self.part1(input),
            Part::Two => self.part2(input),
        }
    }
}

} // verus!
