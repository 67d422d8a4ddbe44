//! Day 6: a worksheet of sums and products, written in columns.
//!
//! Part one reads the numbers of a problem row by row; part two reads them
//! column by column, one number a column of digits. Both add up the results
//! of all problems.

use vstd::prelude::*;
use vstd::string::StringSliceAdditionalSpecFns;
use crate::solution::{answer_of, solved, Solution, SolvedValue};
use crate::span::{checked_sum, sum_of};
use crate::text::{
    lines, lines_of, number_of, padded_number_of, parse_padded_u64, parse_u64,
    split_whitespace, trim, trimmed, views, words_of,
};

verus! {

/// A problem of the worksheet: numbers to add or to multiply.
#[derive(Debug)]
pub enum Equation {
    Add(Vec<u64>),
    Multiply(Vec<u64>),
}

/// A problem as a value: whether it adds, and its numbers.
pub open spec fn view_of(e: Equation) -> (bool, Seq<u64>) {
    match e {
        Equation::Add(numbers) => (true, numbers@),
        Equation::Multiply(numbers) => (false, numbers@),
    }
}

/// The problems of a list as values.
pub open spec fn equation_views(s: Seq<Equation>) -> Seq<(bool, Seq<u64>)> {
    Seq::new(s.len(), |i: int| view_of(s[i]))
}

/// The product of the numbers of a list.
pub open spec fn product_of(s: Seq<u64>) -> nat
    decreases s.len(),
{
    if s.len() == 0 {
        1
    } else {
        product_of(s.drop_last()) * s.last() as nat
    }
}

/// The result of a problem.
pub open spec fn value_of(e: (bool, Seq<u64>)) -> nat {
    if e.0 {
        sum_of(e.1)
    } else {
        product_of(e.1)
    }
}

/// The sum of the results of the problems.
pub open spec fn total_of(equations: Seq<(bool, Seq<u64>)>) -> nat
    decreases equations.len(),
{
    if equations.len() == 0 {
        0
    } else {
        total_of(equations.drop_last()) + value_of(equations.last())
    }
}

/// The total only grows with further problems.
pub proof fn lemma_total_prefix(equations: Seq<(bool, Seq<u64>)>, k: int)
    requires
        0 <= k <= equations.len(),
    ensures
        total_of(equations.take(k)) <= total_of(equations),
    decreases equations.len(),
{
    if k < equations.len() {
        assert(equations.drop_last().take(k) == equations.take(k));
        lemma_total_prefix(equations.drop_last(), k);
    } else {
        assert(equations.take(k) == equations);
    }
}

/// A product with a factor zero is zero; one without is no less than the
/// product of any of its first factors, and not zero.
pub proof fn lemma_product(s: Seq<u64>, k: int)
    requires
        0 <= k <= s.len(),
    ensures
        (exists|i: int| 0 <= i < s.len() && s[i] == 0) ==> product_of(s) == 0,
        (forall|i: int| 0 <= i < s.len() ==> s[i] != 0) ==> 1 <= product_of(s.take(k))
            <= product_of(s),
    decreases s.len(),
{
    if s.len() > 0 {
        let rest = s.drop_last();
        let last = s.last();
        if exists|i: int| 0 <= i < s.len() && s[i] == 0 {
            let i = choose|i: int| 0 <= i < s.len() && s[i] == 0;
            if i < rest.len() {
                assert(rest[i] == 0);
                lemma_product(rest, 0);
                assert(product_of(rest) * last == 0) by (nonlinear_arith)
                    requires
                        product_of(rest) == 0,
                ;
            } else {
                assert(product_of(rest) * last == 0) by (nonlinear_arith)
                    requires
                        last == 0,
                ;
            }
        }
        if forall|i: int| 0 <= i < s.len() ==> s[i] != 0 {
            assert forall|i: int| 0 <= i < rest.len() implies rest[i] != 0 by {
                assert(rest[i] == s[i]);
            }
            assert(s[s.len() - 1] != 0);
            if k < s.len() {
                lemma_product(rest, k);
                assert(rest.take(k) == s.take(k));
            } else {
                lemma_product(rest, rest.len() as int);
                assert(rest.take(rest.len() as int) == rest);
                assert(s.take(k) == s);
            }
            assert(product_of(rest) * last >= product_of(rest)) by (nonlinear_arith)
                requires
                    product_of(rest) >= 1,
                    last >= 1,
            ;
        }
    } else {
        assert(s.take(k) == s);
    }
}

/// Multiplies a list of numbers. `None` where the product does not fit 64
/// bits.
pub fn checked_product(numbers: &[u64]) -> (r: Option<u64>)
    ensures
        r == if product_of(numbers@) <= u64::MAX {
            Some(product_of(numbers@) as u64)
        } else {
            None
        },
{
    let mut z: usize = 0;
    while z < numbers.len()
        invariant
            z <= numbers.len(),
            forall|i: int| 0 <= i < z ==> numbers@[i] != 0,
        decreases numbers.len() - z,
    {
        if numbers[z] == 0 {
            proof {
                lemma_product(numbers@, 0);
            }
            return Some(0);
        }
        z = z + 1;
    }
    let mut product: u64 = 1;
    let mut i: usize = 0;
    while i < numbers.len()
        invariant
            i <= numbers.len(),
            forall|k: int| 0 <= k < numbers.len() ==> numbers@[k] != 0,
            product == product_of(numbers@.take(i as int)),
        decreases numbers.len() - i,
    {
        proof {
            assert(numbers@.take(i + 1).drop_last() == numbers@.take(i as int));
            lemma_product(numbers@, i + 1);
        }
        match product.checked_mul(numbers[i]) {
            Some(next) => {
                product = next;
            },
            None => {
                return None;
            },
        }
        i = i + 1;
    }
    proof {
        assert(numbers@.take(numbers.len() as int) == numbers@);
    }
    Some(product)
}

impl Equation {
    /// The result of the problem. `None` where it does not fit 64 bits.
    pub fn execute(&self) -> (r: Option<u64>)
        ensures
            r == if value_of(view_of(*self)) <= u64::MAX {
                Some(value_of(view_of(*self)) as u64)
            } else {
                None
            },
    {
        match self {
            Equation::Add(numbers) => checked_sum(numbers.as_slice()),
            Equation::Multiply(numbers) => checked_product(numbers.as_slice()),
        }
    }
}

/// Adds up the results of the problems. `None` where a result or the total
/// does not fit 64 bits.
pub fn total(equations: &Vec<Equation>) -> (r: Option<u64>)
    ensures
        r == if total_of(equation_views(equations@)) <= u64::MAX {
            Some(total_of(equation_views(equations@)) as u64)
        } else {
            None
        },
{
    let ghost all = equation_views(equations@);
    let mut sum: u64 = 0;
    let mut i: usize = 0;
    while i < equations.len()
        invariant
            i <= equations.len(),
            all == equation_views(equations@),
            sum == total_of(all.take(i as int)),
        decreases equations.len() - i,
    {
        proof {
            assert(all.take(i + 1).drop_last() == all.take(i as int));
            assert(all.take(i + 1).last() == view_of(equations@[i as int]));
            lemma_total_prefix(all, i + 1);
        }
        let next = match equations[i].execute() {
            Some(value) => sum.checked_add(value),
            None => None,
        };
        match next {
            Some(next) => {
                sum = next;
            },
            None => {
                return None;
            },
        }
        i = i + 1;
    }
    proof {
        assert(all.take(equations.len() as int) == all);
    }
    Some(sum)
}

/// The numbers that the first `r_end` lines hold as their word number `k`,
/// a word that writes no number passed over. `None` where some line has no
/// such word.
pub open spec fn numbers_at(lines: Seq<Seq<u8>>, r_end: nat, k: int) -> Option<Seq<u64>>
    decreases r_end,
{
    if r_end == 0 {
        Some(Seq::empty())
    } else {
        let words = words_of(lines[r_end - 1]);
        match numbers_at(lines, (r_end - 1) as nat, k) {
            Some(rest) => if k < words.len() {
                match number_of(words[k]) {
                    Some(n) => Some(rest.push(n)),
                    None => Some(rest),
                }
            } else {
                None
            },
            None => None,
        }
    }
}

/// The problem whose operator is the word number `k` of the last line, and
/// whose numbers are the words number `k` of the lines before. `None` where
/// a line is short of words or the operator is neither `+` nor `*`.
pub open spec fn problem_at(lines: Seq<Seq<u8>>, k: int) -> Option<(bool, Seq<u64>)> {
    let operator = words_of(lines.last())[k];
    match numbers_at(lines, (lines.len() - 1) as nat, k) {
        Some(numbers) => if operator == seq![43u8] {
            Some((true, numbers))
        } else if operator == seq![42u8] {
            Some((false, numbers))
        } else {
            None
        },
        None => None,
    }
}

/// The first `k_end` problems of a worksheet read row by row.
pub open spec fn problems_below(lines: Seq<Seq<u8>>, k_end: nat) -> Option<Seq<(bool, Seq<u64>)>>
    decreases k_end,
{
    if k_end == 0 {
        Some(Seq::empty())
    } else {
        match (problems_below(lines, (k_end - 1) as nat), problem_at(lines, k_end - 1)) {
            (Some(rest), Some(problem)) => Some(rest.push(problem)),
            _ => None,
        }
    }
}

/// The problems of a worksheet read row by row. `None` where the worksheet
/// has no line or is malformed.
pub open spec fn problems_of(lines: Seq<Seq<u8>>) -> Option<Seq<(bool, Seq<u64>)>> {
    if lines.len() == 0 {
        None
    } else {
        problems_below(lines, words_of(lines.last()).len())
    }
}

/// Where the first problems are malformed, the worksheet is.
pub proof fn lemma_problems_prefix(lines: Seq<Seq<u8>>, k: nat, k_end: nat)
    requires
        k <= k_end,
        problems_below(lines, k).is_none(),
    ensures
        problems_below(lines, k_end).is_none(),
    decreases k_end,
{
    if k < k_end {
        lemma_problems_prefix(lines, k, (k_end - 1) as nat);
    }
}

/// Where the first lines are short of words, all are.
pub proof fn lemma_numbers_at_prefix(lines: Seq<Seq<u8>>, r: nat, r_end: nat, k: int)
    requires
        r <= r_end,
        numbers_at(lines, r, k).is_none(),
    ensures
        numbers_at(lines, r_end, k).is_none(),
    decreases r_end,
{
    if r < r_end {
        lemma_numbers_at_prefix(lines, r, (r_end - 1) as nat, k);
    }
}

/// Reads the problems of a worksheet row by row.
pub fn parse_input(input: &[u8]) -> (r: Option<Vec<Equation>>)
    ensures
        match r {
            Some(equations) => problems_of(lines_of(input@)) == Some(equation_views(equations@)),
            None => problems_of(lines_of(input@)).is_none(),
        },
{
    let rows = lines(input);
    if rows.len() == 0 {
        return None;
    }
    let ghost text = views(rows@);
    let last: usize = rows.len() - 1;
    let operators = split_whitespace(rows[last].as_slice());
    proof {
        assert(text.last() == rows[last as int]@);
    }
    let mut equations: Vec<Equation> = Vec::new();
    let mut index: usize = 0;
    while index < operators.len()
        invariant
            index <= operators.len(),
            text == views(rows@),
            text == lines_of(input@),
            last == rows.len() - 1,
            views(operators@) == words_of(text.last()),
            problems_below(text, index as nat) == Some(equation_views(equations@)),
        decreases operators.len() - index,
    {
        let mut numbers: Vec<u64> = Vec::new();
        let mut r: usize = 0;
        while r < last
            invariant
                r <= last,
                text == views(rows@),
                text == lines_of(input@),
                last == rows.len() - 1,
                index < operators.len(),
                views(operators@) == words_of(text.last()),
                numbers_at(text, r as nat, index as int) == Some(numbers@),
            decreases last - r,
        {
            let words = split_whitespace(rows[r].as_slice());
            proof {
                assert(text[r as int] == rows[r as int]@);
            }
            if index >= words.len() {
                proof {
                    lemma_numbers_at_prefix(text, (r + 1) as nat, last as nat, index as int);
                    lemma_problems_prefix(text, (index + 1) as nat, operators.len() as nat);
                }
                return None;
            }
            proof {
                assert(views(words@)[index as int] == words[index as int]@);
            }
            match parse_u64(words[index].as_slice()) {
                Some(n) => {
                    numbers.push(n);
                },
                None => {},
            }
            r = r + 1;
        }
        let op = &operators[index];
        proof {
            assert(views(operators@)[index as int] == op@);
        }
        let ghost before = equation_views(equations@);
        if op.len() == 1 && op[0] == 43 {
            proof {
                assert(op@ =~= seq![43u8]);
            }
            equations.push(Equation::Add(numbers));
        } else if op.len() == 1 && op[0] == 42 {
            proof {
                assert(op@ =~= seq![42u8]);
            }
            equations.push(Equation::Multiply(numbers));
        } else {
            proof {
                if op@ == seq![43u8] || op@ == seq![42u8] {
                    assert(op@.len() == 1);
                    assert(op@[0] == 43 || op@[0] == 42);
                }
                lemma_problems_prefix(text, (index + 1) as nat, operators.len() as nat);
            }
            return None;
        }
        proof {
            assert(equation_views(equations@) =~= before.push(view_of(equations@.last())));
        }
        index = index + 1;
    }
    Some(equations)
}

/// The column number `c` of the lines, top to bottom.
pub open spec fn column_at(lines: Seq<Seq<u8>>, c: int) -> Seq<u8> {
    Seq::new(lines.len(), |r: int| lines[r][c])
}

/// The worksheet has a line, and no line is shorter than the first.
pub open spec fn has_columns(lines: Seq<Seq<u8>>) -> bool {
    lines.len() >= 1 && forall|r: int| 0 <= r < lines.len() ==> (#[trigger] lines[r]).len()
        >= lines[0].len()
}

/// `s` without its last byte.
pub open spec fn without_last(s: Seq<u8>) -> Seq<u8> {
    if s.len() > 0 {
        s.drop_last()
    } else {
        s
    }
}

/// The worksheet read column by column up to column `c_end`: the problems
/// that are complete, and the one that is being read, if any. An empty
/// column ends a problem. The first column of a problem ends in its
/// operator, anything but `+` meaning a product; every column gives one
/// number where it writes one.
pub open spec fn reading(lines: Seq<Seq<u8>>, c_end: nat) -> (
    Seq<(bool, Seq<u64>)>,
    Option<(bool, Seq<u64>)>,
)
    decreases c_end,
{
    if c_end == 0 {
        (Seq::empty(), None)
    } else {
        let before = reading(lines, (c_end - 1) as nat);
        let column = trimmed(column_at(lines, c_end - 1));
        if column.len() == 0 {
            match before.1 {
                Some(problem) => (before.0.push(problem), None),
                None => before,
            }
        } else {
            match before.1 {
                Some(problem) => (
                    before.0,
                    Some(
                        (
                            problem.0,
                            match padded_number_of(column) {
                                Some(n) => problem.1.push(n),
                                None => problem.1,
                            },
                        ),
                    ),
                ),
                None => (
                    before.0,
                    Some(
                        (
                            column.last() == 43,
                            match padded_number_of(without_last(column)) {
                                Some(n) => seq![n],
                                None => Seq::empty(),
                            },
                        ),
                    ),
                ),
            }
        }
    }
}

/// The problems of a worksheet read column by column. `None` where the
/// worksheet has no line or some line is shorter than the first.
pub open spec fn transposed_problems_of(lines: Seq<Seq<u8>>) -> Option<Seq<(bool, Seq<u64>)>> {
    if has_columns(lines) {
        let read = reading(lines, lines[0].len());
        match read.1 {
            Some(problem) => Some(read.0.push(problem)),
            None => Some(read.0),
        }
    } else {
        None
    }
}

/// Reads the problems of a worksheet column by column.
pub fn parse_transposed_input(input: &[u8]) -> (r: Option<Vec<Equation>>)
    ensures
        match r {
            Some(equations) => transposed_problems_of(lines_of(input@)) == Some(
                equation_views(equations@),
            ),
            None => transposed_problems_of(lines_of(input@)).is_none(),
        },
{
    let rows = lines(input);
    let ghost text = views(rows@);
    if rows.len() == 0 {
        return None;
    }
    let cols: usize = rows[0].len();
    let mut r: usize = 0;
    while r < rows.len()
        invariant
            r <= rows.len(),
            rows.len() >= 1,
            text == views(rows@),
            text == lines_of(input@),
            cols == text[0].len(),
            forall|k: int| 0 <= k < r ==> (#[trigger] text[k]).len() >= cols,
        decreases rows.len() - r,
    {
        if rows[r].len() < cols {
            proof {
                assert(text[r as int].len() < cols);
            }
            return None;
        }
        r = r + 1;
    }
    let mut equations: Vec<Equation> = Vec::new();
    let mut current: Vec<u64> = Vec::new();
    let mut adding: bool = false;
    let mut open: bool = false;
    let mut c: usize = 0;
    while c < cols
        invariant
            c <= cols,
            rows.len() >= 1,
            text == views(rows@),
            text == lines_of(input@),
            cols == text[0].len(),
            has_columns(text),
            equation_views(equations@) == reading(text, c as nat).0,
            open ==> reading(text, c as nat).1 == Some((adding, current@)),
            !open ==> reading(text, c as nat).1.is_none() && current@.len() == 0,
        decreases cols - c,
    {
        let mut column: Vec<u8> = Vec::new();
        let mut k: usize = 0;
        while k < rows.len()
            invariant
                k <= rows.len(),
                c < cols,
                text == views(rows@),
                cols == text[0].len(),
                has_columns(text),
                column@.len() == k,
                forall|j: int| 0 <= j < k ==> (#[trigger] column@[j]) == text[j][c as int],
            decreases rows.len() - k,
        {
            proof {
                assert(text[k as int] == rows[k as int]@);
            }
            column.push(rows[k][c]);
            k = k + 1;
        }
        proof {
            assert(column@ =~= column_at(text, c as int));
        }
        let mark = trim(column.as_slice());
        let ghost before = equation_views(equations@);
        if mark.len() == 0 {
            if open {
                if adding {
                    equations.push(Equation::Add(current));
                } else {
                    equations.push(Equation::Multiply(current));
                }
                proof {
                    assert(equation_views(equations@) =~= before.push(
                        view_of(equations@.last()),
                    ));
                }
                current = Vec::new();
                open = false;
            }
        } else if open {
            match parse_padded_u64(mark.as_slice()) {
                Some(n) => {
                    current.push(n);
                },
                None => {},
            }
        } else {
            adding = mark[mark.len() - 1] == 43;
            let digits = crate::text::copy_range(mark.as_slice(), 0, mark.len() - 1);
            proof {
                assert(digits@ == without_last(mark@));
            }
            match parse_padded_u64(digits.as_slice()) {
                Some(n) => {
                    current.push(n);
                },
                None => {},
            }
            open = true;
        }
        c = c + 1;
    }
    if open {
        let ghost before = equation_views(equations@);
        if adding {
            equations.push(Equation::Add(current));
        } else {
            equations.push(Equation::Multiply(current));
        }
        proof {
            assert(equation_views(equations@) =~= before.push(view_of(equations@.last())));
        }
    }
    Some(equations)
}

/// The answer to part one. `None` where the worksheet is malformed or the
/// total does not fit the machine word.
pub open spec fn rows_answer(input: Seq<u8>) -> Option<SolvedValue> {
    match problems_of(lines_of(input)) {
        Some(problems) => answer_of(Some(total_of(problems))),
        None => None,
    }
}

/// The answer to part two. `None` where the worksheet is malformed or the
/// total does not fit the machine word.
pub open spec fn columns_answer(input: Seq<u8>) -> Option<SolvedValue> {
    match transposed_problems_of(lines_of(input)) {
        Some(problems) => answer_of(Some(total_of(problems))),
        None => None,
    }
}

pub struct Day;

impl Solution for Day {
    open spec fn part1_answers(&self, input: Seq<u8>, answer: Option<SolvedValue>) -> bool {
        answer == rows_answer(input)
    }

    open spec fn part2_answers(&self, input: Seq<u8>, answer: Option<SolvedValue>) -> bool {
        answer == columns_answer(input)
    }

    fn part1(&self, input: &str) -> (res: Option<SolvedValue>) {
        match parse_input(input.as_bytes()) {
            Some(equations) => match total(&equations) {
                Some(sum) => solved(sum),
                None => None,
            },
            None => None,
        }
    }

    fn part2(&self, input: &str) -> (res: Option<SolvedValue>) {
        match parse_transposed_input(input.as_bytes()) {
            Some(equations) => match total(&equations) {
                Some(sum) => solved(sum),
                None => None,
            },
            None => None,
        }
    }
}

} // verus!
