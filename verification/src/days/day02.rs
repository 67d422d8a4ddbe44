//! Day 2: ranges of product numbers, some of them made of a repeated
//! sequence of digits.
//!
//! Part one adds up the numbers whose digits are some sequence written
//! twice; part two those whose digits are some sequence written two or more
//! times.

use vstd::prelude::*;
use vstd::string::StringSliceAdditionalSpecFns;
use vstd::arithmetic::div_mod::{
    lemma_div_is_ordered, lemma_div_multiples_vanish_fancy, lemma_multiply_divide_lt,
};
use crate::digits::{
    decimal_digits, digits_of, ilog10, lemma_digits_concat, lemma_log10_floor, lemma_log10_grows, lemma_log10_is,
    lemma_pow10_add, lemma_pow10_grows, log10_floor, pow10, power_of_ten,
};
use crate::solution::{answer_of, solved, Solution, SolvedValue};
use crate::span::{holds, sum_of, Span};
use crate::text::{halves, padded_number_of, parse_padded_u64, pieces, split_on, split_once, views};

verus! {

/// The range written by `start-end`. `None` for anything else.
pub open spec fn span_of(piece: Seq<u8>) -> Option<Span> {
    match halves(piece, 45) {
        Some(parts) => match (padded_number_of(parts.0), padded_number_of(parts.1)) {
            (Some(start), Some(end)) => Some(Span { start, end }),
            _ => None,
        },
        None => None,
    }
}

/// The ranges written by the pieces that write one.
pub open spec fn spans_of(parts: Seq<Seq<u8>>) -> Seq<Span>
    decreases parts.len(),
{
    if parts.len() == 0 {
        Seq::empty()
    } else {
        match span_of(parts.last()) {
            Some(span) => spans_of(parts.drop_last()).push(span),
            None => spans_of(parts.drop_last()),
        }
    }
}

/// The ranges of an input text: the pieces between its commas that write
/// one.
pub open spec fn ranges_of(input: Seq<u8>) -> Seq<Span> {
    spans_of(pieces(input, 44))
}

/// The leading digits of `number`: all but the last `k` digits, where `k`
/// is half the number of digits less one plus `rounding`, rounded up. One
/// for a number of a single digit.
pub open spec fn half_number(number: nat, rounding: nat) -> nat {
    if number < 10 {
        1
    } else {
        number / pow10((log10_floor(number) + rounding + 1) / 2)
    }
}

/// The number whose digits are those of `half` written twice.
pub open spec fn double_of(half: nat) -> nat {
    half * pow10(log10_floor(half) + 1) + half
}

/// The doubles of the halves from `from` to `to` that `range` holds.
pub open spec fn doubles_between(range: Span, from: int, to: int) -> Seq<u64>
    decreases to - from + 1,
{
    if to < from || to < 0 {
        Seq::empty()
    } else {
        let rest = doubles_between(range, from, to - 1);
        if holds(range, double_of(to as nat) as int) {
            rest.push(double_of(to as nat) as u64)
        } else {
            rest
        }
    }
}

/// The numbers of `range` that the search for doubles finds, ascending.
pub open spec fn doubles_in(range: Span) -> Seq<u64> {
    doubles_between(
        range,
        half_number(range.start as nat, 1) as int,
        half_number(range.end as nat, 0) as int,
    )
}

/// The digits `ds` are their first `p` digits written two or more times.
pub open spec fn has_period(ds: Seq<u8>, p: int) -> bool {
    &&& 1 <= p <= ds.len() / 2
    &&& ds.len() % (p as nat) == 0
    &&& forall|k: int| 0 <= k < ds.len() ==> #[trigger] ds[k] == ds[k % p]
}

/// The digits of `n` are some sequence written two or more times.
pub open spec fn repeats(n: nat) -> bool {
    exists|p: int| has_period(digits_of(n), p)
}

/// The numbers from `from` to `to` that repeat, ascending.
pub open spec fn repetitions_between(from: int, to: int) -> Seq<u64>
    decreases to - from + 1,
{
    if to < from || to < 0 {
        Seq::empty()
    } else {
        let rest = repetitions_between(from, to - 1);
        if repeats(to as nat) {
            rest.push(to as u64)
        } else {
            rest
        }
    }
}

/// The numbers of `range` that repeat, ascending.
pub open spec fn repetitions_in(range: Span) -> Seq<u64> {
    repetitions_between(range.start as int, range.end as int)
}

/// The double of `half` has it as its leading half, and twice as many
/// digits.
pub proof fn lemma_double(half: nat)
    requires
        half >= 1,
    ensures
        double_of(half) / pow10(log10_floor(half) + 1) == half,
        log10_floor(double_of(half)) == 2 * log10_floor(half) + 1,
        double_of(half) >= 11,
{
    let l = log10_floor(half);
    let p = pow10(l + 1);
    let n = double_of(half);
    lemma_log10_floor(half);
    lemma_pow10_grows(0, l);
    lemma_div_multiples_vanish_fancy(half as int, half as int, p as int);
    assert(half * p == p * half) by (nonlinear_arith);
    lemma_pow10_add(l, l + 1);
    lemma_pow10_add(l + 1, l + 1);
    assert(pow10(l) * p <= half * p) by (nonlinear_arith)
        requires
            pow10(l) <= half,
            p >= 0,
    ;
    assert(half * p + half < p * p) by (nonlinear_arith)
        requires
            half + 1 <= p,
    ;
    assert(l + (l + 1) == 2 * l + 1 && (l + 1) + (l + 1) == (2 * l + 1) + 1);
    lemma_log10_is(n, 2 * l + 1);
    assert(p >= 10) by {
        lemma_pow10_grows(1, l + 1);
        assert(pow10(1) == 10) by {
            reveal_with_fuel(pow10, 2);
        }
    }
    assert(half * p + half >= 11) by (nonlinear_arith)
        requires
            half >= 1,
            p >= 10,
    ;
}

/// The digits of a double are the digits of its half, written twice: a
/// double repeats.
pub proof fn lemma_double_repeats(half: nat)
    requires
        half >= 1,
    ensures
        digits_of(double_of(half)) == digits_of(half) + digits_of(half),
        repeats(double_of(half)),
{
    lemma_digits_concat(half, half);
    lemma_log10_floor(half);
    let once = digits_of(half);
    let twice = digits_of(double_of(half));
    let d = once.len() as int;
    assert(twice.len() == 2 * d);
    assert((2 * d) / 2 == d);
    assert((2 * d) % d == 0) by (nonlinear_arith)
        requires
            d >= 1,
    ;
    assert forall|k: int| 0 <= k < twice.len() implies #[trigger] twice[k] == twice[k % d] by {
        if k < d {
            assert(k % d == k) by (nonlinear_arith)
                requires
                    0 <= k < d,
            ;
        } else {
            assert(k % d == k - d) by (nonlinear_arith)
                requires
                    d <= k < 2 * d,
            ;
        }
    }
    assert(has_period(twice, d));
}

/// The half that the search starts from is not zero, where the number is
/// cut in the middle or just beyond.
pub proof fn lemma_half_number_positive(number: nat, rounding: nat)
    requires
        rounding <= 1,
    ensures
        half_number(number, rounding) >= 1,
{
    if number >= 10 {
        let l = log10_floor(number);
        let k = (l + rounding + 1) / 2;
        lemma_log10_floor(number);
        assert(l >= 1) by {
            if l == 0 {
                assert(pow10(1) == 10) by {
                    reveal_with_fuel(pow10, 2);
                }
            }
        }
        lemma_pow10_grows(k, l);
        lemma_pow10_grows(0, k);
        lemma_div_is_ordered(pow10(k) as int, number as int, pow10(k) as int);
        assert(pow10(k) as int / pow10(k) as int == 1) by {
            lemma_div_multiples_vanish_fancy(1, 0, pow10(k) as int);
            assert(pow10(k) * 1 + 0 == pow10(k)) by (nonlinear_arith);
        }
    }
}

/// The half of every double that a range holds lies between the halves
/// that the search starts from and ends with.
pub proof fn lemma_halves_bracket(range: Span, half: nat)
    requires
        half >= 1,
        holds(range, double_of(half) as int),
    ensures
        half_number(range.start as nat, 1) <= half <= half_number(range.end as nat, 0),
{
    let d = log10_floor(half) + 1;
    let n = double_of(half);
    let p = pow10(d);
    lemma_double(half);
    lemma_log10_floor(half);
    lemma_pow10_grows(0, d);
    let end = range.end as nat;
    let start = range.start as nat;
    // the end
    let le = log10_floor(end);
    let ke = (le + 0 + 1) / 2;
    lemma_log10_grows(n, end);
    lemma_log10_floor(end);
    lemma_pow10_grows(0, ke);
    if le == 2 * d - 1 {
        assert(ke == d);
        lemma_div_is_ordered(n as int, end as int, p as int);
    } else {
        assert(le >= 2 * d);
        assert(le - ke >= d);
        lemma_pow10_add((le - ke) as nat, ke);
        lemma_pow10_grows(d, (le - ke) as nat);
        let q = pow10((le - ke) as nat);
        let c = pow10(ke);
        lemma_div_is_ordered((q * c) as int, end as int, c as int);
        lemma_div_multiples_vanish_fancy(q as int, 0, c as int);
        assert(c * q + 0 == q * c) by (nonlinear_arith);
    }
    // the start
    if start >= 10 {
        let ls = log10_floor(start);
        let ks = (ls + 1 + 1) / 2;
        lemma_log10_grows(start, n);
        lemma_log10_floor(start);
        lemma_pow10_grows(0, ks);
        if ls == 2 * d - 1 {
            assert(ks == d);
            lemma_div_is_ordered(start as int, n as int, p as int);
        } else {
            assert(ls <= 2 * d - 2);
            assert(ls + 1 >= ks);
            assert(ls + 1 - ks <= d - 1);
            let c = pow10(ks);
            let q = pow10((ls + 1 - ks) as nat);
            lemma_pow10_add((ls + 1 - ks) as nat, ks);
            assert(c * q == q * c) by (nonlinear_arith);
            lemma_multiply_divide_lt(start as int, c as int, q as int);
            lemma_pow10_grows((ls + 1 - ks) as nat, (d - 1) as nat);
        }
    }
}

/// What the search between two halves finds: the doubles of the halves
/// between them that the range holds.
pub proof fn lemma_doubles_between(range: Span, from: int, to: int, n: u64)
    requires
        0 <= from,
    ensures
        doubles_between(range, from, to).contains(n) <==> exists|half: nat|
            from <= half <= to && n == #[trigger] double_of(half) && holds(range, n as int),
    decreases to - from + 1,
{
    if to < from || to < 0 {
    } else {
        let rest = doubles_between(range, from, to - 1);
        lemma_doubles_between(range, from, to - 1, n);
        let all = doubles_between(range, from, to);
        let last = double_of(to as nat);
        if all.contains(n) {
            let i = choose|i: int| 0 <= i < all.len() && all[i] == n;
            if i < rest.len() {
                assert(rest[i] == n);
                assert(rest.contains(n));
                let half = choose|half: nat|
                    from <= half <= to - 1 && n == #[trigger] double_of(half) && holds(
                        range,
                        n as int,
                    );
                assert(from <= half <= to && n == double_of(half));
            } else {
                assert(n == last);
                assert(from <= to as nat <= to && n == double_of(to as nat));
            }
        }
        if exists|half: nat|
            from <= half <= to && n == #[trigger] double_of(half) && holds(range, n as int) {
            let half = choose|half: nat|
                from <= half <= to && n == #[trigger] double_of(half) && holds(range, n as int);
            if half == to {
                assert(all[all.len() - 1] == n);
            } else {
                assert(from <= half <= to - 1 && n == double_of(half));
                assert(rest.contains(n));
                let i = choose|i: int| 0 <= i < rest.len() && rest[i] == n;
                assert(all[i] == n);
            }
        }
    }
}

/// The search for doubles finds exactly the numbers of the range that are
/// some number written twice.
pub proof fn lemma_doubles_in(range: Span, n: u64)
    ensures
        doubles_in(range).contains(n) <==> holds(range, n as int) && exists|half: nat|
            half >= 1 && n == #[trigger] double_of(half),
{
    let from = half_number(range.start as nat, 1);
    let to = half_number(range.end as nat, 0);
    lemma_doubles_between(range, from as int, to as int, n);
    lemma_half_number_positive(range.start as nat, 1);
    if doubles_in(range).contains(n) {
        let half = choose|half: nat|
            from <= half <= to && n == #[trigger] double_of(half) && holds(range, n as int);
        assert(half >= 1 && n == double_of(half));
    }
    if holds(range, n as int) && exists|half: nat| half >= 1 && n == #[trigger] double_of(half) {
        let half = choose|half: nat| half >= 1 && n == #[trigger] double_of(half);
        lemma_halves_bracket(range, half);
        assert(from <= half <= to && n == double_of(half) && holds(range, n as int));
    }
}

/// The sum of the doubles found in each range.
pub open spec fn total_doubles(ranges: Seq<Span>) -> nat
    decreases ranges.len(),
{
    if ranges.len() == 0 {
        0
    } else {
        total_doubles(ranges.drop_last()) + sum_of(doubles_in(ranges.last()))
    }
}

/// The sum of the repeating numbers of each range.
pub open spec fn total_repetitions(ranges: Seq<Span>) -> nat
    decreases ranges.len(),
{
    if ranges.len() == 0 {
        0
    } else {
        total_repetitions(ranges.drop_last()) + sum_of(repetitions_in(ranges.last()))
    }
}

/// The totals only grow with further ranges.
pub proof fn lemma_totals_grow(ranges: Seq<Span>, k: int)
    requires
        0 <= k <= ranges.len(),
    ensures
        total_doubles(ranges.take(k)) <= total_doubles(ranges),
        total_repetitions(ranges.take(k)) <= total_repetitions(ranges),
    decreases ranges.len(),
{
    if k < ranges.len() {
        assert(ranges.drop_last().take(k) == ranges.take(k));
        lemma_totals_grow(ranges.drop_last(), k);
    } else {
        assert(ranges.take(k) == ranges);
    }
}

/// Reads the range that a piece writes.
pub fn parse_span(piece: &[u8]) -> (r: Option<Span>)
    ensures
        r == span_of(piece@),
{
    match split_once(piece, 45) {
        Some((left, right)) => {
            match (parse_padded_u64(left.as_slice()), parse_padded_u64(right.as_slice())) {
                (Some(start), Some(end)) => Some(Span { start, end }),
                _ => None,
            }
        },
        None => None,
    }
}

/// Reads the ranges of an input text, passing over what writes none.
pub fn parse_input_to_ranges(input: &[u8]) -> (ranges: Vec<Span>)
    ensures
        ranges@ == ranges_of(input@),
{
    let parts = split_on(input, 44);
    let mut ranges: Vec<Span> = Vec::new();
    let mut i: usize = 0;
    while i < parts.len()
        invariant
            i <= parts.len(),
            ranges@ == spans_of(views(parts@).take(i as int)),
        decreases parts.len() - i,
    {
        proof {
            let upto = views(parts@).take(i + 1);
            assert(upto.drop_last() == views(parts@).take(i as int));
            assert(upto.last() == parts[i as int]@);
        }
        match parse_span(parts[i].as_slice()) {
            Some(span) => {
                ranges.push(span);
            },
            None => {},
        }
        i = i + 1;
    }
    proof {
        assert(views(parts@).take(parts.len() as int) == views(parts@));
    }
    ranges
}

/// The leading half of the digits of `number`.
pub fn get_base10_half_number(number: u64, rounding: u32) -> (half: u64)
    ensures
        half == half_number(number as nat, rounding as nat),
{
    if number < 10 {
        1
    } else {
        let k: u64 = (ilog10(number) as u64 + rounding as u64 + 1) / 2;
        if k > 19 {
            proof {
                lemma_pow10_grows(20, k as nat);
                assert(pow10(20) == 100_000_000_000_000_000_000) by {
                    reveal_with_fuel(pow10, 21);
                }
                assert(number as nat / pow10(k as nat) == 0) by (nonlinear_arith)
                    requires
                        0 <= number < pow10(k as nat),
                ;
            }
            0
        } else {
            match power_of_ten(k as u32) {
                Some(power) => {
                    proof {
                        lemma_pow10_grows(0, k as nat);
                    }
                    number / power
                },
                None => {
                    proof {
                        assert(number as nat / pow10(k as nat) == 0) by (nonlinear_arith)
                            requires
                                0 <= number < pow10(k as nat),
                        ;
                    }
                    0
                },
            }
        }
    }
}

/// The number whose digits are those of `half` written twice, where it fits
/// 64 bits.
pub fn double(half: u64) -> (r: Option<u64>)
    ensures
        r == if double_of(half as nat) <= u64::MAX {
            Some(double_of(half as nat) as u64)
        } else {
            None
        },
{
    let power = power_of_ten(ilog10(half) + 1);
    proof {
        let p = pow10(log10_floor(half as nat) + 1);
        lemma_pow10_grows(0, log10_floor(half as nat) + 1);
        crate::digits::lemma_log10_floor(half as nat);
        if half > 0 {
            assert(half * p >= p) by (nonlinear_arith)
                requires
                    half >= 1,
                    p >= 0,
            ;
        }
    }
    if half == 0 {
        assert(0 * pow10(log10_floor(0) + 1) == 0) by (nonlinear_arith);
        return Some(0);
    }
    match power {
        Some(p) => match half.checked_mul(p) {
            Some(shifted) => shifted.checked_add(half),
            None => None,
        },
        None => None,
    }
}

/// Finds the doubles that `range` holds.
pub fn find_doubles_in_range(range: &Span) -> (doubles: Vec<u64>)
    ensures
        doubles@ == doubles_in(*range),
{
    let half_start: u64 = get_base10_half_number(range.start, 1);
    let half_end: u64 = get_base10_half_number(range.end, 0);
    let mut doubles: Vec<u64> = Vec::new();
    if half_end < half_start {
        return doubles;
    }
    let mut half: u64 = half_start;
    loop
        invariant_except_break
            doubles@ == doubles_between(*range, half_start as int, half - 1),
        invariant
            half_start <= half <= half_end,
        ensures
            doubles@ == doubles_between(*range, half_start as int, half_end as int),
        decreases half_end - half,
    {
        match double(half) {
            Some(n) => {
                if range.contains(n) {
                    doubles.push(n);
                }
            },
            None => {},
        }
        if half == half_end {
            break;
        }
        half = half + 1;
    }
    doubles
}

/// Whether the first `p` digits, written over and over, give `digits`.
fn repeats_every(digits: &Vec<u8>, p: usize) -> (r: bool)
    requires
        1 <= p <= digits@.len() / 2,
        digits@.len() % (p as nat) == 0,
    ensures
        r == has_period(digits@, p as int),
{
    let mut k: usize = 0;
    while k < digits.len()
        invariant
            k <= digits.len(),
            1 <= p <= digits@.len() / 2,
            forall|m: int| 0 <= m < k ==> #[trigger] digits@[m] == digits@[m % (p as int)],
        decreases digits.len() - k,
    {
        if digits[k] != digits[k % p] {
            return false;
        }
        k = k + 1;
    }
    true
}

/// Whether the digits of `number` are some sequence written two or more
/// times, as in 11241124 or 123123123.
pub fn has_number_repetitions(number: u64) -> (r: bool)
    ensures
        r == repeats(number as nat),
{
    let digits = decimal_digits(number);
    let n: usize = digits.len();
    let mut p: usize = 1;
    while p <= n / 2
        invariant
            1 <= p,
            n == digits@.len(),
            digits@ == digits_of(number as nat),
            forall|q: int| 1 <= q < p ==> !has_period(digits@, q),
        decreases n / 2 + 1 - p,
    {
        if n % p == 0 {
            if repeats_every(&digits, p) {
                return true;
            }
        }
        p = p + 1;
    }
    false
}

/// Finds the numbers of `range` that repeat.
pub fn get_range_repitions(range: &Span) -> (found: Vec<u64>)
    ensures
        found@ == repetitions_in(*range),
{
    let mut found: Vec<u64> = Vec::new();
    if range.end < range.start {
        return found;
    }
    let mut n: u64 = range.start;
    loop
        invariant_except_break
            found@ == repetitions_between(range.start as int, n - 1),
        invariant
            range.start <= n <= range.end,
        ensures
            found@ == repetitions_between(range.start as int, range.end as int),
        decreases range.end - n,
    {
        if has_number_repetitions(n) {
            found.push(n);
        }
        if n == range.end {
            break;
        }
        n = n + 1;
    }
    found
}

pub struct Day;

impl Solution for Day {
    open spec fn part1_answers(&self, input: Seq<u8>, answer: Option<SolvedValue>) -> bool {
        answer == answer_of(Some(total_doubles(ranges_of(input))))
    }

    open spec fn part2_answers(&self, input: Seq<u8>, answer: Option<SolvedValue>) -> bool {
        answer == answer_of(Some(total_repetitions(ranges_of(input))))
    }

    fn part1(&self, input: &str) -> (res: Option<SolvedValue>) {
        let ranges = parse_input_to_ranges(input.as_bytes());
        let mut sum: u64 = 0;
        let mut i: usize = 0;
        while i < ranges.len()
            invariant
                i <= ranges.len(),
                ranges@ == ranges_of(input.spec_bytes()),
                sum == total_doubles(ranges@.take(i as int)),
            decreases ranges.len() - i,
        {
            proof {
                assert(ranges@.take(i + 1).drop_last() == ranges@.take(i as int));
                lemma_totals_grow(ranges@, i + 1);
            }
            let doubles = find_doubles_in_range(&ranges[i]);
            let part = crate::span::checked_sum(doubles.as_slice());
            let next = match part {
                Some(part) => sum.checked_add(part),
                None => None,
            };
            match next {
                Some(next) => {
                    sum = next;
                },
                None => {
                    return None;
                },
            }
            i = i + 1;
        }
        proof {
            assert(ranges@.take(ranges.len() as int) == ranges@);
        }
        solved(sum)
    }

    fn part2(&self, input: &str) -> (res: Option<SolvedValue>) {
        let ranges = parse_input_to_ranges(input.as_bytes());
        let mut sum: u64 = 0;
        let mut i: usize = 0;
        while i < ranges.len()
            invariant
                i <= ranges.len(),
                ranges@ == ranges_of(input.spec_bytes()),
                sum == total_repetitions(ranges@.take(i as int)),
            decreases ranges.len() - i,
        {
            proof {
                assert(ranges@.take(i + 1).drop_last() == ranges@.take(i as int));
                lemma_totals_grow(ranges@, i + 1);
            }
            let found = get_range_repitions(&ranges[i]);
            let part = crate::span::checked_sum(found.as_slice());
            let next = match part {
                Some(part) => sum.checked_add(part),
                None => None,
            };
            match next {
                Some(next) => {
                    sum = next;
                },
                None => {
                    return None;
                },
            }
            i = i + 1;
        }
        proof {
            assert(ranges@.take(ranges.len() as int) == ranges@);
        }
        solved(sum)
    }
}

} // verus!
