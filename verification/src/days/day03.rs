//! Day 3: banks of batteries, each battery labelled with a digit.
//!
//! Switching on some batteries of a bank, left to right, yields the number
//! that their digits write. Part one wants the largest number from two
//! batteries of each bank, part two from twelve.

use vstd::prelude::*;
use vstd::string::StringSliceAdditionalSpecFns;
use crate::digits::{lemma_pow10_grows, pow10};
use crate::solution::{answer_of, solved, Solution, SolvedValue};
use crate::text::{is_digit, lines, lines_of, views};

verus! {

pub type Battery = u8;

/// A bank of batteries: the digits of one line.
#[derive(Debug)]
pub struct Bank(pub Vec<Battery>);

/// The first position of the greatest battery of `s`, and that battery. An
/// empty or all-zero stretch gives position 0 and battery 0.
pub open spec fn scan_max(s: Seq<Battery>) -> (int, Battery)
    decreases s.len(),
{
    if s.len() == 0 {
        (0, 0)
    } else {
        let found = scan_max(s.drop_last());
        if s.last() > found.1 {
            (s.len() - 1, s.last())
        } else {
            found
        }
    }
}

/// What `scan_max` finds: no battery is greater than the one found, none
/// before it is as great, and it stands where it is said to stand.
pub proof fn lemma_scan_max(s: Seq<Battery>)
    ensures
        0 <= scan_max(s).0,
        s.len() > 0 ==> scan_max(s).0 < s.len(),
        forall|i: int| 0 <= i < s.len() ==> s[i] <= scan_max(s).1,
        forall|i: int| 0 <= i < scan_max(s).0 ==> s[i] < scan_max(s).1,
        scan_max(s).1 > 0 ==> s[scan_max(s).0] == scan_max(s).1,
        scan_max(s).1 == 0 ==> scan_max(s).0 == 0,
    decreases s.len(),
{
    if s.len() > 0 {
        lemma_scan_max(s.drop_last());
        let found = scan_max(s.drop_last());
        assert forall|i: int| 0 <= i < s.len() implies s[i] <= scan_max(s).1 by {
            if i < s.len() - 1 {
                assert(s.drop_last()[i] == s[i]);
            }
        }
        assert forall|i: int| 0 <= i < scan_max(s).0 implies s[i] < scan_max(s).1 by {
            if i < s.len() - 1 {
                assert(s.drop_last()[i] == s[i]);
            }
        }
        if found.1 > 0 && !(s.last() > found.1) {
            assert(s.drop_last()[found.0] == s[found.0]);
        }
    }
}

/// The batteries of a bank are digits.
pub open spec fn digits_only(s: Seq<Battery>) -> bool {
    forall|i: int| 0 <= i < s.len() ==> (#[trigger] s[i]) <= 9
}

/// The largest number from two batteries, as the search finds it: the first
/// greatest battery that is not the last, then the greatest one after it.
pub open spec fn power_2(s: Seq<Battery>) -> nat {
    let head = scan_max(s.take(s.len() - 1));
    (head.1 * 10 + scan_max(s.skip(head.0 + 1)).1) as nat
}

/// The search for twelve batteries after `taken` of them have been chosen:
/// the next is the first greatest one from `start` on that leaves enough
/// batteries behind it.
pub open spec fn power_from(s: Seq<Battery>, start: int, taken: nat, sofar: nat) -> nat
    decreases 12 - taken,
{
    if taken >= 12 {
        sofar
    } else {
        let end = s.len() - 12 + taken;
        let found = scan_max(s.subrange(start, end + 1));
        power_from(s, start + found.0 + 1, taken + 1, sofar * 10 + found.1 as nat)
    }
}

/// The largest number from twelve batteries, as the search finds it.
pub open spec fn power_12(s: Seq<Battery>) -> nat {
    power_from(s, 0, 0, 0)
}

/// The number that the batteries at positions `i < j` write.
pub open spec fn pair_power(s: Seq<Battery>, i: int, j: int) -> nat {
    (s[i] * 10 + s[j]) as nat
}

/// No two batteries of a bank write a larger number than the search finds,
/// and some two write that number.
pub proof fn lemma_power_2_is_largest(s: Seq<Battery>)
    requires
        s.len() >= 2,
        digits_only(s),
    ensures
        forall|i: int, j: int| 0 <= i < j < s.len() ==> #[trigger] pair_power(s, i, j) <= power_2(s),
        exists|i: int, j: int| 0 <= i < j < s.len() && #[trigger] pair_power(s, i, j) == power_2(s),
{
    let front = s.take(s.len() - 1);
    let head = scan_max(front);
    lemma_scan_max(front);
    let back = s.skip(head.0 + 1);
    let tail = scan_max(back);
    lemma_scan_max(back);
    assert forall|i: int, j: int| 0 <= i < j < s.len() implies #[trigger] pair_power(s, i, j)
        <= power_2(s) by {
        assert(front[i] == s[i]);
        assert(s[j] <= 9);
        if s[i] == head.1 {
            assert(i >= head.0);
            assert(back[j - head.0 - 1] == s[j]);
        }
    }
    let i = head.0;
    let j = head.0 + 1 + tail.0;
    assert(front[i] == s[i]);
    assert(back[tail.0] == s[j]);
    if head.1 == 0 {
        assert(s[i] == 0);
    }
    if tail.1 == 0 {
        assert(s[j] <= tail.1);
    }
    assert(pair_power(s, i, j) == power_2(s));
}

/// The positions `idx` ascend, none twice, from `lo` up to below `hi`.
pub open spec fn picks(idx: Seq<int>, lo: int, hi: int) -> bool {
    &&& forall|i: int| 0 <= i < idx.len() ==> lo <= #[trigger] idx[i] < hi
    &&& forall|i: int, j: int| 0 <= i < j < idx.len() ==> idx[i] < idx[j]
}

/// The number that the batteries at the positions `idx` write, left to
/// right.
pub open spec fn number_at(s: Seq<Battery>, idx: Seq<int>) -> nat
    decreases idx.len(),
{
    if idx.len() == 0 {
        0
    } else {
        number_at(s, idx.drop_last()) * 10 + s[idx.last()] as nat
    }
}

/// Ascending positions lie at least as far apart as their places in the
/// list.
pub proof fn lemma_picks_spread(idx: Seq<int>, lo: int, hi: int, i: int, j: int)
    requires
        picks(idx, lo, hi),
        0 <= i <= j < idx.len(),
    ensures
        idx[j] >= idx[i] + (j - i),
    decreases j - i,
{
    if i < j {
        lemma_picks_spread(idx, lo, hi, i, j - 1);
        assert(idx[j - 1] < idx[j]);
    }
}

/// The number that batteries write is the first digit, shifted, and then
/// the number that the others write.
pub proof fn lemma_number_first(s: Seq<Battery>, idx: Seq<int>)
    requires
        idx.len() >= 1,
    ensures
        number_at(s, idx) == s[idx[0]] * pow10((idx.len() - 1) as nat) + number_at(
            s,
            idx.drop_first(),
        ),
    decreases idx.len(),
{
    if idx.len() == 1 {
        assert(idx.drop_last().len() == 0);
        assert(idx.drop_first().len() == 0);
        assert(number_at(s, idx.drop_last()) == 0);
        assert(number_at(s, idx.drop_first()) == 0);
        assert(pow10(0) == 1);
        assert(idx.last() == idx[0]);
        assert(s[idx[0]] * 1 == s[idx[0]]) by (nonlinear_arith);
    } else {
        let front = idx.drop_last();
        let back = idx.drop_first();
        lemma_number_first(s, front);
        assert(front.drop_first() == back.drop_last());
        assert(front[0] == idx[0]);
        assert(back.last() == idx.last());
        let d = s[idx[0]] as nat;
        let p = pow10((idx.len() - 2) as nat);
        let r = number_at(s, back.drop_last());
        assert(pow10((idx.len() - 1) as nat) == 10 * p);
        assert((d * p + r) * 10 == d * (10 * p) + r * 10) by (nonlinear_arith);
    }
}

/// Batteries that are digits write a number of as many digits as they are.
pub proof fn lemma_number_bound(s: Seq<Battery>, idx: Seq<int>)
    requires
        digits_only(s),
        picks(idx, 0, s.len() as int),
    ensures
        number_at(s, idx) < pow10(idx.len()),
    decreases idx.len(),
{
    if idx.len() > 0 {
        let front = idx.drop_last();
        assert(picks(front, 0, s.len() as int)) by {
            assert forall|i: int| 0 <= i < front.len() implies 0 <= #[trigger] front[i]
                < s.len() by {
                assert(front[i] == idx[i]);
            }
            assert forall|i: int, j: int| 0 <= i < j < front.len() implies front[i]
                < front[j] by {
                assert(front[i] == idx[i] && front[j] == idx[j]);
            }
        }
        lemma_number_bound(s, front);
        assert(0 <= idx[idx.len() - 1] < s.len());
        assert(s[idx.last()] <= 9);
    }
}

/// The search finds no less than what it has so far, shifted to twelve
/// digits.
pub proof fn lemma_power_from_least(s: Seq<Battery>, start: int, taken: nat, sofar: nat)
    requires
        taken <= 12,
    ensures
        power_from(s, start, taken, sofar) >= sofar * pow10((12 - taken) as nat),
    decreases 12 - taken,
{
    if taken < 12 {
        let end = s.len() - 12 + taken;
        let found = scan_max(s.subrange(start, end + 1));
        lemma_power_from_least(s, start + found.0 + 1, taken + 1, sofar * 10 + found.1 as nat);
        let p = pow10((11 - taken) as nat);
        assert(pow10((12 - taken) as nat) == 10 * p);
        assert((sofar * 10 + found.1 as nat) * p >= sofar * (10 * p)) by (nonlinear_arith)
            requires
                p >= 0,
                found.1 >= 0,
        ;
    } else {
        assert(pow10(0) == 1);
        assert(sofar * 1 == sofar) by (nonlinear_arith);
    }
}

/// However the remaining batteries are chosen from `start` on, the number
/// they complete is no larger than the one the search finds.
pub proof fn lemma_power_from_best(
    s: Seq<Battery>,
    start: int,
    taken: nat,
    sofar: nat,
    idx: Seq<int>,
)
    requires
        digits_only(s),
        s.len() >= 12,
        taken <= 12,
        0 <= start <= s.len() - 12 + taken,
        picks(idx, start, s.len() as int),
        idx.len() == 12 - taken,
    ensures
        sofar * pow10((12 - taken) as nat) + number_at(s, idx) <= power_from(s, start, taken, sofar),
    decreases 12 - taken,
{
    if taken == 12 {
        assert(pow10(0) == 1);
        assert(sofar * 1 == sofar) by (nonlinear_arith);
    } else {
        let end = s.len() - 12 + taken;
        let window = s.subrange(start, end + 1);
        let found = scan_max(window);
        lemma_scan_max(window);
        let a = idx[0];
        let rest = idx.drop_first();
        lemma_picks_spread(idx, start, s.len() as int, 0, idx.len() - 1);
        assert(idx[idx.len() - 1] < s.len());
        assert(start <= a <= end);
        assert(window[a - start] == s[a]);
        let m = found.1 as nat;
        let p = pow10((11 - taken) as nat);
        assert(pow10((12 - taken) as nat) == 10 * p);
        lemma_number_first(s, idx);
        assert(picks(rest, a + 1, s.len() as int)) by {
            assert forall|i: int| 0 <= i < rest.len() implies a + 1 <= #[trigger] rest[i]
                < s.len() by {
                assert(rest[i] == idx[i + 1]);
                assert(idx[0] < idx[i + 1]);
            }
            assert forall|i: int, j: int| 0 <= i < j < rest.len() implies rest[i] < rest[j] by {
                assert(rest[i] == idx[i + 1] && rest[j] == idx[j + 1]);
            }
        }
        let next = start + found.0 + 1;
        if s[a] == found.1 {
            assert(a - start >= found.0) by {
                if a - start < found.0 {
                    assert(window[a - start] < found.1);
                }
            }
            assert(picks(rest, next, s.len() as int)) by {
                assert forall|i: int| 0 <= i < rest.len() implies next <= #[trigger] rest[i]
                    < s.len() by {
                    assert(a + 1 <= rest[i]);
                }
            }
            lemma_power_from_best(s, next, taken + 1, sofar * 10 + m, rest);
            let r = number_at(s, rest);
            assert(sofar * (10 * p) + (m * p + r) == (sofar * 10 + m) * p + r) by (nonlinear_arith);
        } else {
            assert(picks(rest, 0, s.len() as int)) by {
                assert forall|i: int| 0 <= i < rest.len() implies 0 <= #[trigger] rest[i]
                    < s.len() by {
                    assert(a + 1 <= rest[i]);
                }
            }
            lemma_number_bound(s, rest);
            lemma_power_from_least(s, next, taken + 1, sofar * 10 + m);
            let d = s[a] as nat;
            let r = number_at(s, rest);
            assert(sofar * (10 * p) + (d * p + r) <= (sofar * 10 + m) * p) by (nonlinear_arith)
                requires
                    d + 1 <= m,
                    r < p,
            ;
        }
    }
}

/// The positions of the batteries that the search chooses from `start` on.
pub proof fn lemma_power_from_written(s: Seq<Battery>, start: int, taken: nat, sofar: nat) -> (idx:
    Seq<int>)
    requires
        s.len() >= 12,
        taken <= 12,
        0 <= start <= s.len() - 12 + taken,
    ensures
        picks(idx, start, s.len() as int),
        idx.len() == 12 - taken,
        power_from(s, start, taken, sofar) == sofar * pow10((12 - taken) as nat) + number_at(
            s,
            idx,
        ),
    decreases 12 - taken,
{
    if taken == 12 {
        assert(pow10(0) == 1);
        assert(sofar * 1 == sofar) by (nonlinear_arith);
        Seq::empty()
    } else {
        let end = s.len() - 12 + taken;
        let window = s.subrange(start, end + 1);
        let found = scan_max(window);
        lemma_scan_max(window);
        let at = start + found.0;
        let m = found.1 as nat;
        assert(window[found.0] == s[at]);
        assert(s[at] == found.1) by {
            if found.1 == 0 {
                assert(window[0] <= found.1);
            }
        }
        let rest = lemma_power_from_written(s, at + 1, taken + 1, sofar * 10 + m);
        let idx = seq![at] + rest;
        assert(idx.drop_first() == rest);
        assert(idx[0] == at);
        lemma_number_first(s, idx);
        let p = pow10((11 - taken) as nat);
        let r = number_at(s, rest);
        assert(pow10((12 - taken) as nat) == 10 * p);
        assert(sofar * (10 * p) + (m * p + r) == (sofar * 10 + m) * p + r) by (nonlinear_arith);
        assert(picks(idx, start, s.len() as int)) by {
            assert forall|i: int| 0 <= i < idx.len() implies start <= #[trigger] idx[i]
                < s.len() by {
                if i > 0 {
                    assert(idx[i] == rest[i - 1]);
                }
            }
            assert forall|i: int, j: int| 0 <= i < j < idx.len() implies idx[i] < idx[j] by {
                assert(idx[j] == rest[j - 1]);
                if i > 0 {
                    assert(idx[i] == rest[i - 1]);
                }
            }
        }
        idx
    }
}

/// No twelve batteries of a bank, taken left to right, write a larger
/// number than the search finds, and some twelve write that number.
pub proof fn lemma_power_12_is_largest(s: Seq<Battery>)
    requires
        digits_only(s),
        s.len() >= 12,
    ensures
        forall|idx: Seq<int>|
            picks(idx, 0, s.len() as int) && idx.len() == 12 ==> #[trigger] number_at(s, idx)
                <= power_12(s),
        exists|idx: Seq<int>|
            picks(idx, 0, s.len() as int) && idx.len() == 12 && #[trigger] number_at(s, idx)
                == power_12(s),
{
    assert forall|idx: Seq<int>|
        picks(idx, 0, s.len() as int) && idx.len() == 12 implies #[trigger] number_at(s, idx)
            <= power_12(s) by {
        lemma_power_from_best(s, 0, 0, 0, idx);
        assert(0 * pow10(12) == 0) by (nonlinear_arith);
    }
    let idx = lemma_power_from_written(s, 0, 0, 0);
    assert(0 * pow10(12) == 0) by (nonlinear_arith);
    assert(picks(idx, 0, s.len() as int) && idx.len() == 12 && number_at(s, idx) == power_12(s));
}

/// Finds the first greatest battery of `iter` and where it stands.
pub fn max_battery_with_index(iter: &[Battery]) -> (found: (usize, Battery))
    ensures
        found.0 == scan_max(iter@).0,
        found.1 == scan_max(iter@).1,
{
    let mut max_i: usize = 0;
    let mut max: Battery = 0;
    let mut i: usize = 0;
    while i < iter.len()
        invariant
            i <= iter.len(),
            max_i == scan_max(iter@.take(i as int)).0,
            max == scan_max(iter@.take(i as int)).1,
        decreases iter.len() - i,
    {
        proof {
            assert(iter@.take(i + 1).drop_last() == iter@.take(i as int));
        }
        if iter[i] > max {
            max_i = i;
            max = iter[i];
        }
        i = i + 1;
    }
    proof {
        assert(iter@.take(iter.len() as int) == iter@);
    }
    (max_i, max)
}

impl Bank {
    /// The batteries of the bank.
    pub open spec fn batteries(&self) -> Seq<Battery> {
        self.0@
    }

    /// The bank's invariant: every battery is a digit.
    pub open spec fn wf(&self) -> bool {
        digits_only(self.0@)
    }

    /// The largest number that two batteries of the bank write.
    pub fn max_power_2(&self) -> (power: usize)
        requires
            self.wf(),
            self.batteries().len() >= 2,
        ensures
            power == power_2(self.batteries()),
    {
        let n: usize = self.0.len();
        let front = crate::text::copy_range(self.0.as_slice(), 0, n - 1);
        let (max_i, max) = max_battery_with_index(front.as_slice());
        proof {
            assert(front@ == self.0@.take(n - 1));
            lemma_scan_max(front@);
        }
        let back = crate::text::copy_range(self.0.as_slice(), max_i + 1, n);
        let (_, second) = max_battery_with_index(back.as_slice());
        proof {
            assert(back@ == self.0@.skip(max_i + 1));
        }
        max as usize * 10 + second as usize
    }

    /// The largest number that twelve batteries of the bank write.
    pub fn max_power_12(&self) -> (power: u64)
        requires
            self.wf(),
            self.batteries().len() >= 12,
        ensures
            power == power_12(self.batteries()),
    {
        let n: usize = self.0.len();
        let mut start: usize = 0;
        let mut res: u64 = 0;
        let mut i: usize = 0;
        proof {
            assert(pow10(12) == 1_000_000_000_000) by {
                reveal_with_fuel(pow10, 13);
            }
        }
        while i < 12
            invariant
                i <= 12,
                n == self.0@.len(),
                n >= 12,
                self.wf(),
                start <= n - 12 + i,
                res < pow10(i as nat),
                pow10(12) == 1_000_000_000_000,
                power_from(self.0@, start as int, i as nat, res as nat) == power_12(self.0@),
            decreases 12 - i,
        {
            let end: usize = n - 12 + i;
            let window = crate::text::copy_range(self.0.as_slice(), start, end + 1);
            let (max_i, max) = max_battery_with_index(window.as_slice());
            proof {
                lemma_scan_max(window@);
                if max > 0 {
                    assert(window@[max_i as int] == self.0@[start + max_i]);
                }
                assert(max <= 9);
                lemma_pow10_grows((i + 1) as nat, 12);
            }
            start += max_i + 1;
            res = res * 10 + max as u64;
            i = i + 1;
        }
        res
    }
}

/// The batteries that a line writes: its digits, anything else set aside.
pub open spec fn bank_of(line: Seq<u8>) -> Seq<Battery>
    decreases line.len(),
{
    if line.len() == 0 {
        Seq::empty()
    } else {
        let rest = bank_of(line.drop_last());
        if is_digit(line.last()) {
            rest.push((line.last() - 48) as u8)
        } else {
            rest
        }
    }
}

/// Every battery written by a line is a digit.
pub proof fn lemma_bank_of_digits(line: Seq<u8>)
    ensures
        digits_only(bank_of(line)),
    decreases line.len(),
{
    if line.len() > 0 {
        lemma_bank_of_digits(line.drop_last());
    }
}

/// Reads the bank that a line writes.
pub fn parse_bank(line: &[u8]) -> (bank: Bank)
    ensures
        bank.batteries() == bank_of(line@),
        bank.wf(),
{
    let mut batteries: Vec<Battery> = Vec::new();
    let mut i: usize = 0;
    while i < line.len()
        invariant
            i <= line.len(),
            batteries@ == bank_of(line@.take(i as int)),
        decreases line.len() - i,
    {
        proof {
            assert(line@.take(i + 1).drop_last() == line@.take(i as int));
        }
        let b: u8 = line[i];
        if 48 <= b && b <= 57 {
            batteries.push(b - 48);
        }
        i = i + 1;
    }
    proof {
        assert(line@.take(line.len() as int) == line@);
        lemma_bank_of_digits(line@);
    }
    Bank(batteries)
}

/// The banks of a list of rows are those that the rows write.
pub open spec fn banks_match(banks: Seq<Bank>, rows: Seq<Seq<u8>>) -> bool {
    &&& banks.len() == rows.len()
    &&& forall|i: int|
        0 <= i < banks.len() ==> (#[trigger] banks[i]).batteries() == bank_of(rows[i])
            && banks[i].wf()
}

/// Reads the banks of an input text, one a line.
pub fn parse_input(input: &[u8]) -> (banks: Vec<Bank>)
    ensures
        banks_match(banks@, lines_of(input@)),
{
    let rows = lines(input);
    let mut banks: Vec<Bank> = Vec::new();
    let mut i: usize = 0;
    while i < rows.len()
        invariant
            i <= rows.len(),
            views(rows@) == lines_of(input@),
            banks_match(banks@, views(rows@).take(i as int)),
        decreases rows.len() - i,
    {
        let bank = parse_bank(rows[i].as_slice());
        banks.push(bank);
        i = i + 1;
    }
    proof {
        assert(views(rows@).take(rows.len() as int) == views(rows@));
    }
    banks
}

/// The sum of the largest numbers from two batteries of each line's bank.
/// `None` where a bank has fewer than two batteries.
pub open spec fn total_power_2(rows: Seq<Seq<u8>>) -> Option<nat>
    decreases rows.len(),
{
    if rows.len() == 0 {
        Some(0)
    } else {
        match total_power_2(rows.drop_last()) {
            Some(sum) => if bank_of(rows.last()).len() >= 2 {
                Some(sum + power_2(bank_of(rows.last())))
            } else {
                None
            },
            None => None,
        }
    }
}

/// The sum of the largest numbers from twelve batteries of each line's
/// bank. `None` where a bank has fewer than twelve batteries.
pub open spec fn total_power_12(rows: Seq<Seq<u8>>) -> Option<nat>
    decreases rows.len(),
{
    if rows.len() == 0 {
        Some(0)
    } else {
        match total_power_12(rows.drop_last()) {
            Some(sum) => if bank_of(rows.last()).len() >= 12 {
                Some(sum + power_12(bank_of(rows.last())))
            } else {
                None
            },
            None => None,
        }
    }
}

/// A sum that is undefined or too large for some rows stays so when rows
/// follow.
pub proof fn lemma_total_power_2_prefix(rows: Seq<Seq<u8>>, k: int, limit: nat)
    requires
        0 <= k <= rows.len(),
    ensures
        total_power_2(rows.take(k)).is_none() ==> total_power_2(rows).is_none(),
        total_power_2(rows.take(k)) matches Some(sum) && sum > limit ==> (total_power_2(
            rows,
        ) matches Some(all) ==> all > limit),
    decreases rows.len(),
{
    if k < rows.len() {
        assert(rows.drop_last().take(k) == rows.take(k));
        lemma_total_power_2_prefix(rows.drop_last(), k, limit);
    } else {
        assert(rows.take(k) == rows);
    }
}

/// A sum that is undefined or too large for some rows stays so when rows
/// follow.
pub proof fn lemma_total_power_12_prefix(rows: Seq<Seq<u8>>, k: int, limit: nat)
    requires
        0 <= k <= rows.len(),
    ensures
        total_power_12(rows.take(k)).is_none() ==> total_power_12(rows).is_none(),
        total_power_12(rows.take(k)) matches Some(sum) && sum > limit ==> (total_power_12(
            rows,
        ) matches Some(all) ==> all > limit),
    decreases rows.len(),
{
    if k < rows.len() {
        assert(rows.drop_last().take(k) == rows.take(k));
        lemma_total_power_12_prefix(rows.drop_last(), k, limit);
    } else {
        assert(rows.take(k) == rows);
    }
}

pub struct Day;

impl Solution for Day {
    open spec fn part1_answers(&self, input: Seq<u8>, answer: Option<SolvedValue>) -> bool {
        answer == answer_of(total_power_2(lines_of(input)))
    }

    open spec fn part2_answers(&self, input: Seq<u8>, answer: Option<SolvedValue>) -> bool {
        answer == answer_of(total_power_12(lines_of(input)))
    }

    fn part1(&self, input: &str) -> (res: Option<SolvedValue>) {
        let banks = parse_input(input.as_bytes());
        let ghost rows = lines_of(input.spec_bytes());
        let mut sum: u64 = 0;
        let mut i: usize = 0;
        while i < banks.len()
            invariant
                i <= banks.len(),
                rows == lines_of(input.spec_bytes()),
                banks_match(banks@, rows),
                total_power_2(rows.take(i as int)) == Some(sum as nat),
            decreases banks.len() - i,
        {
            proof {
                assert(rows.take(i + 1).drop_last() == rows.take(i as int));
                assert(rows.take(i + 1).last() == rows[i as int]);
                lemma_total_power_2_prefix(rows, i + 1, u64::MAX as nat);
                assert(banks[i as int].batteries() == bank_of(rows[i as int]));
            }
            if banks[i].0.len() < 2 {
                return None;
            }
            match sum.checked_add(banks[i].max_power_2() as u64) {
                Some(total) => {
                    sum = total;
                },
                None => {
                    return None;
                },
            }
            i = i + 1;
        }
        proof {
            assert(rows.take(banks.len() as int) == rows);
        }
        solved(sum)
    }

    fn part2(&self, input: &str) -> (res: Option<SolvedValue>) {
        let banks = parse_input(input.as_bytes());
        let ghost rows = lines_of(input.spec_bytes());
        let mut sum: u64 = 0;
        let mut i: usize = 0;
        while i < banks.len()
            invariant
                i <= banks.len(),
                rows == lines_of(input.spec_bytes()),
                banks_match(banks@, rows),
                total_power_12(rows.take(i as int)) == Some(sum as nat),
            decreases banks.len() - i,
        {
            proof {
                assert(rows.take(i + 1).drop_last() == rows.take(i as int));
                assert(rows.take(i + 1).last() == rows[i as int]);
                lemma_total_power_12_prefix(rows, i + 1, u64::MAX as nat);
                assert(banks[i as int].batteries() == bank_of(rows[i as int]));
            }
            if banks[i].0.len() < 12 {
                return None;
            }
            match sum.checked_add(banks[i].max_power_12()) {
                Some(total) => {
                    sum = total;
                },
                None => {
                    return None;
                },
            }
            i = i + 1;
        }
        proof {
            assert(rows.take(banks.len() as int) == rows);
        }
        solved(sum)
    }
}

} // verus!
