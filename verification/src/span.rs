//! Ranges of numbers and sums over lists of numbers.

use vstd::prelude::*;

verus! {

/// A range of numbers, both ends included. A range that ends before it
/// starts holds nothing.
#[derive(Debug, PartialEq, Eq, Clone, Copy, Structural)]
pub struct Span {
    pub start: u64,
    pub end: u64,
}

/// The range holds the number `x`.
pub open spec fn holds(r: Span, x: int) -> bool {
    r.start <= x <= r.end
}

impl Span {
    /// Whether the range holds `x`.
    pub fn contains(&self, x: u64) -> (r: bool)
        ensures
            r == holds(*self, x as int),
    {
        self.start <= x && x <= self.end
    }
}

/// The sum of the numbers of a list.
pub open spec fn sum_of(s: Seq<u64>) -> nat
    decreases s.len(),
{
    if s.len() == 0 {
        0
    } else {
        sum_of(s.drop_last()) + s.last() as nat
    }
}

/// The sum of a list is no less than that of any of its prefixes.
pub proof fn lemma_sum_prefix(s: Seq<u64>, k: int)
    requires
        0 <= k <= s.len(),
    ensures
        sum_of(s.take(k)) <= sum_of(s),
    decreases s.len(),
{
    if k < s.len() {
        assert(s.drop_last().take(k) == s.take(k));
        lemma_sum_prefix(s.drop_last(), k);
    } else {
        assert(s.take(k) == s);
    }
}

/// Adds up a list of numbers. `None` where the sum does not fit 64 bits.
pub fn checked_sum(numbers: &[u64]) -> (r: Option<u64>)
    ensures
        r == if sum_of(numbers@) <= u64::MAX {
            Some(sum_of(numbers@) as u64)
        } else {
            None
        },
{
    let mut sum: u64 = 0;
    let mut i: usize = 0;
    while i < numbers.len()
        invariant
            i <= numbers.len(),
            sum == sum_of(numbers@.take(i as int)),
        decreases numbers.len() - i,
    {
        proof {
            assert(numbers@.take(i + 1).drop_last() == numbers@.take(i as int));
            lemma_sum_prefix(numbers@, i + 1);
        }
        match sum.checked_add(numbers[i]) {
            Some(next) => {
                sum = next;
            },
            None => {
                return None;
            },
        }
        i = i + 1;
    }
    proof {
        assert(numbers@.take(numbers.len() as int) == numbers@);
    }
    Some(sum)
}

} // verus!
