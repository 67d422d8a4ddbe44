//! Day 5: a list of ranges of fresh ingredient numbers, and a list of
//! ingredients on hand.
//!
//! Part one counts the ingredients on hand that are fresh; part two counts
//! all the numbers that the ranges declare fresh.

use vstd::prelude::*;
use vstd::set_lib::{lemma_int_range, lemma_len_subset, lemma_set_disjoint_lens, set_int_range};
use vstd::string::StringSliceAdditionalSpecFns;
use crate::solution::{answer_of, solved, Solution, SolvedValue};
use crate::span::{holds, Span};
use crate::text::{
    halves, lines, lines_of, padded_number_of, parse_padded_u64, sections, split_once,
    split_sections, views,
};

verus! {

/// The two ranges have a number in common, or one of them ends before it
/// starts and lies astride the other.
pub open spec fn overlap(a: Span, b: Span) -> bool {
    !(a.end < b.start || b.end < a.start)
}

/// Some range of the list holds `x`.
pub open spec fn covers(ranges: Seq<Span>, x: int) -> bool {
    exists|i: int| 0 <= i < ranges.len() && holds(#[trigger] ranges[i], x)
}

/// No range of the list ends before it starts.
pub open spec fn proper(ranges: Seq<Span>) -> bool {
    forall|i: int| 0 <= i < ranges.len() ==> (#[trigger] ranges[i]).start <= ranges[i].end
}

/// No two ranges of the list overlap.
pub open spec fn apart(ranges: Seq<Span>) -> bool {
    forall|i: int, j: int|
        0 <= i < j < ranges.len() ==> !overlap(#[trigger] ranges[i], #[trigger] ranges[j])
}

/// The two lists hold the same numbers.
pub open spec fn same_cover(a: Seq<Span>, b: Seq<Span>) -> bool {
    forall|x: int| #[trigger] covers(a, x) <==> covers(b, x)
}

/// The numbers that the ranges hold.
pub open spec fn covered_set(ranges: Seq<Span>) -> Set<int> {
    Set::new(|x: int| covers(ranges, x))
}

/// The range from the lesser start to the greater end.
pub open spec fn hull(a: Span, b: Span) -> Span {
    Span {
        start: if a.start <= b.start {
            a.start
        } else {
            b.start
        },
        end: if a.end >= b.end {
            a.end
        } else {
            b.end
        },
    }
}

/// The sum of the sizes of the ranges.
pub open spec fn total_len(ranges: Seq<Span>) -> nat
    decreases ranges.len(),
{
    if ranges.len() == 0 {
        0
    } else {
        total_len(ranges.drop_last()) + (ranges.last().end - ranges.last().start + 1) as nat
    }
}

/// What two lists, one after the other, hold.
pub proof fn lemma_covers_concat(a: Seq<Span>, b: Seq<Span>, x: int)
    ensures
        covers(a + b, x) <==> covers(a, x) || covers(b, x),
{
    if covers(a + b, x) {
        let i = choose|i: int| 0 <= i < (a + b).len() && holds(#[trigger] (a + b)[i], x);
        if i < a.len() {
            assert(holds(a[i], x));
        } else {
            assert(holds(b[i - a.len()], x));
        }
    }
    if covers(a, x) {
        let i = choose|i: int| 0 <= i < a.len() && holds(#[trigger] a[i], x);
        assert(holds((a + b)[i], x));
    }
    if covers(b, x) {
        let i = choose|i: int| 0 <= i < b.len() && holds(#[trigger] b[i], x);
        assert(holds((a + b)[a.len() + i], x));
    }
}

/// What a list holds once a range in it has been widened.
pub proof fn lemma_covers_widen(s: Seq<Span>, j: int, wide: Span, x: int)
    requires
        0 <= j < s.len(),
        holds(s[j], x) ==> holds(wide, x),
    ensures
        covers(s.update(j, wide), x) <==> covers(s, x) || holds(wide, x),
{
    let t = s.update(j, wide);
    if covers(t, x) {
        let i = choose|i: int| 0 <= i < t.len() && holds(#[trigger] t[i], x);
        if i != j {
            assert(holds(s[i], x));
        }
    }
    if covers(s, x) {
        let i = choose|i: int| 0 <= i < s.len() && holds(#[trigger] s[i], x);
        if i != j {
            assert(holds(t[i], x));
        } else {
            assert(holds(t[j], x));
        }
    }
    if holds(wide, x) {
        assert(holds(t[j], x));
    }
}

/// Ranges that lie apart hold as many numbers as their sizes add up to.
pub proof fn lemma_cover_size(ranges: Seq<Span>)
    requires
        proper(ranges),
        apart(ranges),
    ensures
        covered_set(ranges).finite(),
        covered_set(ranges).len() == total_len(ranges),
        covered_set(ranges).len() <= 0x1_0000_0000_0000_0000,
    decreases ranges.len(),
{
    let whole = set_int_range(0, 0x1_0000_0000_0000_0000);
    lemma_int_range(0, 0x1_0000_0000_0000_0000);
    if ranges.len() == 0 {
        assert(covered_set(ranges) =~= Set::<int>::empty());
    } else {
        let rest = ranges.drop_last();
        let last = ranges.last();
        assert(proper(rest)) by {
            assert forall|i: int| 0 <= i < rest.len() implies (#[trigger] rest[i]).start
                <= rest[i].end by {
                assert(rest[i] == ranges[i]);
            }
        }
        assert(apart(rest)) by {
            assert forall|i: int, j: int| 0 <= i < j < rest.len() implies !overlap(
                #[trigger] rest[i],
                #[trigger] rest[j],
            ) by {
                assert(rest[i] == ranges[i] && rest[j] == ranges[j]);
            }
        }
        lemma_cover_size(rest);
        let span = set_int_range(last.start as int, last.end + 1);
        assert(last == ranges[ranges.len() - 1]);
        lemma_int_range(last.start as int, last.end + 1);
        assert(covered_set(ranges) =~= covered_set(rest) + span) by {
            assert forall|x: int| covered_set(ranges).contains(x) <==> (covered_set(rest)
                + span).contains(x) by {
                assert(ranges == rest + seq![last]);
                lemma_covers_concat(rest, seq![last], x);
                if covers(seq![last], x) {
                    let i = choose|i: int|
                        0 <= i < seq![last].len() && holds(#[trigger] seq![last][i], x);
                    assert(holds(last, x));
                }
                if holds(last, x) {
                    assert(holds(seq![last][0], x));
                }
            }
        }
        assert(covered_set(rest).disjoint(span)) by {
            assert forall|x: int| !(covered_set(rest).contains(x) && span.contains(x)) by {
                if covers(rest, x) && span.contains(x) {
                    let i = choose|i: int| 0 <= i < rest.len() && holds(#[trigger] rest[i], x);
                    assert(rest[i] == ranges[i]);
                    assert(overlap(ranges[i], ranges[ranges.len() - 1]));
                }
            }
        }
        lemma_set_disjoint_lens(covered_set(rest), span);
    }
    assert(covered_set(ranges).subset_of(whole)) by {
        assert forall|x: int| covered_set(ranges).contains(x) implies whole.contains(x) by {
            let i = choose|i: int| 0 <= i < ranges.len() && holds(#[trigger] ranges[i], x);
        }
    }
    lemma_len_subset(covered_set(ranges), whole);
}

/// The position of the first of the first `k_end` ranges of `kept` that
/// overlaps `range`. `None` where none does.
pub open spec fn first_overlap(kept: Seq<Span>, range: Span, k_end: nat) -> Option<int>
    decreases k_end,
{
    if k_end == 0 {
        None
    } else {
        match first_overlap(kept, range, (k_end - 1) as nat) {
            Some(i) => Some(i),
            None => if overlap(kept[k_end - 1], range) {
                Some(k_end - 1)
            } else {
                None
            },
        }
    }
}

/// The ranges `kept` with `range` taken in: widened is the first range
/// that overlaps it, or it comes last where none does.
pub open spec fn placed(kept: Seq<Span>, range: Span) -> Seq<Span> {
    match first_overlap(kept, range, kept.len()) {
        Some(i) => kept.update(i, hull(kept[i], range)),
        None => kept.push(range),
    }
}

/// One pass over the first `k` ranges: each is taken in, in turn.
pub open spec fn one_pass(ranges: Seq<Span>, k: nat) -> Seq<Span>
    decreases k,
{
    if k == 0 {
        Seq::empty()
    } else {
        placed(one_pass(ranges, (k - 1) as nat), ranges[k - 1])
    }
}

/// The ranges after pass upon pass, until a pass joins nothing.
pub open spec fn settled(ranges: Seq<Span>) -> Seq<Span>
    decreases ranges.len(),
{
    let next = one_pass(ranges, ranges.len());
    if next.len() < ranges.len() {
        settled(next)
    } else {
        next
    }
}

/// The first overlap is where the first range stands that overlaps.
pub proof fn lemma_first_overlap(kept: Seq<Span>, range: Span, k_end: nat, at: int)
    requires
        0 <= at < k_end,
        overlap(kept[at], range),
        forall|m: int| 0 <= m < at ==> !overlap(#[trigger] kept[m], range),
    ensures
        first_overlap(kept, range, k_end) == Some(at),
    decreases k_end,
{
    lemma_no_overlap(kept, range, at as nat);
    if at < k_end - 1 {
        lemma_first_overlap(kept, range, (k_end - 1) as nat, at);
    }
}

/// Where none of the first ranges overlaps, there is no first overlap.
pub proof fn lemma_no_overlap(kept: Seq<Span>, range: Span, k_end: nat)
    requires
        forall|m: int| 0 <= m < k_end ==> !overlap(#[trigger] kept[m], range),
    ensures
        first_overlap(kept, range, k_end).is_none(),
    decreases k_end,
{
    if k_end > 0 {
        lemma_no_overlap(kept, range, (k_end - 1) as nat);
    }
}

/// Whether two ranges overlap.
pub fn do_ranges_overlap(range1: &Span, range2: &Span) -> (r: bool)
    ensures
        r == overlap(*range1, *range2),
{
    !(range1.end < range2.start || range2.end < range1.start)
}

/// Merges overlapping ranges, pass upon pass, until none overlap any more.
/// The result holds the numbers that the given ranges hold.
pub fn merge_overlapping_ranges(ranges: &[Span]) -> (merged: Vec<Span>)
    requires
        proper(ranges@),
    ensures
        merged@ == settled(ranges@),
        proper(merged@),
        apart(merged@),
        same_cover(merged@, ranges@),
        merged@.len() <= ranges@.len(),
{
    let mut merged_ranges: Vec<Span> = Vec::new();
    let mut c: usize = 0;
    while c < ranges.len()
        invariant
            c <= ranges.len(),
            merged_ranges@ == ranges@.take(c as int),
        decreases ranges.len() - c,
    {
        merged_ranges.push(ranges[c]);
        proof {
            assert(ranges@.take(c + 1) == ranges@.take(c as int).push(ranges@[c as int]));
        }
        c = c + 1;
    }
    proof {
        assert(ranges@.take(ranges.len() as int) == ranges@);
    }
    let mut did_merge: bool = true;
    while did_merge
        invariant
            proper(merged_ranges@),
            same_cover(merged_ranges@, ranges@),
            merged_ranges@.len() <= ranges@.len(),
            !did_merge ==> apart(merged_ranges@),
            settled(merged_ranges@) == settled(ranges@),
            !did_merge ==> merged_ranges@ == settled(ranges@),
        decreases
                merged_ranges.len(),
                if did_merge {
                    1int
                } else {
                    0int
                },
    {
        did_merge = false;
        let mut new_merged_ranges: Vec<Span> = Vec::new();
        let mut k: usize = 0;
        proof {
            assert(new_merged_ranges@ + merged_ranges@.skip(0) == merged_ranges@);
        }
        while k < merged_ranges.len()
            invariant
                k <= merged_ranges.len(),
                proper(merged_ranges@),
                proper(new_merged_ranges@),
                new_merged_ranges@ == one_pass(merged_ranges@, k as nat),
                same_cover(new_merged_ranges@ + merged_ranges@.skip(k as int), merged_ranges@),
                new_merged_ranges.len() <= k,
                did_merge ==> new_merged_ranges.len() < k,
                !did_merge ==> new_merged_ranges@ == merged_ranges@.take(k as int) && apart(
                    new_merged_ranges@,
                ),
            decreases merged_ranges.len() - k,
        {
            let range: Span = merged_ranges[k];
            let ghost kept = new_merged_ranges@;
            let ghost rest = merged_ranges@.skip(k as int);
            let ghost after = merged_ranges@.skip(k + 1);
            proof {
                assert(rest == seq![range] + after);
            }
            let ghost merged_before = did_merge;
            let mut has_merged: bool = false;
            let mut j: usize = 0;
            while j < new_merged_ranges.len() && !has_merged
                invariant
                    j <= new_merged_ranges.len(),
                    did_merge == (merged_before || has_merged),
                    kept.len() == new_merged_ranges.len(),
                    !has_merged ==> new_merged_ranges@ == kept,
                    !has_merged ==> forall|m: int| 0 <= m < j ==> !overlap(#[trigger] kept[m], range),
                    has_merged ==> 0 < j <= kept.len() && overlap(kept[j - 1], range)
                        && new_merged_ranges@ == kept.update(j - 1, hull(kept[j - 1], range)),
                    has_merged ==> forall|m: int|
                        0 <= m < j - 1 ==> !overlap(#[trigger] kept[m], range),
                decreases new_merged_ranges.len() - j, if has_merged { 0int } else { 1int },
            {
                if do_ranges_overlap(&new_merged_ranges[j], &range) {
                    let other: Span = new_merged_ranges[j];
                    let new_start: u64 = if other.start <= range.start {
                        other.start
                    } else {
                        range.start
                    };
                    let new_end: u64 = if other.end >= range.end {
                        other.end
                    } else {
                        range.end
                    };
                    new_merged_ranges.set(j, Span { start: new_start, end: new_end });
                    has_merged = true;
                    did_merge = true;
                }
                j = j + 1;
            }
            proof {
                if has_merged {
                    lemma_first_overlap(kept, range, kept.len(), j - 1);
                } else {
                    lemma_no_overlap(kept, range, kept.len());
                }
            }
            if !has_merged {
                new_merged_ranges.push(range);
                proof {
                    assert(merged_ranges@.take(k + 1) == merged_ranges@.take(k as int).push(range));
                    if !did_merge {
                        assert forall|a: int, b: int|
                            0 <= a < b < new_merged_ranges@.len() implies !overlap(
                            #[trigger] new_merged_ranges@[a],
                            #[trigger] new_merged_ranges@[b],
                        ) by {
                            assert(new_merged_ranges@[a] == kept[a]);
                            if b < kept.len() {
                                assert(new_merged_ranges@[b] == kept[b]);
                            }
                        }
                    }
                    assert forall|x: int| #[trigger]
                        covers(new_merged_ranges@ + after, x) <==> covers(merged_ranges@, x) by {
                        assert(new_merged_ranges@ + after == kept + rest);
                    }
                }
            } else {
                proof {
                    let wide = hull(kept[j - 1], range);
                    assert(merged_ranges@[k as int] == range);
                    assert(kept[j - 1].start <= kept[j - 1].end);
                    assert forall|x: int| #[trigger]
                        covers(new_merged_ranges@ + after, x) <==> covers(merged_ranges@, x) by {
                        lemma_covers_concat(new_merged_ranges@, after, x);
                        lemma_covers_widen(kept, j - 1, wide, x);
                        lemma_covers_concat(kept, rest, x);
                        lemma_covers_concat(seq![range], after, x);
                        assert(covers(kept + rest, x) <==> covers(merged_ranges@, x));
                        if holds(range, x) {
                            assert(holds(seq![range][0], x));
                        }
                        if covers(seq![range], x) {
                            let i = choose|i: int|
                                0 <= i < seq![range].len() && holds(#[trigger] seq![range][i], x);
                        }
                    }
                }
            }
            k = k + 1;
        }
        proof {
            assert(merged_ranges@.skip(merged_ranges.len() as int) == Seq::<Span>::empty());
            assert(new_merged_ranges@ + Seq::<Span>::empty() == new_merged_ranges@);
            assert(merged_ranges@.take(merged_ranges.len() as int) == merged_ranges@);
            if !did_merge {
                assert(one_pass(new_merged_ranges@, new_merged_ranges@.len()).len()
                    == new_merged_ranges@.len());
            }
        }
        merged_ranges = new_merged_ranges;
    }
    merged_ranges
}

/// The fresh ranges and the ingredients on hand.
pub struct Database {
    pub fresh: Vec<Span>,
    pub items: Vec<u64>,
}

/// The number of `items` that some range of `fresh` holds.
pub open spec fn fresh_items(fresh: Seq<Span>, items: Seq<u64>) -> nat
    decreases items.len(),
{
    if items.len() == 0 {
        0
    } else {
        fresh_items(fresh, items.drop_last()) + if covers(fresh, items.last() as int) {
            1nat
        } else {
            0nat
        }
    }
}

impl Database {
    /// The database's invariant: no range ends before it starts.
    pub open spec fn wf(&self) -> bool {
        proper(self.fresh@)
    }

    /// Whether some fresh range holds `item`.
    pub fn is_fresh(&self, item: u64) -> (r: bool)
        ensures
            r == covers(self.fresh@, item as int),
    {
        let mut i: usize = 0;
        while i < self.fresh.len()
            invariant
                i <= self.fresh.len(),
                forall|m: int| 0 <= m < i ==> !holds(#[trigger] self.fresh@[m], item as int),
            decreases self.fresh.len() - i,
        {
            if self.fresh[i].start <= item && item <= self.fresh[i].end {
                return true;
            }
            i = i + 1;
        }
        false
    }

    /// The number of ingredients on hand that are fresh.
    pub fn count_fresh_items(&self) -> (count: usize)
        ensures
            count == fresh_items(self.fresh@, self.items@),
    {
        let mut count: usize = 0;
        let mut i: usize = 0;
        while i < self.items.len()
            invariant
                i <= self.items.len(),
                count <= i,
                count == fresh_items(self.fresh@, self.items@.take(i as int)),
            decreases self.items.len() - i,
        {
            proof {
                assert(self.items@.take(i + 1).drop_last() == self.items@.take(i as int));
            }
            if self.is_fresh(self.items[i]) {
                count = count + 1;
            }
            i = i + 1;
        }
        proof {
            assert(self.items@.take(self.items.len() as int) == self.items@);
        }
        count
    }

    /// The number of numbers that the fresh ranges hold.
    pub fn possible_items_in_fresh_ranges_count(&self) -> (count: u128)
        requires
            self.wf(),
        ensures
            count == covered_set(self.fresh@).len(),
            covered_set(self.fresh@).finite(),
    {
        let merged = merge_overlapping_ranges(self.fresh.as_slice());
        proof {
            assert(covered_set(merged@) =~= covered_set(self.fresh@));
            lemma_cover_size(merged@);
        }
        let mut count: u128 = 0;
        let mut i: usize = 0;
        while i < merged.len()
            invariant
                i <= merged.len(),
                proper(merged@),
                apart(merged@),
                count == total_len(merged@.take(i as int)),
                count <= 0x1_0000_0000_0000_0000,
            decreases merged.len() - i,
        {
            let r: Span = merged[i];
            proof {
                let upto = merged@.take(i + 1);
                assert(upto.drop_last() == merged@.take(i as int));
                assert(upto.last() == r);
                assert(proper(upto)) by {
                    assert forall|m: int| 0 <= m < upto.len() implies (#[trigger] upto[m]).start
                        <= upto[m].end by {
                        assert(upto[m] == merged@[m]);
                    }
                }
                assert(apart(upto)) by {
                    assert forall|a: int, b: int| 0 <= a < b < upto.len() implies !overlap(
                        #[trigger] upto[a],
                        #[trigger] upto[b],
                    ) by {
                        assert(upto[a] == merged@[a] && upto[b] == merged@[b]);
                    }
                }
                lemma_cover_size(upto);
            }
            count = count + ((r.end - r.start) as u128 + 1);
            i = i + 1;
        }
        proof {
            assert(merged@.take(merged.len() as int) == merged@);
        }
        count
    }
}

/// The range written by a line `start-end`. `None` for any other line, and
/// for a range that ends before it starts.
pub open spec fn span_of(line: Seq<u8>) -> Option<Span> {
    match halves(line, 45) {
        Some(parts) => match (padded_number_of(parts.0), padded_number_of(parts.1)) {
            (Some(start), Some(end)) => if start <= end {
                Some(Span { start, end })
            } else {
                None
            },
            _ => None,
        },
        None => None,
    }
}

/// The ranges written by the lines that write one.
pub open spec fn spans_of(lines: Seq<Seq<u8>>) -> Seq<Span>
    decreases lines.len(),
{
    if lines.len() == 0 {
        Seq::empty()
    } else {
        match span_of(lines.last()) {
            Some(span) => spans_of(lines.drop_last()).push(span),
            None => spans_of(lines.drop_last()),
        }
    }
}

/// The numbers written by the lines that write one.
pub open spec fn numbers_of(lines: Seq<Seq<u8>>) -> Seq<u64>
    decreases lines.len(),
{
    if lines.len() == 0 {
        Seq::empty()
    } else {
        match padded_number_of(lines.last()) {
            Some(number) => numbers_of(lines.drop_last()).push(number),
            None => numbers_of(lines.drop_last()),
        }
    }
}

/// The ranges and ingredients of an input text: the ranges before its first
/// empty line, the ingredients after it. `None` where it has no empty line.
pub open spec fn database_of(input: Seq<u8>) -> Option<(Seq<Span>, Seq<u64>)> {
    match sections(input) {
        Some(parts) => Some((spans_of(lines_of(parts.0)), numbers_of(lines_of(parts.1)))),
        None => None,
    }
}

/// The ranges that lines write are proper.
pub proof fn lemma_spans_proper(lines: Seq<Seq<u8>>)
    ensures
        proper(spans_of(lines)),
    decreases lines.len(),
{
    if lines.len() > 0 {
        lemma_spans_proper(lines.drop_last());
    }
}

/// Reads the range that a line writes.
pub fn parse_span(line: &[u8]) -> (r: Option<Span>)
    ensures
        r == span_of(line@),
{
    match split_once(line, 45) {
        Some((left, right)) => {
            match (parse_padded_u64(left.as_slice()), parse_padded_u64(right.as_slice())) {
                (Some(start), Some(end)) => if start <= end {
                    Some(Span { start, end })
                } else {
                    None
                },
                _ => None,
            }
        },
        None => None,
    }
}

/// Reads the database of an input text.
pub fn parse_database(input: &[u8]) -> (r: Option<Database>)
    ensures
        match r {
            Some(database) => database_of(input@) == Some((database.fresh@, database.items@))
                && database.wf(),
            None => database_of(input@).is_none(),
        },
{
    let (ranges, items) = match split_sections(input) {
        Some(parts) => parts,
        None => {
            return None;
        },
    };
    let range_rows = lines(ranges.as_slice());
    let mut fresh: Vec<Span> = Vec::new();
    let mut i: usize = 0;
    while i < range_rows.len()
        invariant
            i <= range_rows.len(),
            fresh@ == spans_of(views(range_rows@).take(i as int)),
        decreases range_rows.len() - i,
    {
        proof {
            let upto = views(range_rows@).take(i + 1);
            assert(upto.drop_last() == views(range_rows@).take(i as int));
            assert(upto.last() == range_rows[i as int]@);
        }
        match parse_span(range_rows[i].as_slice()) {
            Some(span) => {
                fresh.push(span);
            },
            None => {},
        }
        i = i + 1;
    }
    let item_rows = lines(items.as_slice());
    let mut numbers: Vec<u64> = Vec::new();
    let mut k: usize = 0;
    while k < item_rows.len()
        invariant
            k <= item_rows.len(),
            numbers@ == numbers_of(views(item_rows@).take(k as int)),
        decreases item_rows.len() - k,
    {
        proof {
            let upto = views(item_rows@).take(k + 1);
            assert(upto.drop_last() == views(item_rows@).take(k as int));
            assert(upto.last() == item_rows[k as int]@);
        }
        match parse_padded_u64(item_rows[k].as_slice()) {
            Some(number) => {
                numbers.push(number);
            },
            None => {},
        }
        k = k + 1;
    }
    proof {
        assert(views(range_rows@).take(range_rows.len() as int) == views(range_rows@));
        assert(views(item_rows@).take(item_rows.len() as int) == views(item_rows@));
        lemma_spans_proper(views(range_rows@));
    }
    Some(Database { fresh, items: numbers })
}

/// The answer to part one. `None` where the text has no empty line.
pub open spec fn fresh_on_hand_answer(input: Seq<u8>) -> Option<SolvedValue> {
    match database_of(input) {
        Some(database) => Some(
            SolvedValue::Usize(fresh_items(database.0, database.1) as usize),
        ),
        None => None,
    }
}

/// The answer to part two. `None` where the text has no empty line, or
/// the count does not fit the machine word.
pub open spec fn fresh_numbers_answer(input: Seq<u8>) -> Option<SolvedValue> {
    match database_of(input) {
        Some(database) => answer_of(Some(covered_set(database.0).len())),
        None => None,
    }
}

pub struct Day;

impl Solution for Day {
    open spec fn part1_answers(&self, input: Seq<u8>, answer: Option<SolvedValue>) -> bool {
        answer == fresh_on_hand_answer(input)
    }

    open spec fn part2_answers(&self, input: Seq<u8>, answer: Option<SolvedValue>) -> bool {
        answer == fresh_numbers_answer(input)
    }

    fn part1(&self, input: &str) -> (res: Option<SolvedValue>) {
        match parse_database(input.as_bytes()) {
            Some(database) => Some(SolvedValue::Usize(database.count_fresh_items())),
            None => None,
        }
    }

    fn part2(&self, input: &str) -> (res: Option<SolvedValue>) {
        match parse_database(input.as_bytes()) {
            Some(database) => {
                let count = database.possible_items_in_fresh_ranges_count();
                if count <= u64::MAX as u128 {
                    solved(count as u64)
                } else {
                    None
                }
            },
            None => None,
        }
    }
}

} // verus!
