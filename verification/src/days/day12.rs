//! Day 12: regions under trees and the presents to be put there.
//!
//! Each line of the last section states a region's width and height and,
//! for every shape of present, how many are to go in. Part one counts the
//! regions with room for nine units a present.

use vstd::prelude::*;
use vstd::string::StringSliceAdditionalSpecFns;
use crate::solution::{Solution, SolvedValue};
use crate::span::sum_of;
use crate::text::{
    copy_last_section, halves, halves_at_pair, last_section, lines, lines_of, number_of,
    parse_u64, split_once, split_once_pair, split_whitespace, views, words_of,
};

verus! {

/// A region and the presents for it.
#[derive(Debug, PartialEq, Eq)]
pub struct Region {
    pub width: u64,
    pub height: u64,
    pub counts: Vec<u64>,
}

/// The numbers written by the words. `None` where some word writes none.
pub open spec fn numbers_of(words: Seq<Seq<u8>>) -> Option<Seq<u64>>
    decreases words.len(),
{
    if words.len() == 0 {
        Some(Seq::empty())
    } else {
        match (numbers_of(words.drop_last()), number_of(words.last())) {
            (Some(rest), Some(n)) => Some(rest.push(n)),
            _ => None,
        }
    }
}

/// The size that stands for a line without one: `0x0`.
pub open spec fn no_size() -> Seq<u8> {
    seq![48u8, 120u8, 48u8]
}

/// The counts that stand for a line without any: `0 0 0 0 0 0`.
pub open spec fn no_counts() -> Seq<u8> {
    seq![48u8, 32u8, 48u8, 32u8, 48u8, 32u8, 48u8, 32u8, 48u8, 32u8, 48u8]
}

/// The size and the counts of a line, each as written: what stands before
/// and after the first `: `.
pub open spec fn fields_of(line: Seq<u8>) -> (Seq<u8>, Seq<u8>) {
    match halves_at_pair(line, 58, 32) {
        Some(parts) => parts,
        None => (no_size(), no_counts()),
    }
}

/// The region that a line `WxH: n n n ...` writes, as width, height and
/// counts. `None` where the size or a count is malformed.
pub open spec fn region_of(line: Seq<u8>) -> Option<(u64, u64, Seq<u64>)> {
    let fields = fields_of(line);
    match halves(fields.0, 120) {
        Some(size) => match (
            number_of(size.0),
            number_of(size.1),
            numbers_of(words_of(fields.1)),
        ) {
            (Some(width), Some(height), Some(counts)) => Some((width, height, counts)),
            _ => None,
        },
        None => None,
    }
}

/// The region has nine units of room for every present.
pub open spec fn roomy(width: u64, height: u64, counts: Seq<u64>) -> bool {
    width * height >= sum_of(counts) * 9
}

/// The number of lines whose region is roomy. `None` where some line is
/// malformed.
pub open spec fn roomy_regions(lines: Seq<Seq<u8>>) -> Option<nat>
    decreases lines.len(),
{
    if lines.len() == 0 {
        Some(0)
    } else {
        match (roomy_regions(lines.drop_last()), region_of(lines.last())) {
            (Some(n), Some(region)) => Some(
                n + if roomy(region.0, region.1, region.2) {
                    1nat
                } else {
                    0nat
                },
            ),
            _ => None,
        }
    }
}

/// Reads the numbers that the words of `bytes` write.
pub fn parse_counts(bytes: &[u8]) -> (r: Option<Vec<u64>>)
    ensures
        match r {
            Some(counts) => numbers_of(words_of(bytes@)) == Some(counts@),
            None => numbers_of(words_of(bytes@)).is_none(),
        },
{
    let words = split_whitespace(bytes);
    let mut counts: Vec<u64> = Vec::new();
    let mut i: usize = 0;
    while i < words.len()
        invariant
            i <= words.len(),
            views(words@) == words_of(bytes@),
            numbers_of(views(words@).take(i as int)) == Some(counts@),
        decreases words.len() - i,
    {
        proof {
            let upto = views(words@).take(i + 1);
            assert(upto.drop_last() == views(words@).take(i as int));
            assert(upto.last() == words[i as int]@);
        }
        match parse_u64(words[i].as_slice()) {
            Some(n) => {
                counts.push(n);
            },
            None => {
                proof {
                    lemma_numbers_prefix(views(words@), i + 1);
                }
                return None;
            },
        }
        i = i + 1;
    }
    proof {
        assert(views(words@).take(words.len() as int) == views(words@));
    }
    Some(counts)
}

/// Where the words up to some place write no numbers, all of them write
/// none.
pub proof fn lemma_numbers_prefix(words: Seq<Seq<u8>>, k: int)
    requires
        0 <= k <= words.len(),
        numbers_of(words.take(k)).is_none(),
    ensures
        numbers_of(words).is_none(),
    decreases words.len(),
{
    if k < words.len() {
        assert(words.drop_last().take(k) == words.take(k));
        lemma_numbers_prefix(words.drop_last(), k);
    } else {
        assert(words.take(k) == words);
    }
}

/// Reads the region that a line writes.
pub fn parse_region(line: &[u8]) -> (r: Option<Region>)
    ensures
        match r {
            Some(region) => region_of(line@) == Some(
                (region.width, region.height, region.counts@),
            ),
            None => region_of(line@).is_none(),
        },
{
    let (size, counts) = match split_once_pair(line, 58, 32) {
        Some(parts) => parts,
        None => {
            let size: Vec<u8> = vec![48u8, 120u8, 48u8];
            let counts: Vec<u8> = vec![
                48u8,
                32u8,
                48u8,
                32u8,
                48u8,
                32u8,
                48u8,
                32u8,
                48u8,
                32u8,
                48u8,
            ];
            proof {
                assert(size@ =~= no_size());
                assert(counts@ =~= no_counts());
            }
            (size, counts)
        },
    };
    let (width, height) = match split_once(size.as_slice(), 120) {
        Some(parts) => parts,
        None => {
            return None;
        },
    };
    match (parse_u64(width.as_slice()), parse_u64(height.as_slice()), parse_counts(
        counts.as_slice(),
    )) {
        (Some(width), Some(height), Some(counts)) => Some(Region { width, height, counts }),
        _ => None,
    }
}

/// The sum of a list of numbers is at most as many times the greatest
/// 64-bit number as the list is long.
pub proof fn lemma_sum_bound(s: Seq<u64>)
    ensures
        sum_of(s) <= s.len() * u64::MAX,
    decreases s.len(),
{
    if s.len() > 0 {
        lemma_sum_bound(s.drop_last());
        assert((s.len() - 1) * u64::MAX + u64::MAX == s.len() * u64::MAX) by (nonlinear_arith);
    }
}

impl Region {
    /// Whether the region has nine units of room for every present.
    pub fn is_roomy(&self) -> (r: bool)
        ensures
            r == roomy(self.width, self.height, self.counts@),
    {
        let mut sum: u128 = 0;
        let mut i: usize = 0;
        while i < self.counts.len()
            invariant
                i <= self.counts.len(),
                sum == sum_of(self.counts@.take(i as int)),
            decreases self.counts.len() - i,
        {
            proof {
                let upto = self.counts@.take(i + 1);
                assert(upto.drop_last() == self.counts@.take(i as int));
                lemma_sum_bound(upto);
                assert(upto.len() * u64::MAX <= 0xffff_ffff_ffff_ffff * 0xffff_ffff_ffff_ffff)
                    by (nonlinear_arith)
                    requires
                        upto.len() <= 0xffff_ffff_ffff_ffff,
                        u64::MAX == 0xffff_ffff_ffff_ffff,
                ;
            }
            sum = sum + self.counts[i] as u128;
            i = i + 1;
        }
        proof {
            assert(self.counts@.take(self.counts.len() as int) == self.counts@);
            assert(self.width * self.height <= 0xffff_ffff_ffff_ffff * 0xffff_ffff_ffff_ffff)
                by (nonlinear_arith)
                requires
                    self.width <= 0xffff_ffff_ffff_ffff,
                    self.height <= 0xffff_ffff_ffff_ffff,
            ;
        }
        let area: u128 = self.width as u128 * self.height as u128;
        area / 9 >= sum
    }
}

/// The regions of a list as values.
pub open spec fn regions_of(regions: Seq<Region>) -> Seq<(u64, u64, Seq<u64>)> {
    Seq::new(regions.len(), |i: int| (regions[i].width, regions[i].height, regions[i].counts@))
}

/// The regions that the lines write. `None` where some line is malformed.
pub open spec fn regions_written(lines: Seq<Seq<u8>>) -> Option<Seq<(u64, u64, Seq<u64>)>>
    decreases lines.len(),
{
    if lines.len() == 0 {
        Some(Seq::empty())
    } else {
        match (regions_written(lines.drop_last()), region_of(lines.last())) {
            (Some(rest), Some(region)) => Some(rest.push(region)),
            _ => None,
        }
    }
}

/// The number of the regions that are roomy.
pub open spec fn roomy_among(regions: Seq<(u64, u64, Seq<u64>)>) -> nat
    decreases regions.len(),
{
    if regions.len() == 0 {
        0
    } else {
        roomy_among(regions.drop_last()) + if roomy(
            regions.last().0,
            regions.last().1,
            regions.last().2,
        ) {
            1nat
        } else {
            0nat
        }
    }
}

/// Counting the roomy regions line by line is counting them among the
/// regions that the lines write.
pub proof fn lemma_roomy_regions(lines: Seq<Seq<u8>>)
    ensures
        roomy_regions(lines) == match regions_written(lines) {
            Some(regions) => Some(roomy_among(regions)),
            None => None,
        },
    decreases lines.len(),
{
    if lines.len() > 0 {
        lemma_roomy_regions(lines.drop_last());
        match (regions_written(lines.drop_last()), region_of(lines.last())) {
            (Some(rest), Some(region)) => {
                assert(rest.push(region).drop_last() == rest);
            },
            _ => {},
        }
    }
}

/// Where the lines up to some place write no regions, all of them write
/// none.
pub proof fn lemma_regions_prefix(lines: Seq<Seq<u8>>, k: int)
    requires
        0 <= k <= lines.len(),
        regions_written(lines.take(k)).is_none(),
    ensures
        regions_written(lines).is_none(),
    decreases lines.len(),
{
    if k < lines.len() {
        assert(lines.drop_last().take(k) == lines.take(k));
        lemma_regions_prefix(lines.drop_last(), k);
    } else {
        assert(lines.take(k) == lines);
    }
}

/// Reads the regions of an input text: those of its last section.
pub fn parse_input(input: &[u8]) -> (r: Option<Vec<Region>>)
    ensures
        match r {
            Some(regions) => regions_written(lines_of(last_section(input@))) == Some(
                regions_of(regions@),
            ),
            None => regions_written(lines_of(last_section(input@))).is_none(),
        },
{
    let section = copy_last_section(input);
    let rows = lines(section.as_slice());
    let mut regions: Vec<Region> = Vec::new();
    let mut i: usize = 0;
    while i < rows.len()
        invariant
            i <= rows.len(),
            views(rows@) == lines_of(last_section(input@)),
            regions_written(views(rows@).take(i as int)) == Some(regions_of(regions@)),
        decreases rows.len() - i,
    {
        proof {
            let upto = views(rows@).take(i + 1);
            assert(upto.drop_last() == views(rows@).take(i as int));
            assert(upto.last() == rows[i as int]@);
        }
        let ghost before = regions_of(regions@);
        match parse_region(rows[i].as_slice()) {
            Some(region) => {
                regions.push(region);
                proof {
                    let last = regions@.last();
                    assert(regions_of(regions@) =~= before.push(
                        (last.width, last.height, last.counts@),
                    ));
                }
            },
            None => {
                proof {
                    lemma_regions_prefix(views(rows@), i + 1);
                }
                return None;
            },
        }
        i = i + 1;
    }
    proof {
        assert(views(rows@).take(rows.len() as int) == views(rows@));
    }
    Some(regions)
}

/// Counts the regions that are roomy.
pub fn count_roomy(regions: &Vec<Region>) -> (n: usize)
    ensures
        n == roomy_among(regions_of(regions@)),
{
    let ghost all = regions_of(regions@);
    let mut possibles: usize = 0;
    let mut i: usize = 0;
    while i < regions.len()
        invariant
            i <= regions.len(),
            all == regions_of(regions@),
            possibles <= i,
            possibles == roomy_among(all.take(i as int)),
        decreases regions.len() - i,
    {
        proof {
            assert(all.take(i + 1).drop_last() == all.take(i as int));
            assert(all.take(i + 1).last() == all[i as int]);
        }
        if regions[i].is_roomy() {
            possibles = possibles + 1;
        }
        i = i + 1;
    }
    proof {
        assert(all.take(regions.len() as int) == all);
    }
    possibles
}

/// The answer to part one. `None` where a line of the last section is
/// malformed.
pub open spec fn roomy_answer(input: Seq<u8>) -> Option<SolvedValue> {
    match roomy_regions(lines_of(last_section(input))) {
        Some(n) => Some(SolvedValue::Usize(n as usize)),
        None => None,
    }
}

pub struct Day;

impl Solution for Day {
    open spec fn part1_answers(&self, input: Seq<u8>, answer: Option<SolvedValue>) -> bool {
        answer == roomy_answer(input)
    }

    open spec fn part2_answers(&self, input: Seq<u8>, answer: Option<SolvedValue>) -> bool {
        answer.is_none()
    }

    fn part1(&self, input: &str) -> (res: Option<SolvedValue>) {
        proof {
            lemma_roomy_regions(lines_of(last_section(input.spec_bytes())));
        }
        match parse_input(input.as_bytes()) {
            Some(items) => Some(SolvedValue::Usize(count_roomy(&items))),
            None => None,
        }
    }

    fn part2(&self, _input: &str) -> (res: Option<SolvedValue>) {
        None
    }
}

} // verus!
