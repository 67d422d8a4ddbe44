//! Day 4: a floor plan with rolls of paper.
//!
//! A roll can be reached where fewer than four of the eight places around
//! it hold a roll. Part one counts the rolls that can be reached; part two
//! removes them, over and over, and counts all that go.

use vstd::prelude::*;
use vstd::string::StringSliceAdditionalSpecFns;
use crate::solution::{Solution, SolvedValue};
use crate::text::{lines, lines_of, views};

verus! {

/// A place on the floor plan.
#[derive(Debug, PartialEq, Eq, Clone, Copy, Structural)]
pub struct Position {
    pub row: usize,
    pub col: usize,
}

/// The floor plan: row by row, `true` where a roll lies.
pub struct Floor(pub Vec<Vec<bool>>);

/// The rows of a floor plan as sequences.
pub open spec fn grid_of(rows: Seq<Vec<bool>>) -> Seq<Seq<bool>> {
    Seq::new(rows.len(), |i: int| rows[i]@)
}

/// A roll lies at row `r`, column `c`. Nothing lies outside the plan.
pub open spec fn roll_at(g: Seq<Seq<bool>>, r: int, c: int) -> bool {
    0 <= r < g.len() && 0 <= c < g[r].len() && g[r][c]
}

/// One where a roll lies at row `r`, column `c`, else zero.
pub open spec fn one_if_roll(g: Seq<Seq<bool>>, r: int, c: int) -> nat {
    if roll_at(g, r, c) {
        1
    } else {
        0
    }
}

/// The number of rolls on the eight places around row `r`, column `c`.
pub open spec fn neighbours(g: Seq<Seq<bool>>, r: int, c: int) -> nat {
    one_if_roll(g, r - 1, c - 1) + one_if_roll(g, r - 1, c) + one_if_roll(g, r - 1, c + 1)
        + one_if_roll(g, r, c + 1) + one_if_roll(g, r + 1, c + 1) + one_if_roll(g, r + 1, c)
        + one_if_roll(g, r + 1, c - 1) + one_if_roll(g, r, c - 1)
}

/// A roll lies at the place, with fewer than four rolls around it.
pub open spec fn reachable(g: Seq<Seq<bool>>, r: int, c: int) -> bool {
    roll_at(g, r, c) && neighbours(g, r, c) < 4
}

/// The places of row `r` before column `c_end` whose roll can be reached.
pub open spec fn row_reachables(g: Seq<Seq<bool>>, r: int, c_end: nat) -> Seq<Position>
    decreases c_end,
{
    if c_end == 0 {
        Seq::empty()
    } else {
        let rest = row_reachables(g, r, (c_end - 1) as nat);
        if reachable(g, r, c_end - 1) {
            rest.push(Position { row: r as usize, col: (c_end - 1) as usize })
        } else {
            rest
        }
    }
}

/// The places of the rows before `r_end` whose roll can be reached, row by
/// row.
pub open spec fn reachables_below(g: Seq<Seq<bool>>, r_end: nat) -> Seq<Position>
    decreases r_end,
{
    if r_end == 0 {
        Seq::empty()
    } else {
        reachables_below(g, (r_end - 1) as nat) + row_reachables(
            g,
            r_end - 1,
            g[r_end - 1].len(),
        )
    }
}

/// All places whose roll can be reached, row by row.
pub open spec fn reachables_of(g: Seq<Seq<bool>>) -> Seq<Position> {
    reachables_below(g, g.len())
}

/// The floor plan without the rolls that can be reached.
pub open spec fn stripped(g: Seq<Seq<bool>>) -> Seq<Seq<bool>> {
    Seq::new(g.len(), |r: int| Seq::new(g[r].len(), |c: int| g[r][c] && !reachable(g, r, c)))
}

/// The number of rolls among the first `c_end` places of a row.
pub open spec fn row_rolls(row: Seq<bool>, c_end: nat) -> nat
    decreases c_end,
{
    if c_end == 0 {
        0
    } else {
        row_rolls(row, (c_end - 1) as nat) + if row[c_end - 1] {
            1nat
        } else {
            0nat
        }
    }
}

/// The number of rolls in the rows before `r_end`.
pub open spec fn rolls_below(g: Seq<Seq<bool>>, r_end: nat) -> nat
    decreases r_end,
{
    if r_end == 0 {
        0
    } else {
        rolls_below(g, (r_end - 1) as nat) + row_rolls(g[r_end - 1], g[r_end - 1].len())
    }
}

/// The number of rolls on the floor plan.
pub open spec fn roll_count(g: Seq<Seq<bool>>) -> nat {
    rolls_below(g, g.len())
}

/// In a row, the rolls that stay and the rolls that can be reached make up
/// the rolls that were there.
pub proof fn lemma_stripped_row(g: Seq<Seq<bool>>, r: int, c_end: nat)
    requires
        0 <= r < g.len(),
        c_end <= g[r].len(),
    ensures
        row_rolls(stripped(g)[r], c_end) + row_reachables(g, r, c_end).len() == row_rolls(
            g[r],
            c_end,
        ),
    decreases c_end,
{
    if c_end > 0 {
        lemma_stripped_row(g, r, (c_end - 1) as nat);
    }
}

/// On the plan, the rolls that stay and the rolls that can be reached make
/// up the rolls that were there.
pub proof fn lemma_stripped_rolls(g: Seq<Seq<bool>>, r_end: nat)
    requires
        r_end <= g.len(),
    ensures
        rolls_below(stripped(g), r_end) + reachables_below(g, r_end).len() == rolls_below(
            g,
            r_end,
        ),
    decreases r_end,
{
    if r_end > 0 {
        lemma_stripped_rolls(g, (r_end - 1) as nat);
        lemma_stripped_row(g, r_end - 1, g[r_end - 1].len());
    }
}

/// A roll that can be reached is among those found in its row.
pub proof fn lemma_row_reachables_has(g: Seq<Seq<bool>>, r: int, c_end: nat, c: int)
    requires
        0 <= c < c_end,
        reachable(g, r, c),
    ensures
        row_reachables(g, r, c_end).len() > 0,
    decreases c_end,
{
    if c < c_end - 1 {
        lemma_row_reachables_has(g, r, (c_end - 1) as nat, c);
    }
}

/// A roll that can be reached is among those found on the plan.
pub proof fn lemma_reachables_has(g: Seq<Seq<bool>>, r_end: nat, r: int, c: int)
    requires
        0 <= r < r_end <= g.len(),
        reachable(g, r, c),
    ensures
        reachables_below(g, r_end).len() > 0,
    decreases r_end,
{
    if r < r_end - 1 {
        lemma_reachables_has(g, (r_end - 1) as nat, r, c);
    } else {
        lemma_row_reachables_has(g, r, g[r].len(), c);
    }
}

/// Where no roll can be reached, removing those that can changes nothing.
pub proof fn lemma_nothing_to_strip(g: Seq<Seq<bool>>)
    ensures
        reachables_of(g).len() == 0 ==> stripped(g) == g,
{
    if reachables_of(g).len() == 0 {
        assert forall|r: int| 0 <= r < g.len() implies #[trigger] stripped(g)[r] == g[r] by {
            assert forall|c: int| 0 <= c < g[r].len() implies stripped(g)[r][c] == g[r][c] by {
                if reachable(g, r, c) {
                    lemma_reachables_has(g, g.len(), r, c);
                }
            }
            assert(stripped(g)[r] =~= g[r]);
        }
        assert(stripped(g) =~= g);
    }
}

/// The number of rolls that go when the rolls that can be reached are
/// removed over and over, until none can be reached.
pub open spec fn total_removed(g: Seq<Seq<bool>>) -> nat
    decreases roll_count(g),
{
    if reachables_of(g).len() == 0 {
        0
    } else {
        proof {
            lemma_stripped_rolls(g, g.len());
        }
        reachables_of(g).len() + total_removed(stripped(g))
    }
}

/// No more places can be reached than the plan has rolls.
pub proof fn lemma_reachables_bound(g: Seq<Seq<bool>>)
    ensures
        reachables_of(g).len() <= roll_count(g),
        total_removed(g) <= roll_count(g),
    decreases roll_count(g),
{
    lemma_stripped_rolls(g, g.len());
    if reachables_of(g).len() > 0 {
        lemma_reachables_bound(stripped(g));
    }
}

impl Floor {
    /// The floor plan as sequences of rows.
    pub open spec fn cells(&self) -> Seq<Seq<bool>> {
        grid_of(self.0@)
    }

    /// Whether a roll lies at the place `(row, col)`; none lies outside the
    /// plan.
    pub fn has_roll(&self, row: i128, col: i128) -> (r: bool)
        ensures
            r == roll_at(self.cells(), row as int, col as int),
    {
        if row < 0 || col < 0 {
            return false;
        }
        if row >= self.0.len() as i128 {
            return false;
        }
        let line = &self.0[row as usize];
        if col >= line.len() as i128 {
            return false;
        }
        line[col as usize]
    }

    /// The number of rolls on the eight places around `pos`.
    pub fn number_of_neighbour_rolls(&self, pos: &Position) -> (n: usize)
        ensures
            n == neighbours(self.cells(), pos.row as int, pos.col as int),
    {
        let r: i128 = pos.row as i128;
        let c: i128 = pos.col as i128;
        let mut n: usize = 0;
        if self.has_roll(r - 1, c - 1) {
            n += 1;
        }
        if self.has_roll(r - 1, c) {
            n += 1;
        }
        if self.has_roll(r - 1, c + 1) {
            n += 1;
        }
        if self.has_roll(r, c + 1) {
            n += 1;
        }
        if self.has_roll(r + 1, c + 1) {
            n += 1;
        }
        if self.has_roll(r + 1, c) {
            n += 1;
        }
        if self.has_roll(r + 1, c - 1) {
            n += 1;
        }
        if self.has_roll(r, c - 1) {
            n += 1;
        }
        n
    }

    /// The number of rolls that can be reached.
    pub fn reachable_roll_count(&self) -> (n: usize)
        ensures
            n == reachables_of(self.cells()).len(),
    {
        self.reachables().len()
    }

    /// The places whose roll can be reached, row by row.
    pub fn reachables(&self) -> (found: Vec<Position>)
        ensures
            found@ == reachables_of(self.cells()),
    {
        let mut reachables: Vec<Position> = Vec::new();
        let mut row: usize = 0;
        while row < self.0.len()
            invariant
                row <= self.0.len(),
                reachables@ == reachables_below(self.cells(), row as nat),
            decreases self.0.len() - row,
        {
            let ghost before = reachables@;
            let mut col: usize = 0;
            while col < self.0[row].len()
                invariant
                    row < self.0.len(),
                    col <= self.0[row as int].len(),
                    reachables@ == before + row_reachables(self.cells(), row as int, col as nat),
                decreases self.0[row as int].len() - col,
            {
                let ghost sofar = row_reachables(self.cells(), row as int, col as nat);
                if self.0[row][col] && self.number_of_neighbour_rolls(&Position { row, col }) < 4 {
                    reachables.push(Position { row, col });
                    proof {
                        assert(before + sofar.push(Position { row, col }) == (before + sofar).push(
                            Position { row, col },
                        ));
                    }
                }
                col = col + 1;
            }
            row = row + 1;
        }
        reachables
    }

    /// Removes the rolls that can be reached and says how many went, or
    /// `None` where none could be reached.
    pub fn remove_reachables(&mut self) -> (removed: Option<usize>)
        ensures
            final(self).cells() == stripped(old(self).cells()),
            reachables_of(old(self).cells()).len() <= usize::MAX,
            removed == if reachables_of(old(self).cells()).len() == 0 {
                None
            } else {
                Some(reachables_of(old(self).cells()).len() as usize)
            },
    {
        let reachables = self.reachables();
        let ghost g = self.cells();
        let mut cleared: Vec<Vec<bool>> = Vec::new();
        let mut row: usize = 0;
        while row < self.0.len()
            invariant
                row <= self.0.len(),
                g == self.cells(),
                cleared@.len() == row,
                forall|r: int| 0 <= r < row ==> (#[trigger] cleared@[r])@ == stripped(g)[r],
            decreases self.0.len() - row,
        {
            let mut line: Vec<bool> = Vec::new();
            let mut col: usize = 0;
            while col < self.0[row].len()
                invariant
                    row < self.0.len(),
                    g == self.cells(),
                    col <= self.0[row as int].len(),
                    line@.len() == col,
                    forall|c: int|
                        0 <= c < col ==> (#[trigger] line@[c]) == (g[row as int][c] && !reachable(
                            g,
                            row as int,
                            c,
                        )),
                decreases self.0[row as int].len() - col,
            {
                let stays: bool = self.0[row][col] && !(self.number_of_neighbour_rolls(
                    &Position { row, col },
                ) < 4);
                line.push(stays);
                col = col + 1;
            }
            proof {
                assert(line@ =~= stripped(g)[row as int]);
            }
            cleared.push(line);
            row = row + 1;
        }
        proof {
            assert(grid_of(cleared@) =~= stripped(g));
        }
        self.0 = cleared;
        if reachables.len() == 0 {
            None
        } else {
            Some(reachables.len())
        }
    }

    /// Removes the rolls that can be reached, over and over, and says how
    /// many went in all.
    pub fn recursive_remove(&mut self) -> (res: u128)
        ensures
            res == total_removed(old(self).cells()),
            reachables_of(final(self).cells()).len() == 0,
    {
        let mut res: u128 = 0;
        proof {
            assert(self.0@.len() == self.0.len());
            lemma_places_bound(self.0@, self.0@.len());
            lemma_rolls_bound(self.cells(), self.cells().len());
        }
        loop
            invariant_except_break
                res + total_removed(self.cells()) == total_removed(old(self).cells()),
            invariant
                res + roll_count(self.cells()) <= usize::MAX * usize::MAX,
            ensures
                res == total_removed(old(self).cells()),
                reachables_of(self.cells()).len() == 0,
            decreases roll_count(self.cells()),
        {
            proof {
                lemma_stripped_rolls(self.cells(), self.cells().len());
                lemma_nothing_to_strip(self.cells());
                assert(usize::MAX * usize::MAX <= 0xffff_ffff_ffff_ffff * 0xffff_ffff_ffff_ffff)
                    by (nonlinear_arith);
            }
            let ghost g = self.cells();
            match self.remove_reachables() {
                Some(x) => {
                    proof {
                        assert(total_removed(g) == reachables_of(g).len() + total_removed(
                            stripped(g),
                        ));
                    }
                    res += x as u128;
                },
                None => {
                    break;
                },
            }
        }
        res
    }
}

/// The number of places in the rows before `r_end`.
pub open spec fn places_below(g: Seq<Seq<bool>>, r_end: nat) -> nat
    decreases r_end,
{
    if r_end == 0 {
        0
    } else {
        places_below(g, (r_end - 1) as nat) + g[r_end - 1].len()
    }
}

/// A row has no more rolls than places.
pub proof fn lemma_row_rolls_bound(row: Seq<bool>, c_end: nat)
    ensures
        row_rolls(row, c_end) <= c_end,
    decreases c_end,
{
    if c_end > 0 {
        lemma_row_rolls_bound(row, (c_end - 1) as nat);
    }
}

/// A plan has no more rolls than places.
pub proof fn lemma_rolls_bound(g: Seq<Seq<bool>>, r_end: nat)
    ensures
        rolls_below(g, r_end) <= places_below(g, r_end),
    decreases r_end,
{
    if r_end > 0 {
        lemma_rolls_bound(g, (r_end - 1) as nat);
        lemma_row_rolls_bound(g[r_end - 1], g[r_end - 1].len());
    }
}

/// A plan held in memory has no more places than the square of the greatest
/// length.
pub proof fn lemma_places_bound(rows: Seq<Vec<bool>>, r_end: nat)
    requires
        r_end <= rows.len() <= usize::MAX,
    ensures
        places_below(grid_of(rows), r_end) <= r_end * usize::MAX,
        r_end * usize::MAX <= usize::MAX * usize::MAX,
    decreases r_end,
{
    if r_end > 0 {
        lemma_places_bound(rows, (r_end - 1) as nat);
        assert(rows[r_end - 1]@.len() == rows[r_end - 1].len());
        assert((r_end - 1) * usize::MAX + usize::MAX == r_end * usize::MAX) by (nonlinear_arith);
    }
    assert(r_end * usize::MAX <= usize::MAX * usize::MAX) by (nonlinear_arith)
        requires
            r_end <= usize::MAX,
    ;
}

/// Whether a byte of the plan marks a roll.
pub open spec fn is_roll(b: u8) -> bool {
    b == 64
}

/// The floor plan that the lines of a text draw: a roll wherever an `@`
/// stands.
pub open spec fn plan_of(lines: Seq<Seq<u8>>) -> Seq<Seq<bool>> {
    Seq::new(lines.len(), |r: int| Seq::new(lines[r].len(), |c: int| is_roll(lines[r][c])))
}

/// Reads the floor plan of an input text.
pub fn parse_map(input: &[u8]) -> (map: Floor)
    ensures
        map.cells() == plan_of(lines_of(input@)),
{
    let rows = lines(input);
    let mut plan: Vec<Vec<bool>> = Vec::new();
    let mut r: usize = 0;
    while r < rows.len()
        invariant
            r <= rows.len(),
            plan@.len() == r,
            forall|k: int| 0 <= k < r ==> (#[trigger] plan@[k])@ == plan_of(views(rows@))[k],
        decreases rows.len() - r,
    {
        let mut line: Vec<bool> = Vec::new();
        let mut c: usize = 0;
        while c < rows[r].len()
            invariant
                r < rows.len(),
                c <= rows[r as int].len(),
                line@.len() == c,
                forall|k: int| 0 <= k < c ==> (#[trigger] line@[k]) == is_roll(rows[r as int]@[k]),
            decreases rows[r as int].len() - c,
        {
            line.push(rows[r][c] == 64);
            c = c + 1;
        }
        proof {
            assert(line@ =~= plan_of(views(rows@))[r as int]);
        }
        plan.push(line);
        r = r + 1;
    }
    proof {
        assert(grid_of(plan@) =~= plan_of(views(rows@)));
    }
    Floor(plan)
}

pub struct Day;

impl Solution for Day {
    open spec fn part1_answers(&self, input: Seq<u8>, answer: Option<SolvedValue>) -> bool {
        answer == Some(SolvedValue::Usize(reachables_of(plan_of(lines_of(input))).len() as usize))
    }

    open spec fn part2_answers(&self, input: Seq<u8>, answer: Option<SolvedValue>) -> bool {
        answer == crate::solution::answer_of(Some(total_removed(plan_of(lines_of(input)))))
    }

    fn part1(&self, input: &str) -> (res: Option<SolvedValue>) {
        let map = parse_map(input.as_bytes());
        Some(SolvedValue::Usize(map.reachable_roll_count()))
    }

    fn part2(&self, input: &str) -> (res: Option<SolvedValue>) {
        let mut map = parse_map(input.as_bytes());
        let removed = map.recursive_remove();
        if removed <= u64::MAX as u128 {
            crate::solution::solved(removed as u64)
        } else {
            None
        }
    }
}

} // verus!
