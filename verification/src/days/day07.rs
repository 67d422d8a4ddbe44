//! Day 7: a beam that falls through a manifold of splitters.
//!
//! The beam enters at the start and falls row by row. At a splitter it stops
//! and goes on to the left and to the right of it. Part one counts the
//! splitters that a beam meets; part two counts the ways a single particle
//! can take, going either left or right at each splitter.

use vstd::prelude::*;
use vstd::string::{StringExecFns, StringSliceAdditionalSpecFns};
use crate::solution::{answer_of, solved, Solution, SolvedValue};
use crate::text::{lines, lines_of, trim, trimmed, views};

verus! {

/// A place in the manifold.
#[derive(Debug, PartialEq, Eq, Clone, Copy, Hash, Structural)]
pub struct Position {
    pub col: usize,
    pub row: usize,
}

/// The manifold: where the beam starts, and row by row where splitters are.
#[derive(Debug)]
pub struct Manifold {
    pub start: Position,
    pub splitters: Vec<Vec<bool>>,
}

/// The rows of a manifold as sequences.
pub open spec fn grid_of(rows: Seq<Vec<bool>>) -> Seq<Seq<bool>> {
    Seq::new(rows.len(), |i: int| rows[i]@)
}

/// A splitter stands at the place. None stands outside the rows.
pub open spec fn splitter_at(s: Seq<Seq<bool>>, col: int, row: int) -> bool {
    0 <= row < s.len() && 0 <= col < s[row].len() && s[row][col]
}

/// The length of the longest of the first `r_end` rows.
pub open spec fn widest(s: Seq<Seq<bool>>, r_end: nat) -> nat
    decreases r_end,
{
    if r_end == 0 {
        0
    } else {
        let rest = widest(s, (r_end - 1) as nat);
        if s[r_end - 1].len() > rest {
            s[r_end - 1].len()
        } else {
            rest
        }
    }
}

/// The columns with a beam in the row after `row`, given those of `row`. A
/// beam beyond the widest row meets no splitter any more and is not
/// followed.
pub open spec fn next_beams(s: Seq<Seq<bool>>, beams: Seq<bool>, row: int) -> Seq<bool> {
    Seq::new(
        beams.len(),
        |c: int|
            (beams[c] && !splitter_at(s, c, row + 1)) || (c + 1 < beams.len() && beams[c + 1]
                && splitter_at(s, c + 1, row + 1)) || (c >= 1 && beams[c - 1] && splitter_at(
                s,
                c - 1,
                row + 1,
            )),
    )
}

/// The number of beams of `row` in columns before `c_end` that meet a
/// splitter in the next row.
pub open spec fn hits(s: Seq<Seq<bool>>, beams: Seq<bool>, row: int, c_end: nat) -> nat
    decreases c_end,
{
    if c_end == 0 {
        0
    } else {
        hits(s, beams, row, (c_end - 1) as nat) + if beams[c_end - 1] && splitter_at(
            s,
            c_end - 1,
            row + 1,
        ) {
            1nat
        } else {
            0nat
        }
    }
}

/// A beam in the first column of `row` meets a splitter: its left part
/// would leave the manifold.
pub open spec fn leaves_left(s: Seq<Seq<bool>>, beams: Seq<bool>, row: int) -> bool {
    beams.len() > 0 && beams[0] && splitter_at(s, 0, row + 1)
}

/// The number of splitters that beams meet from `row` on, given the beams
/// of `row`. `None` where a beam would leave the manifold to the left.
pub open spec fn splits_from(s: Seq<Seq<bool>>, beams: Seq<bool>, row: int) -> Option<nat>
    decreases s.len() - row,
{
    if row >= s.len() {
        Some(0)
    } else if leaves_left(s, beams, row) {
        None
    } else {
        match splits_from(s, next_beams(s, beams, row), row + 1) {
            Some(n) => Some(hits(s, beams, row, beams.len()) + n),
            None => None,
        }
    }
}

/// A row of the given width with a single beam.
pub open spec fn single_beam(width: nat, col: int) -> Seq<bool> {
    Seq::new(width, |c: int| c == col)
}

/// The number of splitters that beams meet. `None` where a beam would
/// leave the manifold to the left.
pub open spec fn splits_of(s: Seq<Seq<bool>>, start: Position) -> Option<nat> {
    let width = widest(s, s.len());
    if start.col >= width {
        Some(0)
    } else {
        splits_from(s, single_beam(width, start.col as int), start.row as int)
    }
}

/// `n` more than `rest`, where `rest` is a number.
pub open spec fn plus(n: nat, rest: Option<nat>) -> Option<nat> {
    match rest {
        Some(m) => Some(n + m),
        None => None,
    }
}

/// A count that fits 64 bits.
pub open spec fn fitting(total: Option<nat>) -> Option<u64> {
    match total {
        Some(n) => if n <= u64::MAX {
            Some(n as u64)
        } else {
            None
        },
        None => None,
    }
}

/// The manifold can be walked for timelines: it has a row, the start lies
/// in the width of the first row, and from the second row on every splitter
/// has room on both sides within that width, and every other place of a row
/// lies within it.
pub open spec fn walkable(s: Seq<Seq<bool>>, start: Position) -> bool {
    &&& s.len() >= 1
    &&& start.row < s.len()
    &&& start.col < s[0].len()
    &&& forall|r: int, c: int|
        1 <= r < s.len() && 0 <= c < s[r].len() ==> if #[trigger] s[r][c] {
            1 <= c && c + 1 < s[0].len()
        } else {
            c < s[0].len()
        }
}

/// The number of ways to each column of `row`, given those of the row
/// before: straight down where no splitter stands, and from a splitter to
/// both sides of it. The start adds one way of its own.
pub open spec fn next_ways(s: Seq<Seq<bool>>, start: Position, ways: Seq<nat>, row: int) -> Seq<
    nat,
> {
    Seq::new(
        ways.len(),
        |c: int|
            (if start.row == row && start.col == c {
                1nat
            } else {
                0nat
            }) + (if c < s[row].len() && !splitter_at(s, c, row) {
                ways[c]
            } else {
                0nat
            }) + (if c + 1 < ways.len() && splitter_at(s, c + 1, row) {
                ways[c + 1]
            } else {
                0nat
            }) + (if c >= 1 && splitter_at(s, c - 1, row) {
                ways[c - 1]
            } else {
                0nat
            }),
    )
}

/// A row of counts as numbers.
pub open spec fn as_nats(ways: Seq<u64>) -> Seq<nat> {
    Seq::new(ways.len(), |c: int| ways[c] as nat)
}

/// The number of ways to each column of `row`.
pub open spec fn ways_at(s: Seq<Seq<bool>>, start: Position, row: nat) -> Seq<nat>
    decreases row,
{
    if row == 0 {
        Seq::new(
            s[0].len(),
            |c: int|
                if start.row == 0 && start.col == c {
                    1nat
                } else {
                    0nat
                },
        )
    } else {
        next_ways(s, start, ways_at(s, start, (row - 1) as nat), row as int)
    }
}

/// The sum of the first `c_end` numbers.
pub open spec fn sum_ways(ways: Seq<nat>, c_end: nat) -> nat
    decreases c_end,
{
    if c_end == 0 {
        0
    } else {
        sum_ways(ways, (c_end - 1) as nat) + ways[c_end - 1]
    }
}

/// Every count of ways up to `row` fits 64 bits.
pub open spec fn ways_fit(s: Seq<Seq<bool>>, start: Position, row: nat) -> bool {
    forall|r: nat, c: int|
        r <= row && 0 <= c < s[0].len() ==> (#[trigger] ways_at(s, start, r)[c]) <= u64::MAX
}

/// The number of ways through the manifold: of timelines. `None` where the
/// manifold cannot be walked, or where some count on the way does not fit 64
/// bits.
pub open spec fn timelines_of(s: Seq<Seq<bool>>, start: Position) -> Option<nat> {
    if walkable(s, start) && ways_fit(s, start, (s.len() - 1) as nat) {
        let last = ways_at(s, start, (s.len() - 1) as nat);
        Some(sum_ways(last, last.len()))
    } else {
        None
    }
}

/// A sum is no less than any of its partial sums, and than any of its
/// terms.
pub proof fn lemma_sum_ways(ways: Seq<nat>, c_end: nat, c: int)
    requires
        0 <= c < c_end,
    ensures
        ways[c] <= sum_ways(ways, c_end),
        sum_ways(ways, c as nat) <= sum_ways(ways, c_end),
    decreases c_end,
{
    if c < c_end - 1 {
        lemma_sum_ways(ways, (c_end - 1) as nat, c);
    }
}

/// Every row of ways has the width of the first row.
pub proof fn lemma_ways_width(s: Seq<Seq<bool>>, start: Position, row: nat)
    ensures
        ways_at(s, start, row).len() == s[0].len(),
    decreases row,
{
    if row > 0 {
        lemma_ways_width(s, start, (row - 1) as nat);
    }
}

impl Manifold {
    /// The rows of splitters as sequences.
    pub open spec fn rows(&self) -> Seq<Seq<bool>> {
        grid_of(self.splitters@)
    }

    /// Whether a splitter stands at `pos`.
    pub fn is_splitter_at(&self, pos: Position) -> (r: bool)
        ensures
            r == splitter_at(self.rows(), pos.col as int, pos.row as int),
    {
        if pos.row < self.splitters.len() {
            let line = &self.splitters[pos.row];
            if pos.col < line.len() {
                line[pos.col]
            } else {
                false
            }
        } else {
            false
        }
    }

    /// Whether a splitter stands right below `pos`.
    pub fn is_splitter_below(&self, pos: Position) -> (r: bool)
        ensures
            r == splitter_at(self.rows(), pos.col as int, pos.row + 1),
    {
        if pos.row < usize::MAX {
            self.is_splitter_at(Position { col: pos.col, row: pos.row + 1 })
        } else {
            proof {
                assert(self.splitters@.len() == self.splitters.len());
            }
            false
        }
    }

    /// The length of the longest row.
    pub fn width(&self) -> (w: usize)
        ensures
            w == widest(self.rows(), self.rows().len()),
    {
        let mut w: usize = 0;
        let mut r: usize = 0;
        while r < self.splitters.len()
            invariant
                r <= self.splitters.len(),
                w == widest(self.rows(), r as nat),
            decreases self.splitters.len() - r,
        {
            if self.splitters[r].len() > w {
                w = self.splitters[r].len();
            }
            r = r + 1;
        }
        w
    }

    /// The number of splitters that beams meet. `None` where a beam would
    /// leave the manifold to the left, or the count does not fit 64 bits.
    pub fn number_of_splits(&self) -> (r: Option<u64>)
        ensures
            r == fitting(splits_of(self.rows(), self.start)),
    {
        let width: usize = self.width();
        if self.start.col >= width {
            return Some(0);
        }
        let ghost s = self.rows();
        let ghost total = splits_of(s, self.start);
        let mut beams: Vec<bool> = Vec::new();
        let mut c: usize = 0;
        while c < width
            invariant
                c <= width,
                beams@.len() == c,
                forall|k: int| 0 <= k < c ==> (#[trigger] beams@[k]) == (k == self.start.col),
            decreases width - c,
        {
            beams.push(c == self.start.col);
            c = c + 1;
        }
        proof {
            assert(beams@ =~= single_beam(width as nat, self.start.col as int));
        }
        let mut splits: u64 = 0;
        let mut row: usize = self.start.row;
        while row < self.splitters.len()
            invariant
                s == self.rows(),
                total == splits_of(s, self.start),
                width == widest(s, s.len()),
                beams@.len() == width,
                self.start.row <= row,
                plus(splits as nat, splits_from(s, beams@, row as int)) == total,
            decreases self.splitters.len() - row,
        {
            let ghost rest = splits_from(s, next_beams(s, beams@, row as int), row + 1);
            let mut next: Vec<bool> = Vec::new();
            let mut k: usize = 0;
            while k < width
                invariant
                    k <= width,
                    next@.len() == k,
                    forall|j: int| 0 <= j < k ==> !(#[trigger] next@[j]),
                decreases width - k,
            {
                next.push(false);
                k = k + 1;
            }
            let mut col: usize = 0;
            let mut met: u64 = 0;
            while col < width
                invariant
                    col <= width,
                    s == self.rows(),
                    total == splits_of(s, self.start),
                    plus(splits as nat, splits_from(s, beams@, row as int)) == total,
                    row < self.splitters.len(),
                    width == widest(s, s.len()),
                    beams@.len() == width,
                    next@.len() == width,
                    met == hits(s, beams@, row as int, col as nat),
                    met <= col,
                    !leaves_left(s, beams@, row as int) || col == 0,
                    forall|k: int|
                        0 <= k < width ==> (#[trigger] next@[k]) == ((k < col && beams@[k]
                            && !splitter_at(s, k, row + 1)) || (k + 1 < col && beams@[k + 1]
                            && splitter_at(s, k + 1, row + 1)) || (1 <= k <= col && beams@[k - 1]
                            && splitter_at(s, k - 1, row + 1))),
                decreases width - col,
            {
                if beams[col] {
                    if self.is_splitter_below(Position { col, row }) {
                        if col == 0 {
                            return None;
                        }
                        met = met + 1;
                        next.set(col - 1, true);
                        if col + 1 < width {
                            next.set(col + 1, true);
                        }
                    } else {
                        next.set(col, true);
                    }
                }
                col = col + 1;
            }
            proof {
                assert(next@ =~= next_beams(s, beams@, row as int));
            }
            match splits.checked_add(met) {
                Some(sum) => {
                    splits = sum;
                },
                None => {
                    return None;
                },
            }
            beams = next;
            row = row + 1;
        }
        Some(splits)
    }

    /// The number of timelines. `None` where the manifold cannot be walked,
    /// or the count does not fit 64 bits.
    pub fn number_of_timeline_splits(&self) -> (r: Option<u64>)
        ensures
            r == fitting(timelines_of(self.rows(), self.start)),
    {
        if !self.can_walk() {
            return None;
        }
        let ghost s = self.rows();
        let width: usize = self.splitters[0].len();
        let mut ways: Vec<u64> = Vec::new();
        let mut c: usize = 0;
        while c < width
            invariant
                c <= width,
                s.len() >= 1,
                ways@.len() == c,
                forall|k: int|
                    0 <= k < c ==> (#[trigger] ways@[k]) == ways_at(s, self.start, 0)[k],
                width == s[0].len(),
            decreases width - c,
        {
            ways.push(
                if self.start.row == 0 && self.start.col == c {
                    1
                } else {
                    0
                },
            );
            c = c + 1;
        }
        let mut row: usize = 1;
        while row < self.splitters.len()
            invariant
                1 <= row <= self.splitters.len(),
                s == self.rows(),
                walkable(s, self.start),
                width == s[0].len(),
                ways@.len() == width,
                ways_fit(s, self.start, (row - 1) as nat),
                forall|k: int|
                    0 <= k < width ==> (#[trigger] ways@[k]) == ways_at(
                        s,
                        self.start,
                        (row - 1) as nat,
                    )[k],
            decreases self.splitters.len() - row,
        {
            let ghost before = ways_at(s, self.start, (row - 1) as nat);
            let ghost after = ways_at(s, self.start, row as nat);
            proof {
                lemma_ways_width(s, self.start, (row - 1) as nat);
                lemma_ways_width(s, self.start, row as nat);
                assert(as_nats(ways@) =~= before);
            }
            let mut next: Vec<u64> = Vec::new();
            let mut col: usize = 0;
            while col < width
                invariant
                    col <= width,
                    s == self.rows(),
                    1 <= row < self.splitters.len(),
                    width == s[0].len(),
                    ways@.len() == width,
                    after == ways_at(s, self.start, row as nat),
                    after == next_ways(s, self.start, as_nats(ways@), row as int),
                    after.len() == width,
                    next@.len() == col,
                    forall|k: int| 0 <= k < col ==> (#[trigger] next@[k]) == after[k],
                decreases width - col,
            {
                match self.ways_to(&ways, row, col) {
                    Some(sum) => {
                        next.push(sum);
                    },
                    None => {
                        proof {
                            assert(ways_at(s, self.start, row as nat)[col as int] > u64::MAX);
                        }
                        return None;
                    },
                }
                col = col + 1;
            }
            proof {
                assert forall|r: nat, c: int| r <= row && 0 <= c < s[0].len() implies (
                #[trigger] ways_at(s, self.start, r)[c]) <= u64::MAX by {
                    if r == row {
                        assert(next@[c] == after[c]);
                    }
                }
            }
            ways = next;
            row = row + 1;
        }
        let ghost last = ways_at(s, self.start, (s.len() - 1) as nat);
        proof {
            lemma_ways_width(s, self.start, (s.len() - 1) as nat);
        }
        let mut total: u64 = 0;
        let mut i: usize = 0;
        while i < width
            invariant
                i <= width,
                s == self.rows(),
                walkable(s, self.start),
                ways_fit(s, self.start, (s.len() - 1) as nat),
                last == ways_at(s, self.start, (s.len() - 1) as nat),
                ways@.len() == width,
                last.len() == width,
                forall|k: int| 0 <= k < width ==> (#[trigger] ways@[k]) == last[k],
                total == sum_ways(last, i as nat),
            decreases width - i,
        {
            proof {
                lemma_sum_ways(last, last.len(), i as int);
                if i + 1 < width {
                    lemma_sum_ways(last, last.len(), i + 1);
                }
            }
            match total.checked_add(ways[i]) {
                Some(sum) => {
                    total = sum;
                },
                None => {
                    return None;
                },
            }
            i = i + 1;
        }
        Some(total)
    }

    /// The number of ways to the place `(row, col)`, given the ways to the
    /// row before. `None` where it does not fit 64 bits.
    pub fn ways_to(&self, ways: &Vec<u64>, row: usize, col: usize) -> (r: Option<u64>)
        requires
            1 <= row < self.rows().len(),
            col < ways@.len(),
        ensures
            ({
                let all = next_ways(self.rows(), self.start, as_nats(ways@), row as int)[col as int];
                r == if all <= u64::MAX {
                    Some(all as u64)
                } else {
                    None
                }
            }),
    {
        let width: usize = ways.len();
        let own: u64 = if self.start.row == row && self.start.col == col {
            1
        } else {
            0
        };
        let straight: u64 = if col < self.splitters[row].len() && !self.is_splitter_at(
            Position { col, row },
        ) {
            ways[col]
        } else {
            0
        };
        let from_right: u64 = if col + 1 < width && self.is_splitter_at(
            Position { col: col + 1, row },
        ) {
            ways[col + 1]
        } else {
            0
        };
        let from_left: u64 = if col >= 1 && self.is_splitter_at(Position { col: col - 1, row }) {
            ways[col - 1]
        } else {
            0
        };
        match own.checked_add(straight) {
            Some(a) => match a.checked_add(from_right) {
                Some(b) => b.checked_add(from_left),
                None => None,
            },
            None => None,
        }
    }

    /// Whether the manifold can be walked for timelines.
    pub fn can_walk(&self) -> (r: bool)
        ensures
            r == walkable(self.rows(), self.start),
    {
        if self.splitters.len() == 0 || self.start.row >= self.splitters.len() {
            return false;
        }
        let width: usize = self.splitters[0].len();
        if self.start.col >= width {
            return false;
        }
        let ghost s = self.rows();
        let mut row: usize = 1;
        while row < self.splitters.len()
            invariant
                1 <= row <= self.splitters.len(),
                s == self.rows(),
                width == s[0].len(),
                forall|r: int, c: int|
                    1 <= r < row && 0 <= c < s[r].len() ==> if #[trigger] s[r][c] {
                        1 <= c && c + 1 < width
                    } else {
                        c < width
                    },
            decreases self.splitters.len() - row,
        {
            let mut col: usize = 0;
            while col < self.splitters[row].len()
                invariant
                    1 <= row < self.splitters.len(),
                    col <= self.splitters[row as int].len(),
                    s == self.rows(),
                    width == s[0].len(),
                    forall|c: int|
                        0 <= c < col ==> if #[trigger] s[row as int][c] {
                            1 <= c && c + 1 < width
                        } else {
                            c < width
                        },
                decreases self.splitters[row as int].len() - col,
            {
                let fits: bool = if self.splitters[row][col] {
                    1 <= col && col < usize::MAX && col + 1 < width
                } else {
                    col < width
                };
                if !fits {
                    proof {
                        assert(s[row as int][col as int] == self.splitters[row as int][col as int]);
                    }
                    return false;
                }
                col = col + 1;
            }
            row = row + 1;
        }
        true
    }
}

/// The character that draws the place: `S` for the start, `^` for a
/// splitter, `.` for anything else.
pub open spec fn place_char(s: Seq<Seq<bool>>, start: Position, row: int, col: int) -> char {
    if start.row == row && start.col == col {
        'S'
    } else if s[row][col] {
        '^'
    } else {
        '.'
    }
}

/// The drawing of the first `c_end` places of a row.
pub open spec fn row_drawing(s: Seq<Seq<bool>>, start: Position, row: int, c_end: nat) -> Seq<
    char,
>
    decreases c_end,
{
    if c_end == 0 {
        Seq::empty()
    } else {
        row_drawing(s, start, row, (c_end - 1) as nat).push(place_char(s, start, row, c_end - 1))
    }
}

/// The drawing of the first `r_end` rows, a line feed after each.
pub open spec fn drawing_below(s: Seq<Seq<bool>>, start: Position, r_end: nat) -> Seq<char>
    decreases r_end,
{
    if r_end == 0 {
        Seq::empty()
    } else {
        drawing_below(s, start, (r_end - 1) as nat) + row_drawing(
            s,
            start,
            r_end - 1,
            s[r_end - 1].len(),
        ).push('\n')
    }
}

impl Manifold {
    /// Draws the manifold, one line a row.
    pub fn drawing(&self) -> (text: String)
        ensures
            text@ == drawing_below(self.rows(), self.start, self.rows().len()),
    {
        let ghost s = self.rows();
        let mut text = String::from_str("");
        proof {
            reveal_strlit("");
            assert(text@ =~= Seq::<char>::empty());
        }
        let mut row: usize = 0;
        while row < self.splitters.len()
            invariant
                row <= self.splitters.len(),
                s == self.rows(),
                text@ == drawing_below(s, self.start, row as nat),
            decreases self.splitters.len() - row,
        {
            let ghost above = text@;
            let line = &self.splitters[row];
            let mut col: usize = 0;
            while col < line.len()
                invariant
                    row < self.splitters.len(),
                    col <= line.len(),
                    s == self.rows(),
                    line@ == s[row as int],
                    text@ == above + row_drawing(s, self.start, row as int, col as nat),
                decreases line.len() - col,
            {
                let ghost before = text@;
                proof {
                    reveal_strlit("S");
                    reveal_strlit("^");
                    reveal_strlit(".");
                }
                if self.start.row == row && self.start.col == col {
                    text.append("S");
                } else if line[col] {
                    text.append("^");
                } else {
                    text.append(".");
                }
                proof {
                    let c = place_char(s, self.start, row as int, col as int);
                    assert(text@ =~= before.push(c));
                    assert(above + row_drawing(s, self.start, row as int, (col + 1) as nat) =~= (
                    above + row_drawing(s, self.start, row as int, col as nat)).push(c));
                }
                col = col + 1;
            }
            let ghost before = text@;
            proof {
                reveal_strlit("\n");
            }
            text.append("\n");
            proof {
                let drawn = row_drawing(s, self.start, row as int, s[row as int].len());
                assert(text@ =~= before.push('\n'));
                assert(above + drawn.push('\n') =~= (above + drawn).push('\n'));
            }
            row = row + 1;
        }
        text
    }
}

/// The last place of a row's first `c_end` places where the start is marked.
pub open spec fn last_start_in(row: Seq<u8>, c_end: nat) -> Option<int>
    decreases c_end,
{
    if c_end == 0 {
        None
    } else if row[c_end - 1] == 83 {
        Some(c_end - 1)
    } else {
        last_start_in(row, (c_end - 1) as nat)
    }
}

/// The start that the first `r_end` lines mark: the last `S` of the last
/// line that has one, or the first place of all where none has.
pub open spec fn start_below(lines: Seq<Seq<u8>>, r_end: nat) -> Position
    decreases r_end,
{
    if r_end == 0 {
        Position { col: 0, row: 0 }
    } else {
        let row = trimmed(lines[r_end - 1]);
        match last_start_in(row, row.len()) {
            Some(c) => Position { col: c as usize, row: (r_end - 1) as usize },
            None => start_below(lines, (r_end - 1) as nat),
        }
    }
}

/// The splitters that lines draw: one wherever a `^` stands, blanks around
/// each line set aside.
pub open spec fn splitters_of(lines: Seq<Seq<u8>>) -> Seq<Seq<bool>> {
    Seq::new(
        lines.len(),
        |r: int| Seq::new(trimmed(lines[r]).len(), |c: int| trimmed(lines[r])[c] == 94),
    )
}

/// Reads the manifold that an input text draws.
pub fn parse_manifold(input: &[u8]) -> (manifold: Manifold)
    ensures
        manifold.rows() == splitters_of(lines_of(input@)),
        manifold.start == start_below(lines_of(input@), lines_of(input@).len()),
{
    let rows = lines(input);
    let ghost text = views(rows@);
    let mut start = Position { col: 0, row: 0 };
    let mut splitters: Vec<Vec<bool>> = Vec::new();
    let mut row: usize = 0;
    while row < rows.len()
        invariant
            row <= rows.len(),
            text == views(rows@),
            splitters@.len() == row,
            forall|k: int| 0 <= k < row ==> (#[trigger] splitters@[k])@ == splitters_of(text)[k],
            start == start_below(text, row as nat),
        decreases rows.len() - row,
    {
        let line = trim(rows[row].as_slice());
        proof {
            assert(text[row as int] == rows[row as int]@);
        }
        let mut line_splitters: Vec<bool> = Vec::new();
        let mut found: Option<usize> = None;
        let mut col: usize = 0;
        while col < line.len()
            invariant
                col <= line.len(),
                line_splitters@.len() == col,
                forall|k: int| 0 <= k < col ==> (#[trigger] line_splitters@[k]) == (line@[k] == 94),
                match found {
                    Some(c) => last_start_in(line@, col as nat) == Some(c as int),
                    None => last_start_in(line@, col as nat).is_none(),
                },
            decreases line.len() - col,
        {
            let c: u8 = line[col];
            if c == 83 {
                found = Some(col);
            }
            line_splitters.push(c == 94);
            col = col + 1;
        }
        match found {
            Some(c) => {
                start = Position { col: c, row };
            },
            None => {},
        }
        proof {
            assert(line_splitters@ =~= splitters_of(text)[row as int]);
        }
        splitters.push(line_splitters);
        row = row + 1;
    }
    proof {
        assert(grid_of(splitters@) =~= splitters_of(text));
    }
    Manifold { start, splitters }
}

/// The answer to part one.
pub open spec fn splits_answer(input: Seq<u8>) -> Option<SolvedValue> {
    let lines = lines_of(input);
    answer_of(splits_of(splitters_of(lines), start_below(lines, lines.len())))
}

/// The answer to part two.
pub open spec fn timelines_answer(input: Seq<u8>) -> Option<SolvedValue> {
    let lines = lines_of(input);
    answer_of(timelines_of(splitters_of(lines), start_below(lines, lines.len())))
}

pub struct Day;

impl Solution for Day {
    open spec fn part1_answers(&self, input: Seq<u8>, answer: Option<SolvedValue>) -> bool {
        answer == splits_answer(input)
    }

    open spec fn part2_answers(&self, input: Seq<u8>, answer: Option<SolvedValue>) -> bool {
        answer == timelines_answer(input)
    }

    fn part1(&self, input: &str) -> (res: Option<SolvedValue>) {
        match parse_manifold(input.as_bytes()).number_of_splits() {
            Some(splits) => solved(splits),
            None => None,
        }
    }

    fn part2(&self, input: &str) -> (res: Option<SolvedValue>) {
        match parse_manifold(input.as_bytes()).number_of_timeline_splits() {
            Some(timelines) => solved(timelines),
            None => None,
        }
    }
}

} // verus!
