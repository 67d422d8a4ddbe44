//! Day 9: red tiles on a floor, the corners of a loop of red and green
//! tiles.
//!
//! Part one asks for the largest rectangle with two red tiles as opposite
//! corners; part two for the largest such rectangle that lies within the
//! loop.

use vstd::prelude::*;
use vstd::string::StringSliceAdditionalSpecFns;
use crate::grid::{
    in_rect, inside, lemma_reached_same_wall, reachable, reached, Grid,
};
use crate::solution::{Solution, SolvedValue};
use crate::text::{halves, lines, lines_of, number_of, parse_u64, split_once, views};

verus! {

/// A tile, or a place on the compressed floor.
#[derive(Debug, Copy, Clone, PartialEq, Eq, Structural)]
pub struct Position {
    pub x: usize,
    pub y: usize,
}

/// The coordinates that occur, each once and in ascending order: a
/// coordinate is compressed to its place among them.
#[derive(Debug)]
pub struct Compressor {
    pub xs: Vec<usize>,
    pub ys: Vec<usize>,
}

/// The numbers ascend, none twice.
pub open spec fn ascending(s: Seq<usize>) -> bool {
    forall|i: int, j: int| 0 <= i < j < s.len() ==> s[i] < s[j]
}

/// The number written by `s`, where it fits the machine word.
pub open spec fn coordinate_of(s: Seq<u8>) -> Option<usize> {
    match number_of(s) {
        Some(v) => if v <= usize::MAX {
            Some(v as usize)
        } else {
            None
        },
        None => None,
    }
}

/// The tile written by a line `x,y`. `None` for any other line.
pub open spec fn tile_of(line: Seq<u8>) -> Option<Position> {
    match halves(line, 44) {
        Some(parts) => match (coordinate_of(parts.0), coordinate_of(parts.1)) {
            (Some(x), Some(y)) => Some(Position { x, y }),
            _ => None,
        },
        None => None,
    }
}

/// The tiles written by the lines that write one.
pub open spec fn tiles_of(lines: Seq<Seq<u8>>) -> Seq<Position>
    decreases lines.len(),
{
    if lines.len() == 0 {
        Seq::empty()
    } else {
        match tile_of(lines.last()) {
            Some(tile) => tiles_of(lines.drop_last()).push(tile),
            None => tiles_of(lines.drop_last()),
        }
    }
}

/// Reads one coordinate.
pub fn parse_coordinate(bytes: &[u8]) -> (r: Option<usize>)
    ensures
        r == coordinate_of(bytes@),
{
    match parse_u64(bytes) {
        Some(v) => if v <= usize::MAX as u64 {
            Some(v as usize)
        } else {
            None
        },
        None => None,
    }
}

/// Reads the tiles of an input text, passing over malformed lines.
pub fn parse_input(input: &[u8]) -> (tiles: Vec<Position>)
    ensures
        tiles@ == tiles_of(lines_of(input@)),
{
    let rows = lines(input);
    let mut tiles: Vec<Position> = Vec::new();
    let mut i: usize = 0;
    while i < rows.len()
        invariant
            i <= rows.len(),
            views(rows@) == lines_of(input@),
            tiles@ == tiles_of(views(rows@).take(i as int)),
        decreases rows.len() - i,
    {
        proof {
            let upto = views(rows@).take(i + 1);
            assert(upto.drop_last() == views(rows@).take(i as int));
            assert(upto.last() == rows[i as int]@);
        }
        match split_once(rows[i].as_slice(), 44) {
            Some((a, b)) => {
                match (parse_coordinate(a.as_slice()), parse_coordinate(b.as_slice())) {
                    (Some(x), Some(y)) => {
                        tiles.push(Position { x, y });
                    },
                    _ => {},
                }
            },
            None => {},
        }
        i = i + 1;
    }
    proof {
        assert(views(rows@).take(rows.len() as int) == views(rows@));
    }
    tiles
}

/// Puts `x` in its place among ascending numbers, unless it is there.
pub fn insert_sorted(v: &mut Vec<usize>, x: usize)
    requires
        ascending(old(v)@),
    ensures
        ascending(final(v)@),
        forall|y: usize| final(v)@.contains(y) <==> old(v)@.contains(y) || y == x,
{
    let mut i: usize = 0;
    while i < v.len() && v[i] < x
        invariant
            i <= v.len(),
            v@ == old(v)@,
            ascending(v@),
            forall|k: int| 0 <= k < i ==> v@[k] < x,
        decreases v.len() - i,
    {
        i = i + 1;
    }
    if i < v.len() && v[i] == x {
        proof {
            assert(v@.contains(x));
        }
        return ;
    }
    let ghost before = v@;
    v.insert(i, x);
    proof {
        assert forall|a: int, b: int| 0 <= a < b < v@.len() implies v@[a] < v@[b] by {
            if a < i && b > i {
                assert(before[a] < before[b - 1] || b - 1 == a || true);
                if b - 1 >= i {
                    assert(x < before[i as int] || i == before.len());
                }
            }
        }
        assert forall|y: usize| v@.contains(y) <==> before.contains(y) || y == x by {
            if v@.contains(y) {
                let k = choose|k: int| 0 <= k < v@.len() && v@[k] == y;
                if k < i {
                    assert(before[k] == y);
                } else if k > i {
                    assert(before[k - 1] == y);
                }
            }
            if before.contains(y) {
                let k = choose|k: int| 0 <= k < before.len() && before[k] == y;
                if k < i {
                    assert(v@[k] == y);
                } else {
                    assert(v@[k + 1] == y);
                }
            }
            if y == x {
                assert(v@[i as int] == x);
            }
        }
    }
}

/// Finds the place of `x` among ascending numbers.
pub fn position_in(v: &Vec<usize>, x: usize) -> (r: Option<usize>)
    requires
        ascending(v@),
    ensures
        match r {
            Some(i) => i < v@.len() && v@[i as int] == x,
            None => !v@.contains(x),
        },
{
    let mut lo: usize = 0;
    let mut hi: usize = v.len();
    while lo < hi
        invariant
            lo <= hi <= v.len(),
            ascending(v@),
            forall|k: int| 0 <= k < lo ==> v@[k] < x,
            forall|k: int| hi <= k < v@.len() ==> v@[k] > x,
        decreases hi - lo,
    {
        let mid: usize = lo + (hi - lo) / 2;
        if v[mid] == x {
            return Some(mid);
        } else if v[mid] < x {
            lo = mid + 1;
        } else {
            hi = mid;
        }
    }
    None
}

/// The xs of a compressor are the x coordinates of the tiles, and the ys
/// the y coordinates.
pub open spec fn scales(xs: Seq<usize>, ys: Seq<usize>, tiles: Seq<Position>) -> bool {
    &&& ascending(xs)
    &&& ascending(ys)
    &&& forall|v: usize| xs.contains(v) <==> exists|i: int| 0 <= i < tiles.len() && (#[trigger] tiles[i]).x == v
    &&& forall|v: usize| ys.contains(v) <==> exists|i: int| 0 <= i < tiles.len() && (#[trigger] tiles[i]).y == v
}

/// The places `small` are the tiles `tiles`, compressed.
pub open spec fn compresses(
    xs: Seq<usize>,
    ys: Seq<usize>,
    tiles: Seq<Position>,
    small: Seq<Position>,
) -> bool {
    &&& small.len() == tiles.len()
    &&& forall|i: int|
        0 <= i < small.len() ==> {
            &&& (#[trigger] small[i]).x < xs.len()
            &&& small[i].y < ys.len()
            &&& xs[small[i].x as int] == tiles[i].x
            &&& ys[small[i].y as int] == tiles[i].y
        }
}

impl Compressor {
    /// The compressor's invariant: its coordinates ascend.
    pub open spec fn wf(&self) -> bool {
        ascending(self.xs@) && ascending(self.ys@)
    }

    /// The compressor of the given tiles.
    pub fn new(corners: &[Position]) -> (compressor: Compressor)
        ensures
            compressor.wf(),
            scales(compressor.xs@, compressor.ys@, corners@),
    {
        let mut compressed_x: Vec<usize> = Vec::new();
        let mut compressed_y: Vec<usize> = Vec::new();
        let mut i: usize = 0;
        while i < corners.len()
            invariant
                i <= corners.len(),
                scales(compressed_x@, compressed_y@, corners@.take(i as int)),
            decreases corners.len() - i,
        {
            let ghost seen = corners@.take(i as int);
            let ghost more = corners@.take(i + 1);
            let ghost old_x = compressed_x@;
            let ghost old_y = compressed_y@;
            let corner: Position = corners[i];
            insert_sorted(&mut compressed_x, corner.x);
            insert_sorted(&mut compressed_y, corner.y);
            proof {
                assert(more == seen.push(corner));
                assert forall|v: usize| compressed_x@.contains(v) <==> exists|k: int|
                    0 <= k < more.len() && (#[trigger] more[k]).x == v by {
                    if old_x.contains(v) {
                        let k = choose|k: int| 0 <= k < seen.len() && (#[trigger] seen[k]).x == v;
                        assert(more[k].x == v);
                    }
                    if v == corner.x {
                        assert(more[i as int].x == v);
                    }
                    if exists|k: int| 0 <= k < more.len() && (#[trigger] more[k]).x == v {
                        let k = choose|k: int| 0 <= k < more.len() && (#[trigger] more[k]).x == v;
                        if k < i {
                            assert(seen[k].x == v);
                        }
                    }
                }
                assert forall|v: usize| compressed_y@.contains(v) <==> exists|k: int|
                    0 <= k < more.len() && (#[trigger] more[k]).y == v by {
                    if old_y.contains(v) {
                        let k = choose|k: int| 0 <= k < seen.len() && (#[trigger] seen[k]).y == v;
                        assert(more[k].y == v);
                    }
                    if v == corner.y {
                        assert(more[i as int].y == v);
                    }
                    if exists|k: int| 0 <= k < more.len() && (#[trigger] more[k]).y == v {
                        let k = choose|k: int| 0 <= k < more.len() && (#[trigger] more[k]).y == v;
                        if k < i {
                            assert(seen[k].y == v);
                        }
                    }
                }
            }
            i = i + 1;
        }
        proof {
            assert(corners@.take(corners.len() as int) == corners@);
        }
        Compressor { xs: compressed_x, ys: compressed_y }
    }

    /// The place of `x` among the xs.
    pub fn compress_x(&self, x: usize) -> (r: Option<usize>)
        requires
            self.wf(),
        ensures
            match r {
                Some(i) => i < self.xs@.len() && self.xs@[i as int] == x,
                None => !self.xs@.contains(x),
            },
    {
        position_in(&self.xs, x)
    }

    /// The place of `y` among the ys.
    pub fn compress_y(&self, y: usize) -> (r: Option<usize>)
        requires
            self.wf(),
        ensures
            match r {
                Some(i) => i < self.ys@.len() && self.ys@[i as int] == y,
                None => !self.ys@.contains(y),
            },
    {
        position_in(&self.ys, y)
    }

    /// The compressed place of a tile. `None` where one of its coordinates
    /// does not occur.
    pub fn compress(&self, pos: &Position) -> (r: Option<Position>)
        requires
            self.wf(),
        ensures
            match r {
                Some(small) => {
                    &&& small.x < self.xs@.len()
                    &&& small.y < self.ys@.len()
                    &&& self.xs@[small.x as int] == pos.x
                    &&& self.ys@[small.y as int] == pos.y
                },
                None => !self.xs@.contains(pos.x) || !self.ys@.contains(pos.y),
            },
    {
        match (self.compress_x(pos.x), self.compress_y(pos.y)) {
            (Some(x), Some(y)) => Some(Position { x, y }),
            _ => None,
        }
    }

    /// The x coordinate at the place `x`.
    pub fn decompress_x(&self, x: usize) -> (r: Option<usize>)
        ensures
            r == if x < self.xs@.len() {
                Some(self.xs@[x as int])
            } else {
                None
            },
    {
        if x < self.xs.len() {
            Some(self.xs[x])
        } else {
            None
        }
    }

    /// The y coordinate at the place `y`.
    pub fn decompress_y(&self, y: usize) -> (r: Option<usize>)
        ensures
            r == if y < self.ys@.len() {
                Some(self.ys@[y as int])
            } else {
                None
            },
    {
        if y < self.ys.len() {
            Some(self.ys[y])
        } else {
            None
        }
    }

    /// The tile at a compressed place. `None` where the place lies beyond
    /// the coordinates.
    pub fn decompress(&self, pos: &Position) -> (r: Option<Position>)
        ensures
            r == if pos.x < self.xs@.len() && pos.y < self.ys@.len() {
                Some(Position { x: self.xs@[pos.x as int], y: self.ys@[pos.y as int] })
            } else {
                None
            },
    {
        match (self.decompress_x(pos.x), self.decompress_y(pos.y)) {
            (Some(x), Some(y)) => Some(Position { x, y }),
            _ => None,
        }
    }
}

/// Among ascending numbers a number stands at one place only.
pub proof fn lemma_ascending_unique(s: Seq<usize>, i: int, j: int)
    requires
        ascending(s),
        0 <= i < s.len(),
        0 <= j < s.len(),
        s[i] == s[j],
    ensures
        i == j,
{
    if i < j {
        assert(s[i] < s[j]);
    } else if j < i {
        assert(s[j] < s[i]);
    }
}

/// The distance between two coordinates.
pub open spec fn gap(a: usize, b: usize) -> nat {
    if a >= b {
        (a - b) as nat
    } else {
        (b - a) as nat
    }
}

/// The number of tiles of the rectangle with `a` and `b` as opposite
/// corners.
pub open spec fn area(a: Position, b: Position) -> nat {
    (gap(a.x, b.x) + 1) * (gap(a.y, b.y) + 1)
}

/// The area, or the greatest 128-bit number where it is more.
pub open spec fn capped_area(a: Position, b: Position) -> u128 {
    if area(a, b) > u128::MAX {
        u128::MAX
    } else {
        area(a, b) as u128
    }
}

/// The number of tiles of the rectangle with `a` and `b` as opposite
/// corners, capped at the greatest 128-bit number.
pub fn rectangle_area(a: &Position, b: &Position) -> (r: u128)
    ensures
        r == capped_area(*a, *b),
{
    let dx: usize = if a.x >= b.x {
        a.x - b.x
    } else {
        b.x - a.x
    };
    let dy: usize = if a.y >= b.y {
        a.y - b.y
    } else {
        b.y - a.y
    };
    let w: u128 = dx as u128 + 1;
    let h: u128 = dy as u128 + 1;
    match w.checked_mul(h) {
        Some(area) => area,
        None => u128::MAX,
    }
}

/// `m` is the area of the largest rectangle with two of the tiles as
/// opposite corners, or zero where there are fewer than two tiles.
pub open spec fn largest(tiles: Seq<Position>, m: u128) -> bool {
    &&& forall|i: int, j: int|
        0 <= i < j < tiles.len() ==> capped_area(#[trigger] tiles[i], #[trigger] tiles[j]) <= m
    &&& (m == 0 || exists|i: int, j: int|
        0 <= i < j < tiles.len() && capped_area(#[trigger] tiles[i], #[trigger] tiles[j]) == m)
}

/// Finds the area of the largest rectangle with two of the tiles as
/// opposite corners.
pub fn largest_rectangle(corners: &[Position]) -> (max_area: u128)
    ensures
        largest(corners@, max_area),
{
    let mut max_area: u128 = 0;
    let mut i: usize = 0;
    while i < corners.len()
        invariant
            i <= corners.len(),
            forall|a: int, b: int|
                0 <= a < b < corners@.len() && a < i ==> capped_area(
                    #[trigger] corners@[a],
                    #[trigger] corners@[b],
                ) <= max_area,
            max_area == 0 || exists|a: int, b: int|
                0 <= a < b < corners@.len() && capped_area(
                    #[trigger] corners@[a],
                    #[trigger] corners@[b],
                ) == max_area,
        decreases corners.len() - i,
    {
        let mut j: usize = i + 1;
        while j < corners.len()
            invariant
                i < corners.len(),
                i < j <= corners.len(),
                forall|a: int, b: int|
                    0 <= a < b < corners@.len() && (a < i || (a == i && b < j)) ==> capped_area(
                        #[trigger] corners@[a],
                        #[trigger] corners@[b],
                    ) <= max_area,
                max_area == 0 || exists|a: int, b: int|
                    0 <= a < b < corners@.len() && capped_area(
                        #[trigger] corners@[a],
                        #[trigger] corners@[b],
                    ) == max_area,
            decreases corners.len() - j,
        {
            let area = rectangle_area(&corners[i], &corners[j]);
            if area > max_area {
                max_area = area;
                proof {
                    assert(0 <= i < j < corners@.len() && capped_area(
                        corners@[i as int],
                        corners@[j as int],
                    ) == max_area);
                }
            }
            j = j + 1;
        }
        i = i + 1;
    }
    max_area
}

/// An area as an answer: `None` where it does not fit the machine word.
pub open spec fn area_answer(m: u128) -> Option<SolvedValue> {
    if m <= usize::MAX {
        Some(SolvedValue::Usize(m as usize))
    } else {
        None
    }
}

/// Turns an area into an answer.
pub fn answer_area(m: u128) -> (r: Option<SolvedValue>)
    ensures
        r == area_answer(m),
{
    if m <= usize::MAX as u128 {
        Some(SolvedValue::Usize(m as usize))
    } else {
        None
    }
}

/// The position after `k` in a loop of `n` positions.
pub open spec fn after(k: int, n: int) -> int {
    if k + 1 < n {
        k + 1
    } else {
        0
    }
}

/// The place `(r, c)` lies on one of the first `k_end` edges of the loop:
/// on the straight run from a corner to the next.
pub open spec fn on_edges(small: Seq<Position>, k_end: nat, r: int, c: int) -> bool
    decreases k_end,
{
    if k_end == 0 {
        false
    } else {
        let from = small[k_end - 1];
        let to = small[after(k_end - 1, small.len() as int)];
        on_edges(small, (k_end - 1) as nat, r, c) || in_rect(
            from.y as int,
            from.x as int,
            to.y as int,
            to.x as int,
            r,
            c,
        )
    }
}

/// The loop as a wall: the places on its edges.
pub open spec fn outline(small: Seq<Position>) -> spec_fn(int, int) -> bool {
    |r: int, c: int| on_edges(small, small.len(), r, c)
}

/// The place `(r, c)` of the compressed floor counts as within the loop:
/// it lies on the loop, or it is where the flood starts, a quarter down and
/// halfway across, or the flood reaches it without crossing the loop.
pub open spec fn within_loop(small: Seq<Position>, rows: int, cols: int, r: int, c: int) -> bool {
    inside(rows, cols, r, c) && (on_edges(small, small.len(), r, c) || reachable(
        outline(small),
        rows,
        cols,
        rows / 4,
        cols / 2,
        r,
        c,
    ))
}

/// The place `p` lies strictly between `a` and `b` in both directions.
pub open spec fn strictly_between(p: Position, a: Position, b: Position) -> bool {
    &&& (a.x < p.x < b.x || b.x < p.x < a.x)
    &&& (a.y < p.y < b.y || b.y < p.y < a.y)
}

/// The rectangle between the corners `i` and `j` counts: all of it lies
/// within the loop, and no corner lies strictly inside it.
pub open spec fn eligible(small: Seq<Position>, rows: int, cols: int, i: int, j: int) -> bool {
    &&& forall|r: int, c: int|
        in_rect(small[i].y as int, small[i].x as int, small[j].y as int, small[j].x as int, r, c)
            ==> within_loop(small, rows, cols, r, c)
    &&& forall|k: int| 0 <= k < small.len() ==> !strictly_between(#[trigger] small[k], small[i], small[j])
}

/// `m` is the area of the largest rectangle between two tiles that
/// counts, or zero where none counts.
pub open spec fn largest_within(
    tiles: Seq<Position>,
    small: Seq<Position>,
    rows: int,
    cols: int,
    m: u128,
) -> bool {
    &&& forall|i: int, j: int|
        0 <= i < j < tiles.len() && eligible(small, rows, cols, i, j) ==> capped_area(
            #[trigger] tiles[i],
            #[trigger] tiles[j],
        ) <= m
    &&& (m == 0 || exists|i: int, j: int|
        0 <= i < j < tiles.len() && eligible(small, rows, cols, i, j) && capped_area(
            #[trigger] tiles[i],
            #[trigger] tiles[j],
        ) == m)
}

/// Whether no corner lies strictly inside the rectangle between the
/// corners `i` and `j`.
pub fn no_corner_between(small: &Vec<Position>, i: usize, j: usize) -> (r: bool)
    requires
        i < small@.len(),
        j < small@.len(),
    ensures
        r == (forall|k: int|
            0 <= k < small@.len() ==> !strictly_between(
                #[trigger] small@[k],
                small@[i as int],
                small@[j as int],
            )),
{
    let a: Position = small[i];
    let b: Position = small[j];
    let mut k: usize = 0;
    while k < small.len()
        invariant
            k <= small.len(),
            a == small@[i as int],
            b == small@[j as int],
            forall|m: int| 0 <= m < k ==> !strictly_between(#[trigger] small@[m], a, b),
        decreases small.len() - k,
    {
        let p: Position = small[k];
        let between_x: bool = (a.x < p.x && p.x < b.x) || (b.x < p.x && p.x < a.x);
        let between_y: bool = (a.y < p.y && p.y < b.y) || (b.y < p.y && p.y < a.y);
        if between_x && between_y {
            proof {
                assert(strictly_between(small@[k as int], a, b));
            }
            return false;
        }
        k = k + 1;
    }
    true
}

/// The largest area is one number.
pub proof fn lemma_largest_unique(tiles: Seq<Position>, first: u128, second: u128)
    requires
        largest(tiles, first),
        largest(tiles, second),
    ensures
        first == second,
{
    if first != 0 {
        let (i, j) = choose|i: int, j: int|
            0 <= i < j < tiles.len() && capped_area(#[trigger] tiles[i], #[trigger] tiles[j])
                == first;
        assert(capped_area(tiles[i], tiles[j]) <= second);
    }
    if second != 0 {
        let (i, j) = choose|i: int, j: int|
            0 <= i < j < tiles.len() && capped_area(#[trigger] tiles[i], #[trigger] tiles[j])
                == second;
        assert(capped_area(tiles[i], tiles[j]) <= first);
    }
}

/// Compressing a tile and decompressing the place gives the tile again,
/// and a place comes back from its tile.
pub proof fn lemma_round_trip(xs: Seq<usize>, ys: Seq<usize>, tile: Position, small: Position, other: Position)
    requires
        ascending(xs),
        ascending(ys),
        small.x < xs.len(),
        small.y < ys.len(),
        other.x < xs.len(),
        other.y < ys.len(),
        xs[small.x as int] == tile.x,
        ys[small.y as int] == tile.y,
        xs[other.x as int] == tile.x,
        ys[other.y as int] == tile.y,
    ensures
        small == other,
{
    lemma_ascending_unique(xs, small.x as int, other.x as int);
    lemma_ascending_unique(ys, small.y as int, other.y as int);
}

/// What the search within the loop may find for the given tiles: nothing
/// where there is no tile or the compressed floor has more places than the
/// machine word counts, else the largest area that counts.
pub open spec fn found_within(tiles: Seq<Position>, found: Option<u128>) -> bool {
    if tiles.len() == 0 {
        found.is_none()
    } else {
        exists|xs: Seq<usize>, ys: Seq<usize>, small: Seq<Position>|
            {
                &&& #[trigger] scales(xs, ys, tiles)
                &&& #[trigger] compresses(xs, ys, tiles, small)
                &&& match found {
                    Some(m) => ys.len() * xs.len() <= usize::MAX && largest_within(
                        tiles,
                        small,
                        ys.len() as int,
                        xs.len() as int,
                        m,
                    ),
                    None => ys.len() * xs.len() > usize::MAX,
                }
            }
    }
}

/// Whether the rectangle between the corners `i` and `j` lies within the
/// loop, with no corner strictly inside it.
fn rectangle_counts(grid: &Grid, small: &Vec<Position>, i: usize, j: usize) -> (counts: bool)
    requires
        grid.wf(),
        grid.rows() <= usize::MAX,
        grid.cols() <= usize::MAX,
        i < small@.len(),
        j < small@.len(),
        small@[i as int].y < grid.rows() && small@[i as int].x < grid.cols(),
        small@[j as int].y < grid.rows() && small@[j as int].x < grid.cols(),
        forall|r: int, c: int|
            grid.at(r, c) == within_loop(small@, grid.rows() as int, grid.cols() as int, r, c),
    ensures
        counts == eligible(small@, grid.rows() as int, grid.cols() as int, i as int, j as int),
{
    let corner1: Position = small[i];
    let corner2: Position = small[j];
    let full: bool = grid.rect_full(corner1.y, corner1.x, corner2.y, corner2.x);
    let clear: bool = no_corner_between(small, i, j);
    proof {
        let rows = grid.rows() as int;
        let cols = grid.cols() as int;
        let covered = forall|r: int, c: int|
            in_rect(
                small@[i as int].y as int,
                small@[i as int].x as int,
                small@[j as int].y as int,
                small@[j as int].x as int,
                r,
                c,
            ) ==> within_loop(small@, rows, cols, r, c);
        if full {
            assert forall|r: int, c: int|
                in_rect(
                    small@[i as int].y as int,
                    small@[i as int].x as int,
                    small@[j as int].y as int,
                    small@[j as int].x as int,
                    r,
                    c,
                ) implies within_loop(small@, rows, cols, r, c) by {
                assert(grid.at(r, c));
            }
        }
        if covered {
            assert forall|r: int, c: int|
                in_rect(
                    corner1.y as int,
                    corner1.x as int,
                    corner2.y as int,
                    corner2.x as int,
                    r,
                    c,
                ) implies grid.at(r, c) by {
                assert(within_loop(small@, rows, cols, r, c));
            }
        }
        assert(full == covered);
    }
    full && clear
}

/// Finds the area of the largest rectangle between two tiles that lies
/// within the loop of the tiles.
pub fn largest_within_loop(corners: &[Position]) -> (found: Option<u128>)
    ensures
        found_within(corners@, found),
{
    let n: usize = corners.len();
    if n == 0 {
        return None;
    }
    let compressor = Compressor::new(corners);
    let ghost xs = compressor.xs@;
    let ghost ys = compressor.ys@;
    let mut compressed_corners: Vec<Position> = Vec::new();
    let mut i: usize = 0;
    while i < n
        invariant
            i <= n,
            n == corners@.len(),
            xs == compressor.xs@,
            ys == compressor.ys@,
            compressor.wf(),
            scales(xs, ys, corners@),
            compresses(xs, ys, corners@.take(i as int), compressed_corners@),
        decreases n - i,
    {
        let ghost before = compressed_corners@;
        match compressor.compress(&corners[i]) {
            Some(small) => {
                compressed_corners.push(small);
            },
            None => {
                proof {
                    assert(corners@[i as int].x == corners@[i as int].x);
                    assert(xs.contains(corners@[i as int].x));
                    assert(ys.contains(corners@[i as int].y));
                }
                return None;
            },
        }
        proof {
            let more = corners@.take(i + 1);
            assert forall|k: int| 0 <= k < compressed_corners@.len() implies {
                &&& (#[trigger] compressed_corners@[k]).x < xs.len()
                &&& compressed_corners@[k].y < ys.len()
                &&& xs[compressed_corners@[k].x as int] == more[k].x
                &&& ys[compressed_corners@[k].y as int] == more[k].y
            } by {
                if k < i {
                    assert(compressed_corners@[k] == before[k]);
                    assert(more[k] == corners@.take(i as int)[k]);
                }
            }
        }
        i = i + 1;
    }
    proof {
        assert(corners@.take(n as int) == corners@);
    }
    let ghost small = compressed_corners@;
    let rows: usize = compressor.ys.len();
    let cols: usize = compressor.xs.len();
    let mut grid = match Grid::new(rows, cols) {
        Some(grid) => grid,
        None => {
            return None;
        },
    };
    proof {
        assert(small[0].y < rows && small[0].x < cols);
    }
    let mut k: usize = 0;
    while k < n
        invariant
            k <= n,
            n == small.len(),
            n >= 1,
            small == compressed_corners@,
            compresses(xs, ys, corners@, small),
            rows == ys.len(),
            cols == xs.len(),
            grid.wf(),
            grid.rows() == rows,
            grid.cols() == cols,
            forall|r: int, c: int| grid.at(r, c) == on_edges(small, k as nat, r, c),
        decreases n - k,
    {
        let next: usize = if k + 1 < n {
            k + 1
        } else {
            0
        };
        let from: Position = compressed_corners[k];
        let to: Position = compressed_corners[next];
        proof {
            assert(small[k as int].y < rows && small[k as int].x < cols);
            assert(small[next as int].y < rows && small[next as int].x < cols);
            assert(next == after(k as int, n as int));
        }
        grid.fill_rect(from.y, from.x, to.y, to.x);
        k = k + 1;
    }
    let ghost walls = grid;
    grid.flood(rows / 4, cols / 2);
    proof {
        let sr: int = (rows / 4) as int;
        let sc: int = (cols / 2) as int;
        assert forall|r: int, c: int|
            grid.at(r, c) == within_loop(small, rows as int, cols as int, r, c) by {
            walls.lemma_at_inside(r, c);
            grid.lemma_at_inside(r, c);
            assert forall|k: nat|
                reached(walls.marks(), rows as int, cols as int, sr, sc, r, c, k)
                    == reached(
                    outline(small),
                    rows as int,
                    cols as int,
                    sr,
                    sc,
                    r,
                    c,
                    k,
                ) by {
                lemma_reached_same_wall(
                    walls.marks(),
                    outline(small),
                    rows as int,
                    cols as int,
                    sr,
                    sc,
                    r,
                    c,
                    k,
                );
            }
            if reachable(walls.marks(), rows as int, cols as int, sr, sc, r, c) {
                let k = choose|k: nat|
                    reached(walls.marks(), rows as int, cols as int, sr, sc, r, c, k);
                assert(reached(
                    outline(small),
                    rows as int,
                    cols as int,
                    sr,
                    sc,
                    r,
                    c,
                    k,
                ));
            }
            if reachable(outline(small), rows as int, cols as int, sr, sc, r, c) {
                let k = choose|k: nat|
                    reached(
                        outline(small),
                        rows as int,
                        cols as int,
                        sr,
                        sc,
                        r,
                        c,
                        k,
                    );
                assert(reached(
                    walls.marks(),
                    rows as int,
                    cols as int,
                    sr,
                    sc,
                    r,
                    c,
                    k,
                ));
            }
        }
    }
    let mut max_area: u128 = 0;
    let mut a: usize = 0;
    while a < n
        invariant
            a <= n,
            n == small.len(),
            forall|k: int| 0 <= k < n ==> (#[trigger] small[k]).y < rows && small[k].x < cols,
            n == corners@.len(),
            small == compressed_corners@,
            compresses(xs, ys, corners@, small),
            rows == ys.len(),
            cols == xs.len(),
            grid.wf(),
            grid.rows() == rows,
            grid.cols() == cols,
            forall|r: int, c: int|
                grid.at(r, c) == within_loop(small, rows as int, cols as int, r, c),
            forall|i: int, j: int|
                0 <= i < j < n && i < a && eligible(small, rows as int, cols as int, i, j)
                    ==> capped_area(#[trigger] corners@[i], #[trigger] corners@[j]) <= max_area,
            max_area == 0 || exists|i: int, j: int|
                0 <= i < j < n && eligible(small, rows as int, cols as int, i, j) && capped_area(
                    #[trigger] corners@[i],
                    #[trigger] corners@[j],
                ) == max_area,
        decreases n - a,
    {
        let mut b: usize = a + 1;
        while b < n
            invariant
                a < n,
                a < b <= n,
                n == small.len(),
                forall|k: int|
                    0 <= k < n ==> (#[trigger] small[k]).y < rows && small[k].x < cols,
                n == corners@.len(),
                small == compressed_corners@,
                compresses(xs, ys, corners@, small),
                rows == ys.len(),
                cols == xs.len(),
                grid.wf(),
                grid.rows() == rows,
                grid.cols() == cols,
                forall|r: int, c: int|
                    grid.at(r, c) == within_loop(small, rows as int, cols as int, r, c),
                forall|i: int, j: int|
                    0 <= i < j < n && (i < a || (i == a && j < b)) && eligible(
                        small,
                        rows as int,
                        cols as int,
                        i,
                        j,
                    ) ==> capped_area(#[trigger] corners@[i], #[trigger] corners@[j]) <= max_area,
                max_area == 0 || exists|i: int, j: int|
                    0 <= i < j < n && eligible(small, rows as int, cols as int, i, j)
                        && capped_area(#[trigger] corners@[i], #[trigger] corners@[j]) == max_area,
            decreases n - b,
        {
            let area = rectangle_area(&corners[a], &corners[b]);
            let counts: bool = rectangle_counts(&grid, &compressed_corners, a, b);
            if counts && area > max_area {
                max_area = area;
                proof {
                    assert(0 <= a < b < n && eligible(
                        small,
                        rows as int,
                        cols as int,
                        a as int,
                        b as int,
                    ) && capped_area(corners@[a as int], corners@[b as int]) == max_area);
                }
            }
            b = b + 1;
        }
        a = a + 1;
    }
    proof {
        assert(scales(xs, ys, corners@) && compresses(xs, ys, corners@, small));
        assert(largest_within(corners@, small, ys.len() as int, xs.len() as int, max_area));
    }
    Some(max_area)
}

/// What part one may answer on the tiles.
pub open spec fn rectangle_answers(tiles: Seq<Position>, answer: Option<SolvedValue>) -> bool {
    exists|m: u128| #[trigger] largest(tiles, m) && answer == area_answer(m)
}

/// What part two may answer on the tiles.
pub open spec fn loop_answers(tiles: Seq<Position>, answer: Option<SolvedValue>) -> bool {
    exists|found: Option<u128>|
        #[trigger] found_within(tiles, found) && answer == match found {
            Some(m) => area_answer(m),
            None => None,
        }
}

pub struct Day;

impl Solution for Day {
    open spec fn part1_answers(&self, input: Seq<u8>, answer: Option<SolvedValue>) -> bool {
        rectangle_answers(tiles_of(lines_of(input)), answer)
    }

    open spec fn part2_answers(&self, input: Seq<u8>, answer: Option<SolvedValue>) -> bool {
        loop_answers(tiles_of(lines_of(input)), answer)
    }

    fn part1(&self, input: &str) -> (res: Option<SolvedValue>) {
        let corners = parse_input(input.as_bytes());
        let max_area = largest_rectangle(corners.as_slice());
        answer_area(max_area)
    }

    fn part2(&self, input: &str) -> (res: Option<SolvedValue>) {
        let corners = parse_input(input.as_bytes());
        match largest_within_loop(corners.as_slice()) {
            Some(max_area) => answer_area(max_area),
            None => None,
        }
    }
}

} // verus!
