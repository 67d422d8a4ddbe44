//! A rectangular grid of marks, with the filling of rectangles and the
//! flooding of a region.

use vstd::prelude::*;

verus! {

/// A grid of `rows` by `cols` places, each marked or not.
pub struct Grid {
    rows: usize,
    cols: usize,
    cells: Vec<bool>,
}

/// The place `(r, c)` lies in a grid of `rows` by `cols` places.
pub open spec fn inside(rows: int, cols: int, r: int, c: int) -> bool {
    0 <= r < rows && 0 <= c < cols
}

/// The place `(r, c)` lies in the rectangle between the rows `r0` and `r1`
/// and the columns `c0` and `c1`, whichever way round they are given.
pub open spec fn in_rect(r0: int, c0: int, r1: int, c1: int, r: int, c: int) -> bool {
    &&& (r0 <= r <= r1 || r1 <= r <= r0)
    &&& (c0 <= c <= c1 || c1 <= c <= c0)
}

/// The place `(r, c)` is reached from `(sr, sc)` in exactly `k` steps, up,
/// down, left or right, each to a place of the grid that `wall` does not
/// hold.
pub open spec fn reached(
    wall: spec_fn(int, int) -> bool,
    rows: int,
    cols: int,
    sr: int,
    sc: int,
    r: int,
    c: int,
    k: nat,
) -> bool
    decreases k,
{
    if k == 0 {
        r == sr && c == sc && inside(rows, cols, r, c)
    } else {
        &&& inside(rows, cols, r, c)
        &&& !wall(r, c)
        &&& (reached(wall, rows, cols, sr, sc, r - 1, c, (k - 1) as nat) || reached(
            wall,
            rows,
            cols,
            sr,
            sc,
            r + 1,
            c,
            (k - 1) as nat,
        ) || reached(wall, rows, cols, sr, sc, r, c - 1, (k - 1) as nat) || reached(
            wall,
            rows,
            cols,
            sr,
            sc,
            r,
            c + 1,
            (k - 1) as nat,
        ))
    }
}

/// The place `(r, c)` is reached from `(sr, sc)` in some number of steps.
pub open spec fn reachable(
    wall: spec_fn(int, int) -> bool,
    rows: int,
    cols: int,
    sr: int,
    sc: int,
    r: int,
    c: int,
) -> bool {
    exists|k: nat| reached(wall, rows, cols, sr, sc, r, c, k)
}

/// Two walls that hold the same places let the same places be reached.
pub proof fn lemma_reached_same_wall(
    first: spec_fn(int, int) -> bool,
    second: spec_fn(int, int) -> bool,
    rows: int,
    cols: int,
    sr: int,
    sc: int,
    r: int,
    c: int,
    k: nat,
)
    requires
        forall|a: int, b: int| inside(rows, cols, a, b) ==> first(a, b) == second(a, b),
    ensures
        reached(first, rows, cols, sr, sc, r, c, k) == reached(second, rows, cols, sr, sc, r, c, k),
    decreases k,
{
    if k > 0 {
        lemma_reached_same_wall(first, second, rows, cols, sr, sc, r - 1, c, (k - 1) as nat);
        lemma_reached_same_wall(first, second, rows, cols, sr, sc, r + 1, c, (k - 1) as nat);
        lemma_reached_same_wall(first, second, rows, cols, sr, sc, r, c - 1, (k - 1) as nat);
        lemma_reached_same_wall(first, second, rows, cols, sr, sc, r, c + 1, (k - 1) as nat);
    }
}

/// The number of places among the first `n` that are not marked.
pub open spec fn blanks(cells: Seq<bool>, n: nat) -> nat
    decreases n,
{
    if n == 0 {
        0
    } else {
        blanks(cells, (n - 1) as nat) + if cells[n - 1] {
            0nat
        } else {
            1nat
        }
    }
}

/// Marking a blank place leaves one blank fewer.
pub proof fn lemma_blanks_mark(cells: Seq<bool>, i: int, n: nat)
    requires
        0 <= i < cells.len(),
        n <= cells.len(),
        !cells[i],
    ensures
        blanks(cells.update(i, true), n) + (if i < n {
            1nat
        } else {
            0nat
        }) == blanks(cells, n),
    decreases n,
{
    if n > 0 {
        lemma_blanks_mark(cells, i, (n - 1) as nat);
    }
}

/// Where a place stands in the row-by-row order, and that no two places
/// stand at one position.
pub proof fn lemma_position(rows: int, cols: int, r: int, c: int)
    requires
        inside(rows, cols, r, c),
    ensures
        0 <= r * cols + c < rows * cols,
        (r * cols + c) / cols == r,
        (r * cols + c) % cols == c,
{
    assert(0 <= r * cols) by (nonlinear_arith)
        requires
            0 <= r,
            0 < cols,
    ;
    assert(r * cols + c < rows * cols) by (nonlinear_arith)
        requires
            0 <= r < rows,
            0 <= c < cols,
    ;
    assert((r * cols + c) / cols == r && (r * cols + c) % cols == c) by (nonlinear_arith)
        requires
            0 <= c < cols,
            0 <= r,
    ;
}

impl Grid {
    /// The number of rows.
    pub closed spec fn rows(&self) -> int {
        self.rows as int
    }

    /// The number of columns.
    pub closed spec fn cols(&self) -> int {
        self.cols as int
    }

    /// The grid's invariant: it holds a mark or none for every place.
    pub closed spec fn wf(&self) -> bool {
        self.cells@.len() == self.rows * self.cols
    }

    /// Whether the place `(r, c)` is marked. No place outside the grid is.
    pub closed spec fn at(&self, r: int, c: int) -> bool {
        inside(self.rows as int, self.cols as int, r, c) && self.cells@[r * self.cols + c]
    }

    /// Only places of the grid are marked.
    pub proof fn lemma_at_inside(&self, r: int, c: int)
        ensures
            self.at(r, c) ==> inside(self.rows(), self.cols(), r, c),
    {
    }

    /// The marks as a predicate on places.
    pub open spec fn marks(&self) -> spec_fn(int, int) -> bool {
        |r: int, c: int| self.at(r, c)
    }

    /// The number of places that are not marked.
    pub closed spec fn blank_count(&self) -> nat {
        blanks(self.cells@, self.cells@.len())
    }

    /// A grid of the given size without any mark. `None` where the number
    /// of places does not fit the machine word.
    pub fn new(rows: usize, cols: usize) -> (r: Option<Grid>)
        ensures
            match r {
                Some(grid) => {
                    &&& rows * cols <= usize::MAX
                    &&& grid.wf()
                    &&& grid.rows() == rows
                    &&& grid.cols() == cols
                    &&& forall|a: int, b: int| !grid.at(a, b)
                },
                None => rows * cols > usize::MAX,
            },
    {
        let size = match rows.checked_mul(cols) {
            Some(size) => size,
            None => {
                return None;
            },
        };
        let mut cells: Vec<bool> = Vec::new();
        let mut i: usize = 0;
        while i < size
            invariant
                i <= size,
                cells@.len() == i,
                forall|k: int| 0 <= k < i ==> !(#[trigger] cells@[k]),
            decreases size - i,
        {
            cells.push(false);
            i = i + 1;
        }
        let grid = Grid { rows, cols, cells };
        proof {
            assert forall|a: int, b: int| !grid.at(a, b) by {
                if inside(rows as int, cols as int, a, b) {
                    lemma_position(rows as int, cols as int, a, b);
                }
            }
        }
        Some(grid)
    }

    /// The number of rows.
    pub fn row_count(&self) -> (n: usize)
        ensures
            n == self.rows(),
    {
        self.rows
    }

    /// The number of columns.
    pub fn col_count(&self) -> (n: usize)
        ensures
            n == self.cols(),
    {
        self.cols
    }

    /// Whether the place `(r, c)` is marked.
    pub fn get(&self, r: usize, c: usize) -> (marked: bool)
        requires
            self.wf(),
        ensures
            marked == self.at(r as int, c as int),
    {
        if r < self.rows && c < self.cols {
            proof {
                lemma_position(self.rows as int, self.cols as int, r as int, c as int);
                assert(self.cells@.len() == self.cells.len());
            }
            self.cells[r * self.cols + c]
        } else {
            false
        }
    }

    /// Marks the place `(r, c)`.
    pub fn mark(&mut self, r: usize, c: usize)
        requires
            old(self).wf(),
            inside(old(self).rows(), old(self).cols(), r as int, c as int),
        ensures
            final(self).wf(),
            final(self).rows() == old(self).rows(),
            final(self).cols() == old(self).cols(),
            forall|a: int, b: int|
                final(self).at(a, b) == (old(self).at(a, b) || (a == r && b == c)),
            !old(self).at(r as int, c as int) ==> final(self).blank_count() + 1 == old(
                self,
            ).blank_count(),
            old(self).at(r as int, c as int) ==> final(self).blank_count() == old(
                self,
            ).blank_count(),
    {
        proof {
            lemma_position(self.rows as int, self.cols as int, r as int, c as int);
            assert(self.cells@.len() == self.cells.len());
        }
        let i: usize = r * self.cols + c;
        let ghost before = self.cells@;
        self.cells.set(i, true);
        proof {
            if !before[i as int] {
                lemma_blanks_mark(before, i as int, before.len());
            } else {
                assert(self.cells@ =~= before);
            }
            assert forall|a: int, b: int|
                self.at(a, b) == (old(self).at(a, b) || (a == r && b == c)) by {
                if inside(self.rows as int, self.cols as int, a, b) {
                    lemma_position(self.rows as int, self.cols as int, a, b);
                }
            }
        }
    }

    /// Marks every place of the rectangle between two places of the grid.
    pub fn fill_rect(&mut self, r0: usize, c0: usize, r1: usize, c1: usize)
        requires
            old(self).wf(),
            inside(old(self).rows(), old(self).cols(), r0 as int, c0 as int),
            inside(old(self).rows(), old(self).cols(), r1 as int, c1 as int),
        ensures
            final(self).wf(),
            final(self).rows() == old(self).rows(),
            final(self).cols() == old(self).cols(),
            forall|a: int, b: int|
                final(self).at(a, b) == (old(self).at(a, b) || in_rect(
                    r0 as int,
                    c0 as int,
                    r1 as int,
                    c1 as int,
                    a,
                    b,
                )),
    {
        let top: usize = if r0 <= r1 {
            r0
        } else {
            r1
        };
        let bottom: usize = if r0 <= r1 {
            r1
        } else {
            r0
        };
        let left: usize = if c0 <= c1 {
            c0
        } else {
            c1
        };
        let right: usize = if c0 <= c1 {
            c1
        } else {
            c0
        };
        let mut r: usize = top;
        while r <= bottom
            invariant
                top <= r <= bottom + 1,
                left <= right,
                self.wf(),
                self.rows() == old(self).rows(),
                self.cols() == old(self).cols(),
                inside(self.rows(), self.cols(), bottom as int, right as int),
                forall|a: int, b: int|
                    self.at(a, b) == (old(self).at(a, b) || (top <= a < r && left <= b <= right)),
            decreases bottom + 1 - r,
        {
            let mut c: usize = left;
            while c <= right
                invariant
                    top <= r <= bottom,
                    left <= c <= right + 1,
                    self.wf(),
                    self.rows() == old(self).rows(),
                    self.cols() == old(self).cols(),
                    inside(self.rows(), self.cols(), bottom as int, right as int),
                    forall|a: int, b: int|
                        self.at(a, b) == (old(self).at(a, b) || (top <= a < r && left <= b
                            <= right) || (a == r && left <= b < c)),
                decreases right + 1 - c,
            {
                self.mark(r, c);
                c = c + 1;
            }
            r = r + 1;
        }
    }

    /// Whether every place of the rectangle between two places is marked.
    pub fn rect_full(&self, r0: usize, c0: usize, r1: usize, c1: usize) -> (full: bool)
        requires
            self.wf(),
            r0 < usize::MAX,
            r1 < usize::MAX,
            c0 < usize::MAX,
            c1 < usize::MAX,
        ensures
            full == (forall|a: int, b: int|
                in_rect(r0 as int, c0 as int, r1 as int, c1 as int, a, b) ==> self.at(a, b)),
    {
        let top: usize = if r0 <= r1 {
            r0
        } else {
            r1
        };
        let bottom: usize = if r0 <= r1 {
            r1
        } else {
            r0
        };
        let left: usize = if c0 <= c1 {
            c0
        } else {
            c1
        };
        let right: usize = if c0 <= c1 {
            c1
        } else {
            c0
        };
        let mut r: usize = top;
        while r <= bottom
            invariant
                top <= r <= bottom + 1,
                bottom < usize::MAX,
                right < usize::MAX,
                left <= right,
                (top == r0 && bottom == r1) || (top == r1 && bottom == r0),
                (left == c0 && right == c1) || (left == c1 && right == c0),
                self.wf(),
                forall|a: int, b: int| top <= a < r && left <= b <= right ==> self.at(a, b),
            decreases bottom + 1 - r,
        {
            let mut c: usize = left;
            while c <= right
                invariant
                    top <= r <= bottom,
                    left <= c <= right + 1,
                    right < usize::MAX,
                    (top == r0 && bottom == r1) || (top == r1 && bottom == r0),
                    (left == c0 && right == c1) || (left == c1 && right == c0),
                    self.wf(),
                    forall|b: int| left <= b < c ==> self.at(r as int, b),
                decreases right + 1 - c,
            {
                if !self.get(r, c) {
                    proof {
                        assert(in_rect(
                            r0 as int,
                            c0 as int,
                            r1 as int,
                            c1 as int,
                            r as int,
                            c as int,
                        ));
                    }
                    return false;
                }
                c = c + 1;
            }
            r = r + 1;
        }
        true
    }

    /// Every place of the grid next to `(r, c)` is marked.
    pub open spec fn surrounded(&self, r: int, c: int) -> bool {
        &&& inside(self.rows(), self.cols(), r - 1, c) ==> self.at(r - 1, c)
        &&& inside(self.rows(), self.cols(), r + 1, c) ==> self.at(r + 1, c)
        &&& inside(self.rows(), self.cols(), r, c - 1) ==> self.at(r, c - 1)
        &&& inside(self.rows(), self.cols(), r, c + 1) ==> self.at(r, c + 1)
    }

    /// Floods the grid from the place `(sr, sc)`: marks that place and
    /// every place that can be reached from it by steps up, down, left and
    /// right over places that were not marked.
    pub fn flood(&mut self, sr: usize, sc: usize)
        requires
            old(self).wf(),
            inside(old(self).rows(), old(self).cols(), sr as int, sc as int),
        ensures
            final(self).wf(),
            final(self).rows() == old(self).rows(),
            final(self).cols() == old(self).cols(),
            forall|a: int, b: int|
                final(self).at(a, b) == (old(self).at(a, b) || reachable(
                    old(self).marks(),
                    old(self).rows(),
                    old(self).cols(),
                    sr as int,
                    sc as int,
                    a,
                    b,
                )),
    {
        let ghost wall = self.marks();
        let ghost rows = self.rows();
        let ghost cols = self.cols();
        self.mark(sr, sc);
        let mut stack: Vec<(usize, usize)> = Vec::new();
        stack.push((sr, sc));
        proof {
            assert(reached(wall, rows, cols, sr as int, sc as int, sr as int, sc as int, 0));
            assert(stack@[0] == (sr, sc));
            assert forall|a: int, b: int|
                self.at(a, b) && reachable(wall, rows, cols, sr as int, sc as int, a, b)
                    && !stack@.contains((a as usize, b as usize)) implies self.surrounded(
                a,
                b,
            ) by {
                let k = choose|k: nat| reached(wall, rows, cols, sr as int, sc as int, a, b, k);
                if k == 0 {
                    assert(stack@[0] == (a as usize, b as usize));
                }
            }
        }
        while stack.len() > 0
            invariant
                self.wf(),
                self.rows() == rows,
                self.cols() == cols,
                wall == old(self).marks(),
                rows == old(self).rows(),
                cols == old(self).cols(),
                inside(rows, cols, sr as int, sc as int),
                self.at(sr as int, sc as int),
                forall|a: int, b: int| wall(a, b) ==> self.at(a, b),
                forall|a: int, b: int|
                    self.at(a, b) ==> wall(a, b) || reachable(
                        wall,
                        rows,
                        cols,
                        sr as int,
                        sc as int,
                        a,
                        b,
                    ),
                forall|i: int|
                    0 <= i < stack@.len() ==> {
                        let p = #[trigger] stack@[i];
                        &&& inside(rows, cols, p.0 as int, p.1 as int)
                        &&& self.at(p.0 as int, p.1 as int)
                        &&& reachable(wall, rows, cols, sr as int, sc as int, p.0 as int, p.1 as int)
                    },
                forall|a: int, b: int|
                    self.at(a, b) && reachable(wall, rows, cols, sr as int, sc as int, a, b)
                        && !stack@.contains((a as usize, b as usize)) ==> self.surrounded(a, b),
            decreases self.blank_count(), stack@.len(),
        {
            let ghost before = *self;
            let ghost waiting = stack@;
            let place = stack.pop();
            let (ry, rx) = match place {
                Some(p) => p,
                None => (sr, sc),
            };
            proof {
                assert(waiting[waiting.len() - 1] == (ry, rx));
                assert(stack@ == waiting.drop_last());
            }
            let ghost k0 = choose|k: nat|
                reached(wall, rows, cols, sr as int, sc as int, ry as int, rx as int, k);
            let ghost g0 = *self;
            let ghost s0 = stack@;
            self.visit(&mut stack, ry as i128 - 1, rx as i128);
            let ghost g1 = *self;
            let ghost s1 = stack@;
            self.visit(&mut stack, ry as i128 + 1, rx as i128);
            let ghost g2 = *self;
            let ghost s2 = stack@;
            self.visit(&mut stack, ry as i128, rx as i128 - 1);
            let ghost g3 = *self;
            let ghost s3 = stack@;
            self.visit(&mut stack, ry as i128, rx as i128 + 1);
            proof {
                let s4 = stack@;
                assert forall|a: int, b: int| self.at(a, b) implies wall(a, b) || reachable(
                    wall,
                    rows,
                    cols,
                    sr as int,
                    sc as int,
                    a,
                    b,
                ) by {
                    if !g0.at(a, b) {
                        assert(!wall(a, b));
                        assert(inside(rows, cols, a, b));
                        assert(reached(wall, rows, cols, sr as int, sc as int, a, b, k0 + 1));
                    }
                }
                assert forall|a: int, b: int| g0.at(a, b) implies self.at(a, b) by {}
                assert forall|i: int| 0 <= i < s4.len() implies {
                    let p = #[trigger] s4[i];
                    &&& inside(rows, cols, p.0 as int, p.1 as int)
                    &&& self.at(p.0 as int, p.1 as int)
                    &&& reachable(wall, rows, cols, sr as int, sc as int, p.0 as int, p.1 as int)
                } by {
                    let p = s4[i];
                    if i < s0.len() {
                        assert(s4[i] == waiting[i]);
                    } else {
                        assert(!g0.at(p.0 as int, p.1 as int));
                        assert(!wall(p.0 as int, p.1 as int));
                        assert(reached(
                            wall,
                            rows,
                            cols,
                            sr as int,
                            sc as int,
                            p.0 as int,
                            p.1 as int,
                            k0 + 1,
                        ));
                    }
                }
                assert forall|a: int, b: int|
                    self.at(a, b) && reachable(wall, rows, cols, sr as int, sc as int, a, b)
                        && !s4.contains((a as usize, b as usize)) implies self.surrounded(
                    a,
                    b,
                ) by {
                    if a == ry && b == rx {
                    } else if g0.at(a, b) {
                        if waiting.contains((a as usize, b as usize)) {
                            let i = choose|i: int|
                                0 <= i < waiting.len() && waiting[i] == (a as usize, b as usize);
                            assert(i < waiting.len() - 1);
                            assert(s4[i] == (a as usize, b as usize));
                        }
                        assert(g0.surrounded(a, b));
                    } else {
                        assert(inside(rows, cols, a, b));
                        if g1.at(a, b) {
                            assert(s1[s1.len() - 1] == (a as usize, b as usize));
                            assert(s4[s1.len() - 1] == (a as usize, b as usize));
                        } else if g2.at(a, b) {
                            assert(s2[s2.len() - 1] == (a as usize, b as usize));
                            assert(s4[s2.len() - 1] == (a as usize, b as usize));
                        } else if g3.at(a, b) {
                            assert(s3[s3.len() - 1] == (a as usize, b as usize));
                            assert(s4[s3.len() - 1] == (a as usize, b as usize));
                        } else {
                            assert(s4[s4.len() - 1] == (a as usize, b as usize));
                        }
                    }
                }
            }
        }
        proof {
            assert forall|a: int, b: int|
                self.at(a, b) == (old(self).at(a, b) || reachable(
                    old(self).marks(),
                    rows,
                    cols,
                    sr as int,
                    sc as int,
                    a,
                    b,
                )) by {
                assert(old(self).at(a, b) == wall(a, b));
                if reachable(wall, rows, cols, sr as int, sc as int, a, b) {
                    let k = choose|k: nat| reached(wall, rows, cols, sr as int, sc as int, a, b, k);
                    assert(stack@.len() == 0);
                    lemma_flood_complete(*self, wall, sr as int, sc as int, a, b, k);
                }
            }
        }
    }

    /// Marks the place `(r, c)` and puts it on the stack, where it lies in
    /// the grid and is not marked.
    fn visit(&mut self, stack: &mut Vec<(usize, usize)>, r: i128, c: i128)
        requires
            old(self).wf(),
        ensures
            final(self).wf(),
            final(self).rows() == old(self).rows(),
            final(self).cols() == old(self).cols(),
            inside(old(self).rows(), old(self).cols(), r as int, c as int) && !old(self).at(
                r as int,
                c as int,
            ) ==> {
                &&& final(stack)@ == old(stack)@.push((r as usize, c as usize))
                &&& final(self).blank_count() + 1 == old(self).blank_count()
                &&& forall|a: int, b: int|
                    final(self).at(a, b) == (old(self).at(a, b) || (a == r && b == c))
            },
            !(inside(old(self).rows(), old(self).cols(), r as int, c as int) && !old(self).at(
                r as int,
                c as int,
            )) ==> {
                &&& final(stack)@ == old(stack)@
                &&& final(self).blank_count() == old(self).blank_count()
                &&& forall|a: int, b: int| final(self).at(a, b) == old(self).at(a, b)
            },
    {
        if r >= 0 && c >= 0 && r < self.rows as i128 && c < self.cols as i128 {
            if !self.get(r as usize, c as usize) {
                self.mark(r as usize, c as usize);
                stack.push((r as usize, c as usize));
            }
        }
    }
}

/// In a grid that holds its start and is closed under steps from every
/// marked place that can be reached, every place that can be reached is
/// marked.
pub proof fn lemma_flood_complete(
    grid: Grid,
    wall: spec_fn(int, int) -> bool,
    sr: int,
    sc: int,
    a: int,
    b: int,
    k: nat,
)
    requires
        grid.at(sr, sc),
        forall|r: int, c: int|
            grid.at(r, c) && reachable(wall, grid.rows(), grid.cols(), sr, sc, r, c)
                ==> grid.surrounded(r, c),
        reached(wall, grid.rows(), grid.cols(), sr, sc, a, b, k),
    ensures
        grid.at(a, b),
    decreases k,
{
    let rows = grid.rows();
    let cols = grid.cols();
    if k > 0 {
        let j = (k - 1) as nat;
        if reached(wall, rows, cols, sr, sc, a - 1, b, j) {
            lemma_flood_complete(grid, wall, sr, sc, a - 1, b, j);
            assert(grid.surrounded(a - 1, b));
        } else if reached(wall, rows, cols, sr, sc, a + 1, b, j) {
            lemma_flood_complete(grid, wall, sr, sc, a + 1, b, j);
            assert(grid.surrounded(a + 1, b));
        } else if reached(wall, rows, cols, sr, sc, a, b - 1, j) {
            lemma_flood_complete(grid, wall, sr, sc, a, b - 1, j);
            assert(grid.surrounded(a, b - 1));
        } else {
            assert(reached(wall, rows, cols, sr, sc, a, b + 1, j));
            lemma_flood_complete(grid, wall, sr, sc, a, b + 1, j);
            assert(reachable(wall, rows, cols, sr, sc, a, b + 1));
            assert(grid.surrounded(a, b + 1));
        }
    }
}

} // verus!
