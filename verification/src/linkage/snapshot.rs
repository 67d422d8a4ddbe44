//! The summary of a bounded-steps snapshot: the product of the sizes of the
//! three largest clusters.

use vstd::prelude::*;

verus! {

/// The three largest values seen so far, greatest first, after `x` has been
/// seen too.
pub open spec fn place(top: (usize, usize, usize), x: usize) -> (usize, usize, usize) {
    if x >= top.0 {
        (x, top.0, top.1)
    } else if x >= top.1 {
        (top.0, x, top.1)
    } else if x >= top.2 {
        (top.0, top.1, x)
    } else {
        top
    }
}

/// The three largest entries of `sizes`, greatest first. An entry counts as
/// often as it occurs. (Where there are fewer than three entries the rest
/// is zero.)
pub open spec fn top_three(sizes: Seq<usize>) -> (usize, usize, usize)
    decreases sizes.len(),
{
    if sizes.len() == 0 {
        (0, 0, 0)
    } else {
        place(top_three(sizes.drop_last()), sizes.last())
    }
}

/// The product of the three largest entries of `sizes`.
pub open spec fn top_three_product(sizes: Seq<usize>) -> nat {
    let top = top_three(sizes);
    (top.0 * top.1 * top.2) as nat
}

/// The three largest entries come in descending order, no entry exceeds the
/// first, and each of the three occurs in `sizes` as far as `sizes` has
/// entries; the rest is zero.
pub proof fn lemma_top_three(sizes: Seq<usize>)
    ensures
        top_three(sizes).0 >= top_three(sizes).1 >= top_three(sizes).2,
        forall|i: int| 0 <= i < sizes.len() ==> sizes[i] <= top_three(sizes).0,
        sizes.len() >= 1 ==> sizes.contains(top_three(sizes).0),
        sizes.len() >= 2 ==> sizes.contains(top_three(sizes).1),
        sizes.len() >= 3 ==> sizes.contains(top_three(sizes).2),
        sizes.len() < 2 ==> top_three(sizes).1 == 0,
        sizes.len() < 3 ==> top_three(sizes).2 == 0,
    decreases sizes.len(),
{
    if sizes.len() > 0 {
        let rest = sizes.drop_last();
        let x = sizes.last();
        lemma_top_three(rest);
        let t = top_three(rest);
        assert(sizes[sizes.len() - 1] == x);
        assert forall|i: int| 0 <= i < sizes.len() implies sizes[i] <= top_three(sizes).0 by {
            if i < rest.len() {
                assert(rest[i] == sizes[i]);
            }
        }
        assert forall|v: usize| rest.contains(v) implies sizes.contains(v) by {
            let i = choose|i: int| 0 <= i < rest.len() && rest[i] == v;
            assert(sizes[i] == v);
        }
        assert(sizes.contains(x));
        if rest.len() >= 1 {
            assert(rest.contains(t.0) && sizes.contains(t.0));
        }
        if rest.len() >= 2 {
            assert(rest.contains(t.1) && sizes.contains(t.1));
        }
        if rest.len() >= 3 {
            assert(rest.contains(t.2) && sizes.contains(t.2));
        }
    }
}

/// The entry of `sizes` at position `i`, or zero for a position before the
/// first.
pub open spec fn entry(sizes: Seq<usize>, i: int) -> usize {
    if i >= 0 {
        sizes[i]
    } else {
        0
    }
}

/// The positions `i`, `j` and `k` hold the three largest entries of
/// `sizes`: they differ, their entries descend, and no entry at another
/// position exceeds the least of them. A position before the first stands
/// for a missing entry.
pub open spec fn holds_top(sizes: Seq<usize>, i: int, j: int, k: int) -> bool {
    &&& i != j && j != k && i != k
    &&& -3 <= i < sizes.len() && -3 <= j < sizes.len() && -3 <= k < sizes.len()
    &&& (sizes.len() >= 1 ==> i >= 0)
    &&& (sizes.len() >= 2 ==> j >= 0)
    &&& (sizes.len() >= 3 ==> k >= 0)
    &&& entry(sizes, i) >= entry(sizes, j) >= entry(sizes, k)
    &&& forall|l: int|
        0 <= l < sizes.len() && l != i && l != j && l != k ==> (#[trigger] sizes[l]) <= entry(
            sizes,
            k,
        )
}

/// Finds positions that hold the three largest entries as `top_three`
/// gives them.
pub proof fn lemma_top_three_positions(sizes: Seq<usize>) -> (at: (int, int, int))
    ensures
        holds_top(sizes, at.0, at.1, at.2),
        entry(sizes, at.0) == top_three(sizes).0,
        entry(sizes, at.1) == top_three(sizes).1,
        entry(sizes, at.2) == top_three(sizes).2,
    decreases sizes.len(),
{
    if sizes.len() == 0 {
        (-1, -2, -3)
    } else {
        let rest = sizes.drop_last();
        let x = sizes.last();
        let m = sizes.len() - 1;
        let (i, j, k) = lemma_top_three_positions(rest);
        let t = top_three(rest);
        assert(forall|l: int| 0 <= l < rest.len() ==> rest[l] == sizes[l]);
        assert(sizes[m] == x);
        let at = if x >= t.0 {
            (m, i, j)
        } else if x >= t.1 {
            (i, m, j)
        } else if x >= t.2 {
            (i, j, m)
        } else {
            (i, j, k)
        };
        assert forall|l: int|
            0 <= l < sizes.len() && l != at.0 && l != at.1 && l != at.2 implies (
        #[trigger] sizes[l]) <= entry(sizes, at.2) by {
            if l < rest.len() {
                assert(rest[l] == sizes[l]);
                if l != i && l != j && l != k {
                    assert(rest[l] <= entry(rest, k));
                }
            }
        }
        at
    }
}

/// Where there are three entries or more, `top_three` gives the entries at
/// three different positions, in descending order, and no entry elsewhere
/// exceeds the least of the three.
pub proof fn lemma_top_three_are_largest(sizes: Seq<usize>)
    requires
        sizes.len() >= 3,
    ensures
        exists|i: int, j: int, k: int|
            {
                &&& 0 <= i < sizes.len() && 0 <= j < sizes.len() && 0 <= k < sizes.len()
                &&& #[trigger] holds_top(sizes, i, j, k)
                &&& top_three(sizes) == (sizes[i], sizes[j], sizes[k])
            },
{
    let (i, j, k) = lemma_top_three_positions(sizes);
    assert(holds_top(sizes, i, j, k) && top_three(sizes) == (sizes[i], sizes[j], sizes[k]));
}

/// Multiplies the sizes of the three largest clusters. `None` where the
/// product does not fit the machine word. Asking with fewer than three
/// clusters is the caller's error.
pub fn product_of_top_three(sizes: &[usize]) -> (r: Option<usize>)
    requires
        sizes@.len() >= 3,
    ensures
        r == if top_three_product(sizes@) <= usize::MAX {
            Some(top_three_product(sizes@) as usize)
        } else {
            None
        },
{
    let mut first: usize = 0;
    let mut second: usize = 0;
    let mut third: usize = 0;
    let mut i: usize = 0;
    while i < sizes.len()
        invariant
            i <= sizes.len(),
            (first, second, third) == top_three(sizes@.take(i as int)),
        decreases sizes.len() - i,
    {
        let x: usize = sizes[i];
        proof {
            assert(sizes@.take(i + 1).drop_last() == sizes@.take(i as int));
        }
        if x >= first {
            third = second;
            second = first;
            first = x;
        } else if x >= second {
            third = second;
            second = x;
        } else if x >= third {
            third = x;
        }
        i = i + 1;
    }
    proof {
        assert(sizes@.take(sizes.len() as int) == sizes@);
        lemma_top_three(sizes@);
    }
    if third == 0 {
        assert(first * second * 0 == 0) by (nonlinear_arith);
        return Some(0);
    }
    match first.checked_mul(second) {
        None => {
            assert(first * second * third > usize::MAX) by (nonlinear_arith)
                requires
                    first * second > usize::MAX,
                    third >= 1,
            ;
            None
        },
        Some(pair) => pair.checked_mul(third),
    }
}

} // verus!
