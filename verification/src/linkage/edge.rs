//! Edges between points, their generation for every pair, and the queue that
//! hands them out in ascending order.

use vstd::prelude::*;
use vstd::relations::{sorted_by, total_ordering};
use vstd::seq_lib::{
    group_to_multiset_ensures, lemma_multiset_commutative, lemma_sorted_unique, to_multiset_build,
};
use crate::linkage::point::{measurable, point_distance, Point};

verus! {

/// An unordered pair of distinct points, named by their positions in the
/// point list (`a < b`), with the metric distance between them.
#[derive(Debug, PartialEq, Eq, Clone, Copy, Structural)]
pub struct Edge {
    pub a: usize,
    pub b: usize,
    pub dist: u64,
}

/// The edge between the points at positions `i` and `j`.
pub open spec fn edge_between(points: Seq<Point>, i: int, j: int) -> Edge {
    Edge { a: i as usize, b: j as usize, dist: point_distance(points[i], points[j]) as u64 }
}

/// The distance between any two of the points can be computed.
pub open spec fn all_in_reach(points: Seq<Point>) -> bool {
    forall|i: int, j: int|
        0 <= i < j < points.len() ==> measurable(#[trigger] points[i], #[trigger] points[j])
}

/// The edges from point `i` to every later point, nearest position first.
pub open spec fn edges_from(points: Seq<Point>, i: int) -> Seq<Edge> {
    Seq::new((points.len() - i - 1) as nat, |k: int| edge_between(points, i, i + 1 + k))
}

/// The edges whose first endpoint lies before position `i`.
pub open spec fn edges_below(points: Seq<Point>, i: nat) -> Seq<Edge>
    decreases i,
{
    if i == 0 {
        Seq::empty()
    } else {
        edges_below(points, (i - 1) as nat) + edges_from(points, i - 1)
    }
}

/// One edge for every unordered pair of positions, in generation order.
pub open spec fn all_edges(points: Seq<Point>) -> Seq<Edge> {
    edges_below(points, points.len())
}

/// The number of unordered pairs among `n` items.
pub open spec fn pair_count(n: nat) -> nat {
    (n * (n - 1) / 2) as nat
}

/// The extraction order: ascending distance, ties broken by the first and
/// then the second endpoint's position.
pub open spec fn edge_leq(x: Edge, y: Edge) -> bool {
    x.dist < y.dist || (x.dist == y.dist && (x.a < y.a || (x.a == y.a && x.b <= y.b)))
}

/// The extraction order as a relation value.
pub open spec fn edge_order() -> spec_fn(Edge, Edge) -> bool {
    |x: Edge, y: Edge| edge_leq(x, y)
}

/// Every earlier edge of `s` precedes every later one in extraction order.
pub open spec fn ascending(s: Seq<Edge>) -> bool {
    forall|i: int, j: int| 0 <= i < j < s.len() ==> edge_leq(#[trigger] s[i], #[trigger] s[j])
}

/// The priority queue of a point list: all of its edges in extraction order.
pub open spec fn edge_queue(points: Seq<Point>) -> Seq<Edge> {
    all_edges(points).sort_by(edge_order())
}

/// The extraction order is a total order on edges.
pub proof fn lemma_edge_order_total()
    ensures
        total_ordering(edge_order()),
{
    let r = edge_order();
    assert forall|x: Edge, y: Edge| #[trigger] r(x, y) && #[trigger] r(y, x) implies x == y by {}
    assert forall|x: Edge, y: Edge, z: Edge| #[trigger] r(x, y) && #[trigger] r(y, z) implies r(
        x,
        z,
    ) by {}
}

/// `edges_below` holds `i` full rows of the pair triangle.
pub proof fn lemma_edges_below_len(points: Seq<Point>, i: nat)
    requires
        i <= points.len(),
    ensures
        edges_below(points, i).len() == pair_count(points.len()) - pair_count(
            (points.len() - i) as nat,
        ),
    decreases i,
{
    let n = points.len() as int;
    if i > 0 {
        lemma_edges_below_len(points, (i - 1) as nat);
        let m = n - i;
        assert((m + 1) * m / 2 - m * (m - 1) / 2 == m) by (nonlinear_arith)
            requires
                m >= 0,
        ;
        assert((m + 1) * (m + 1 - 1) == (m + 1) * m);
    } else {
        assert(n * (n - 1) >= 0) by (nonlinear_arith)
            requires
                n >= 0,
        ;
    }
    assert(forall|m: int| m >= 0 ==> #[trigger] (m * (m - 1)) >= 0) by (nonlinear_arith);
}

/// There are exactly C(n, 2) edges.
pub proof fn lemma_all_edges_len(points: Seq<Point>)
    ensures
        all_edges(points).len() == pair_count(points.len()),
{
    lemma_edges_below_len(points, points.len());
    assert(0 * (0 - 1) / 2 == 0) by (nonlinear_arith);
}

/// Where the edge of the pair `(i, j)` stands in `edges_below(points, m)`.
pub proof fn lemma_edges_below_has(points: Seq<Point>, m: nat, i: int, j: int)
    requires
        0 <= i < j < points.len(),
        i < m <= points.len(),
    ensures
        edges_below(points, m).contains(edge_between(points, i, j)),
    decreases m,
{
    let prev = edges_below(points, (m - 1) as nat);
    let row = edges_from(points, m - 1);
    if i == m - 1 {
        assert(row[j - i - 1] == edge_between(points, i, j));
        assert((prev + row)[prev.len() + (j - i - 1)] == edge_between(points, i, j));
    } else {
        lemma_edges_below_has(points, (m - 1) as nat, i, j);
        let k = choose|k: int| 0 <= k < prev.len() && prev[k] == edge_between(points, i, j);
        assert((prev + row)[k] == edge_between(points, i, j));
    }
}

/// Every member of `edges_below` joins two positions `a < b` of the list and
/// carries their distance.
pub proof fn lemma_edges_below_members(points: Seq<Point>, m: nat, k: int)
    requires
        m <= points.len() <= usize::MAX,
        0 <= k < edges_below(points, m).len(),
    ensures
        ({
            let e = edges_below(points, m)[k];
            e.a < e.b < points.len() && e.a < m && e == edge_between(
                points,
                e.a as int,
                e.b as int,
            )
        }),
    decreases m,
{
    if m > 0 {
        let prev = edges_below(points, (m - 1) as nat);
        if k < prev.len() {
            lemma_edges_below_members(points, (m - 1) as nat, k);
        }
    }
}

/// Every unordered pair of positions has its edge among `all_edges`, and
/// every edge there belongs to such a pair.
pub proof fn lemma_all_edges_cover(points: Seq<Point>)
    requires
        points.len() <= usize::MAX,
    ensures
        forall|i: int, j: int|
            0 <= i < j < points.len() ==> all_edges(points).contains(
                #[trigger] edge_between(points, i, j),
            ),
        forall|k: int|
            0 <= k < all_edges(points).len() ==> {
                let e = #[trigger] all_edges(points)[k];
                e.a < e.b < points.len() && e == edge_between(points, e.a as int, e.b as int)
            },
{
    assert forall|i: int, j: int| 0 <= i < j < points.len() implies all_edges(points).contains(
        #[trigger] edge_between(points, i, j),
    ) by {
        lemma_edges_below_has(points, points.len(), i, j);
    }
    assert forall|k: int| 0 <= k < all_edges(points).len() implies {
        let e = #[trigger] all_edges(points)[k];
        e.a < e.b < points.len() && e == edge_between(points, e.a as int, e.b as int)
    } by {
        lemma_edges_below_members(points, points.len(), k);
    }
}

/// What the queue of a point list is: the one ascending arrangement of all
/// its edges.
pub proof fn lemma_edge_queue_is(points: Seq<Point>, q: Seq<Edge>)
    requires
        ascending(q),
        q.to_multiset() == all_edges(points).to_multiset(),
    ensures
        q == edge_queue(points),
{
    lemma_edge_order_total();
    all_edges(points).lemma_sort_by_ensures(edge_order());
    assert(sorted_by(q, edge_order()));
    lemma_sorted_unique(q, edge_queue(points), edge_order());
}

/// The queue is ascending, holds exactly the edges of `all_edges`, and so has
/// C(n, 2) entries.
pub proof fn lemma_edge_queue_properties(points: Seq<Point>)
    ensures
        ascending(edge_queue(points)),
        edge_queue(points).to_multiset() == all_edges(points).to_multiset(),
        edge_queue(points).len() == pair_count(points.len()),
{
    broadcast use group_to_multiset_ensures;

    lemma_edge_order_total();
    all_edges(points).lemma_sort_by_ensures(edge_order());
    let q = edge_queue(points);
    assert(sorted_by(q, edge_order()));
    assert forall|i: int, j: int| 0 <= i < j < q.len() implies edge_leq(
        #[trigger] q[i],
        #[trigger] q[j],
    ) by {
        assert(edge_order()(q[i], q[j]));
    }
    lemma_all_edges_len(points);
    assert(q.len() == q.to_multiset().len());
    assert(all_edges(points).len() == all_edges(points).to_multiset().len());
}

/// Compares two edges in extraction order.
pub fn edge_before(x: &Edge, y: &Edge) -> (r: bool)
    ensures
        r == edge_leq(*x, *y),
{
    x.dist < y.dist || (x.dist == y.dist && (x.a < y.a || (x.a == y.a && x.b <= y.b)))
}

/// Generates the edge of every unordered pair of positions. `None` where
/// the distance of some pair cannot be computed.
pub fn generate_edges(points: &[Point]) -> (r: Option<Vec<Edge>>)
    ensures
        match r {
            Some(edges) => all_in_reach(points@) && edges@ == all_edges(points@),
            None => !all_in_reach(points@),
        },
{
    let n: usize = points.len();
    let mut edges: Vec<Edge> = Vec::new();
    let mut i: usize = 0;
    while i < n
        invariant
            i <= n,
            n == points.len(),
            edges@ == edges_below(points@, i as nat),
            forall|a: int, b: int|
                0 <= a < b < n && a < i ==> measurable(#[trigger] points@[a], #[trigger] points@[b]),
        decreases n - i,
    {
        let ghost before = edges@;
        let mut j: usize = i + 1;
        while j < n
            invariant
                i < j <= n,
                n == points.len(),
                edges@ == before + edges_from(points@, i as int).take(j - i - 1),
                forall|a: int, b: int|
                    0 <= a < b < n && (a < i || (a == i && b < j)) ==> measurable(
                        #[trigger] points@[a],
                        #[trigger] points@[b],
                    ),
            decreases n - j,
        {
            let d: u64 = match points[i].distance(&points[j]) {
                Some(d) => d,
                None => {
                    proof {
                        assert(!measurable(points@[i as int], points@[j as int]));
                    }
                    return None;
                },
            };
            edges.push(Edge { a: i, b: j, dist: d });
            proof {
                let row = edges_from(points@, i as int);
                assert(row[j - i - 1] == edge_between(points@, i as int, j as int));
                assert(row.take(j - i) == row.take(j - i - 1).push(row[j - i - 1]));
            }
            j = j + 1;
        }
        proof {
            let row = edges_from(points@, i as int);
            assert(row.take(n - i - 1) == row);
        }
        i = i + 1;
    }
    Some(edges)
}

fn merge_runs(left: &Vec<Edge>, right: &Vec<Edge>) -> (out: Vec<Edge>)
    requires
        ascending(left@),
        ascending(right@),
    ensures
        ascending(out@),
        out@.to_multiset() == left@.to_multiset().add(right@.to_multiset()),
{
    broadcast use {group_to_multiset_ensures, vstd::multiset::group_multiset_axioms};

    let mut out: Vec<Edge> = Vec::new();
    let mut i: usize = 0;
    let mut j: usize = 0;
    assert(left@.take(0).to_multiset().add(right@.take(0).to_multiset()) == out@.to_multiset());
    while i < left.len() || j < right.len()
        invariant
            i <= left.len(),
            j <= right.len(),
            ascending(left@),
            ascending(right@),
            ascending(out@),
            out@.to_multiset() == left@.take(i as int).to_multiset().add(
                right@.take(j as int).to_multiset(),
            ),
            forall|k: int|
                0 <= k < out.len() && i < left.len() ==> edge_leq(#[trigger] out[k], left[i as int]),
            forall|k: int|
                0 <= k < out.len() && j < right.len() ==> edge_leq(
                    #[trigger] out[k],
                    right[j as int],
                ),
        decreases left.len() - i + right.len() - j,
    {
        let from_left: bool = if i == left.len() {
            false
        } else if j == right.len() {
            true
        } else {
            edge_before(&left[i], &right[j])
        };
        let ghost merged = out@;
        let ghost lm = left@.take(i as int).to_multiset();
        let ghost rm = right@.take(j as int).to_multiset();
        if from_left {
            out.push(left[i]);
            proof {
                let x = left[i as int];
                assert(left@.take(i + 1) == left@.take(i as int).push(x));
                assert(out@ == merged.push(x));
                to_multiset_build(merged, x);
                to_multiset_build(left@.take(i as int), x);
                assert(lm.add(rm).insert(x) =~= lm.insert(x).add(rm));
            }
            i = i + 1;
        } else {
            out.push(right[j]);
            proof {
                let x = right[j as int];
                assert(right@.take(j + 1) == right@.take(j as int).push(x));
                assert(out@ == merged.push(x));
                to_multiset_build(merged, x);
                to_multiset_build(right@.take(j as int), x);
                assert(lm.add(rm).insert(x) =~= lm.add(rm.insert(x)));
            }
            j = j + 1;
        }
    }
    proof {
        assert(left@.take(i as int) == left@);
        assert(right@.take(j as int) == right@);
    }
    out
}

/// Sorts edges into extraction order by merging sorted halves.
pub fn sort_edges(edges: Vec<Edge>) -> (sorted: Vec<Edge>)
    ensures
        ascending(sorted@),
        sorted@.to_multiset() == edges@.to_multiset(),
    decreases edges.len(),
{
    if edges.len() <= 1 {
        return edges;
    }
    let mut left: Vec<Edge> = edges;
    let ghost whole = left@;
    let half: usize = left.len() / 2;
    let right: Vec<Edge> = left.split_off(half);
    proof {
        assert(whole == left@ + right@);
        lemma_multiset_commutative(left@, right@);
    }
    let left_sorted = sort_edges(left);
    let right_sorted = sort_edges(right);
    merge_runs(&left_sorted, &right_sorted)
}

/// Builds the priority queue of a point list: every edge, ascending.
/// `None` where the distance of some pair cannot be computed.
pub fn build_queue(points: &[Point]) -> (r: Option<Vec<Edge>>)
    ensures
        match r {
            Some(queue) => all_in_reach(points@) && queue@ == edge_queue(points@),
            None => !all_in_reach(points@),
        },
{
    match generate_edges(points) {
        Some(edges) => {
            let queue = sort_edges(edges);
            proof {
                lemma_edge_queue_is(points@, queue@);
            }
            Some(queue)
        },
        None => None,
    }
}

} // verus!
