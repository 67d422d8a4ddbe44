//! What holds of every run of the merge engine.

use vstd::prelude::*;
use crate::linkage::edge::{edge_queue, lemma_edge_queue_properties, pair_count, Edge};
use crate::linkage::engine::{
    bridge_step, is_bridge_step, labels_after,
    lemma_bridge_step_exists, lemma_edge_queue_valid, lemma_exhausted_connected,
    lemma_labels_after_canonical, partition_after, valid_edges, Engine,
};
use crate::linkage::partition::{
    cluster_sizes, component_count, label_count,
    lemma_label_count_pair, lemma_label_count_positive, lemma_merged_canonical,
    lemma_merged_clusters, lemma_merged_roots, lemma_relabel_count, lemma_singletons_count,
    high_label, low_label, merged, outcome_of, MergeOutcome,
};
use crate::linkage::point::Point;

verus! {

/// The positions that carry the label `r`.
pub open spec fn cluster_members(labels: Seq<usize>, r: usize) -> Set<int> {
    Set::new(|i: int| 0 <= i < labels.len() && labels[i] == r)
}

/// The label `r` names a cluster: two or more positions carry it.
pub open spec fn is_cluster(labels: Seq<usize>, r: usize) -> bool {
    label_count(labels, r) >= 2
}

/// Position `i` is an endpoint of one of the first `k` edges of `queue`.
pub open spec fn took_part(queue: Seq<Edge>, k: nat, i: int) -> bool {
    exists|m: int| 0 <= m < k && ((#[trigger] queue[m]).a == i || queue[m].b == i)
}

/// A class has as many members as its label is counted.
pub proof fn lemma_cluster_members_len(labels: Seq<usize>, r: usize)
    ensures
        cluster_members(labels, r).finite(),
        cluster_members(labels, r).len() == label_count(labels, r),
    decreases labels.len(),
{
    if labels.len() == 0 {
        assert(cluster_members(labels, r) =~= Set::<int>::empty());
    } else {
        let rest = labels.drop_last();
        let last = labels.len() - 1;
        lemma_cluster_members_len(rest, r);
        if labels.last() == r {
            assert(cluster_members(labels, r) =~= cluster_members(rest, r).insert(last));
        } else {
            assert(cluster_members(labels, r) =~= cluster_members(rest, r));
        }
    }
}

/// After `k` merge steps, position `i` belongs to a cluster exactly when it
/// is an endpoint of one of the `k` merged edges.
pub proof fn lemma_clustered_iff_took_part(n: nat, queue: Seq<Edge>, k: nat, i: int)
    requires
        n <= usize::MAX,
        valid_edges(queue, n),
        k <= queue.len(),
        0 <= i < n,
    ensures
        is_cluster(labels_after(n, queue, k), labels_after(n, queue, k)[i]) <==> took_part(
            queue,
            k,
            i,
        ),
    decreases k,
{
    if k == 0 {
        lemma_singletons_count(n, i as usize);
    } else {
        let l = labels_after(n, queue, (k - 1) as nat);
        let e = queue[k - 1];
        let a = e.a as int;
        let b = e.b as int;
        assert(e.a < e.b < n);
        lemma_labels_after_canonical(n, queue, (k - 1) as nat);
        lemma_merged_canonical(l, a, b);
        lemma_clustered_iff_took_part(n, queue, (k - 1) as nat, i);
        let next = merged(l, a, b);
        let lo = low_label(l, a, b);
        let hi = high_label(l, a, b);
        assert(took_part(queue, k, i) <==> took_part(queue, (k - 1) as nat, i) || i == a || i
            == b) by {
            if took_part(queue, k, i) {
                let m = choose|m: int|
                    0 <= m < k && ((#[trigger] queue[m]).a == i || queue[m].b == i);
                if m < k - 1 {
                    assert(took_part(queue, (k - 1) as nat, i));
                }
            }
            if took_part(queue, (k - 1) as nat, i) {
                let m = choose|m: int|
                    0 <= m < k - 1 && ((#[trigger] queue[m]).a == i || queue[m].b == i);
                assert(0 <= m < k && (queue[m].a == i || queue[m].b == i));
            }
            if i == a || i == b {
                assert(0 <= k - 1 < k && (queue[k - 1].a == i || queue[k - 1].b == i));
            }
        }
        if l[a] == l[b] {
            lemma_label_count_pair(l, a, b);
        } else {
            lemma_relabel_count(l, hi, lo, next[i]);
            lemma_label_count_positive(l, a);
            lemma_label_count_positive(l, b);
            if l[i] == l[a] && i != a {
                if i < a {
                    lemma_label_count_pair(l, i, a);
                } else {
                    lemma_label_count_pair(l, a, i);
                }
            }
            if l[i] == l[b] && i != b {
                if i < b {
                    lemma_label_count_pair(l, i, b);
                } else {
                    lemma_label_count_pair(l, b, i);
                }
            }
        }
    }
}

/// At every point of a run the clusters partition the points that have
/// taken part in a merge: no position is a member of two clusters, a
/// position is a member of some cluster exactly when it is an endpoint of a
/// consumed edge, and every cluster has as many members as its reported
/// size.
pub proof fn lemma_partition_invariant(points: Seq<Point>, k: nat)
    requires
        points.len() <= usize::MAX,
        k <= edge_queue(points).len(),
    ensures
        ({
            let labels = partition_after(points, k);
            let queue = edge_queue(points);
            &&& labels.len() == points.len()
            &&& forall|r1: usize, r2: usize|
                r1 != r2 ==> #[trigger] cluster_members(labels, r1).disjoint(
                    #[trigger] cluster_members(labels, r2),
                )
            &&& forall|i: int|
                0 <= i < points.len() ==> ((exists|r: usize|
                    is_cluster(labels, r) && #[trigger] cluster_members(labels, r).contains(i))
                    <==> #[trigger] took_part(queue, k, i))
            &&& forall|r: usize|
                #![trigger cluster_members(labels, r)]
                cluster_members(labels, r).finite() && cluster_members(labels, r).len()
                    == label_count(labels, r)
        }),
{
    let labels = partition_after(points, k);
    let queue = edge_queue(points);
    lemma_edge_queue_valid(points);
    lemma_labels_after_canonical(points.len(), queue, k);
    assert forall|i: int| 0 <= i < points.len() implies ((exists|r: usize|
        is_cluster(labels, r) && #[trigger] cluster_members(labels, r).contains(i))
        <==> #[trigger] took_part(queue, k, i)) by {
        lemma_clustered_iff_took_part(points.len(), queue, k, i);
        if is_cluster(labels, labels[i]) {
            assert(cluster_members(labels, labels[i]).contains(i));
        }
    }
    assert forall|r: usize|
        #![trigger cluster_members(labels, r)]
        cluster_members(labels, r).finite() && cluster_members(labels, r).len() == label_count(
            labels,
            r,
        ) by {
        lemma_cluster_members_len(labels, r);
    }
}

/// One of the first `k` edges of `queue` joins the positions `a` and `b`.
pub open spec fn joined(queue: Seq<Edge>, k: nat, a: int, b: int) -> bool {
    exists|m: int|
        0 <= m < k && (((#[trigger] queue[m]).a == a && queue[m].b == b) || (queue[m].a == b
            && queue[m].b == a))
}

/// A path of exactly `hops` of the first `k` edges of `queue` leads from
/// `a` to `b`.
pub open spec fn path(queue: Seq<Edge>, k: nat, a: int, b: int, hops: nat) -> bool
    decreases hops,
{
    if hops == 0 {
        a == b
    } else {
        exists|c: int|
            #[trigger] joined(queue, k, a, c) && path(queue, k, c, b, (hops - 1) as nat)
    }
}

/// Some path of the first `k` edges of `queue` leads from `a` to `b`.
pub open spec fn connected(queue: Seq<Edge>, k: nat, a: int, b: int) -> bool {
    exists|hops: nat| path(queue, k, a, b, hops)
}

/// A path stays a path when more edges are consumed.
pub proof fn lemma_path_stays(queue: Seq<Edge>, k: nat, a: int, b: int, hops: nat)
    requires
        path(queue, k, a, b, hops),
    ensures
        path(queue, k + 1, a, b, hops),
    decreases hops,
{
    if hops > 0 {
        let c = choose|c: int|
            #[trigger] joined(queue, k, a, c) && path(queue, k, c, b, (hops - 1) as nat);
        let m = choose|m: int|
            0 <= m < k && (((#[trigger] queue[m]).a == a && queue[m].b == c) || (queue[m].a == c
                && queue[m].b == a));
        assert(0 <= m < k + 1 && ((queue[m].a == a && queue[m].b == c) || (queue[m].a == c
            && queue[m].b == a)));
        lemma_path_stays(queue, k, c, b, (hops - 1) as nat);
        assert(joined(queue, k + 1, a, c));
    }
}

/// A path to `c` and a path on from `c` make one path.
pub proof fn lemma_path_joins(
    queue: Seq<Edge>,
    k: nat,
    a: int,
    c: int,
    b: int,
    first: nat,
    second: nat,
)
    requires
        path(queue, k, a, c, first),
        path(queue, k, c, b, second),
    ensures
        path(queue, k, a, b, first + second),
    decreases first,
{
    if first > 0 {
        let d = choose|d: int|
            #[trigger] joined(queue, k, a, d) && path(queue, k, d, c, (first - 1) as nat);
        lemma_path_joins(queue, k, d, c, b, (first - 1) as nat, second);
        assert(joined(queue, k, a, d) && path(queue, k, d, b, (first + second - 1) as nat));
    }
}

/// The ends of a path of consumed edges are in one cluster.
pub proof fn lemma_path_same_cluster(
    n: nat,
    queue: Seq<Edge>,
    k: nat,
    a: int,
    b: int,
    hops: nat,
)
    requires
        n <= usize::MAX,
        valid_edges(queue, n),
        k <= queue.len(),
        path(queue, k, a, b, hops),
    ensures
        labels_after(n, queue, k)[a] == labels_after(n, queue, k)[b],
    decreases hops,
{
    if hops > 0 {
        let c = choose|c: int|
            #[trigger] joined(queue, k, a, c) && path(queue, k, c, b, (hops - 1) as nat);
        let m = choose|m: int|
            0 <= m < k && (((#[trigger] queue[m]).a == a && queue[m].b == c) || (queue[m].a == c
                && queue[m].b == a));
        crate::linkage::engine::lemma_consumed_joined(n, queue, k, m);
        lemma_path_same_cluster(n, queue, k, c, b, (hops - 1) as nat);
    }
}

/// Two positions of one cluster are the ends of a path of consumed edges.
pub proof fn lemma_same_cluster_path(n: nat, queue: Seq<Edge>, k: nat, a: int, b: int) -> (hops:
    nat)
    requires
        n <= usize::MAX,
        valid_edges(queue, n),
        k <= queue.len(),
        0 <= a < n,
        0 <= b < n,
        labels_after(n, queue, k)[a] == labels_after(n, queue, k)[b],
    ensures
        path(queue, k, a, b, hops),
    decreases k,
{
    if k == 0 {
        0
    } else {
        let j = (k - 1) as nat;
        let l = labels_after(n, queue, j);
        let e = queue[k - 1];
        let x = e.a as int;
        let y = e.b as int;
        assert(e.a < e.b < n);
        lemma_labels_after_canonical(n, queue, j);
        assert(0 <= k - 1 < k && queue[k - 1].a == x && queue[k - 1].b == y);
        if l[a] == l[b] {
            let hops = lemma_same_cluster_path(n, queue, j, a, b);
            lemma_path_stays(queue, j, a, b, hops);
            hops
        } else if l[a] == l[x] {
            assert(l[b] == l[y]);
            let first = lemma_same_cluster_path(n, queue, j, a, x);
            let second = lemma_same_cluster_path(n, queue, j, y, b);
            lemma_path_stays(queue, j, a, x, first);
            lemma_path_stays(queue, j, y, b, second);
            assert(joined(queue, k, x, y));
            assert(path(queue, k, x, b, second + 1));
            lemma_path_joins(queue, k, a, x, b, first, second + 1);
            first + second + 1
        } else {
            assert(l[a] == l[y]);
            assert(l[b] == l[x]);
            let first = lemma_same_cluster_path(n, queue, j, a, y);
            let second = lemma_same_cluster_path(n, queue, j, x, b);
            lemma_path_stays(queue, j, a, y, first);
            lemma_path_stays(queue, j, x, b, second);
            assert(joined(queue, k, y, x));
            assert(path(queue, k, y, b, second + 1));
            lemma_path_joins(queue, k, a, y, b, first, second + 1);
            first + second + 1
        }
    }
}

/// Single linkage: after `k` merge steps two points are in one cluster
/// exactly when a path of the `k` consumed edges leads from one to the
/// other.
pub proof fn lemma_clusters_are_components(points: Seq<Point>, k: nat, a: int, b: int)
    requires
        points.len() <= usize::MAX,
        k <= edge_queue(points).len(),
        0 <= a < points.len(),
        0 <= b < points.len(),
    ensures
        partition_after(points, k)[a] == partition_after(points, k)[b] <==> connected(
            edge_queue(points),
            k,
            a,
            b,
        ),
{
    let queue = edge_queue(points);
    lemma_edge_queue_valid(points);
    if partition_after(points, k)[a] == partition_after(points, k)[b] {
        let hops = lemma_same_cluster_path(points.len(), queue, k, a, b);
        assert(path(queue, k, a, b, hops));
    }
    if connected(queue, k, a, b) {
        let hops = choose|hops: nat| path(queue, k, a, b, hops);
        lemma_path_same_cluster(points.len(), queue, k, a, b, hops);
    }
}

/// The change that a merge outcome makes to the number of clusters.
pub open spec fn cluster_delta(outcome: MergeOutcome) -> int {
    match outcome {
        MergeOutcome::Created => 1,
        MergeOutcome::Grew => 0,
        MergeOutcome::Unioned => -1,
        MergeOutcome::Redundant => 0,
    }
}

/// Every step coarsens the partition. Counting a position that no merge has
/// touched as a class of its own, the number of classes falls by exactly one
/// on a merge of two different classes and stays on a redundant one. The
/// number of clusters proper (classes of two or more) changes as the outcome
/// says: it never rises but where two untouched positions form a new
/// cluster.
pub proof fn lemma_step_coarsens(points: Seq<Point>, k: nat)
    requires
        points.len() <= usize::MAX,
        k < edge_queue(points).len(),
    ensures
        ({
            let before = partition_after(points, k);
            let after = partition_after(points, k + 1);
            let edge = edge_queue(points)[k as int];
            let outcome = outcome_of(before, edge.a as int, edge.b as int);
            &&& component_count(after) == component_count(before) - if outcome
                == MergeOutcome::Redundant {
                0int
            } else {
                1int
            }
            &&& cluster_sizes(after).len() == cluster_sizes(before).len() + cluster_delta(outcome)
            &&& outcome != MergeOutcome::Created ==> cluster_sizes(after).len() <= cluster_sizes(
                before,
            ).len()
            &&& outcome == MergeOutcome::Redundant ==> after == before
        }),
{
    let n = points.len();
    let queue = edge_queue(points);
    let before = partition_after(points, k);
    let edge = queue[k as int];
    let a = edge.a as int;
    let b = edge.b as int;
    lemma_edge_queue_valid(points);
    lemma_labels_after_canonical(n, queue, k);
    assert(edge.a < edge.b < n);
    lemma_merged_canonical(before, a, b);
    if before[a] != before[b] {
        lemma_merged_roots(before, a, b, n);
        lemma_merged_clusters(before, a, b, n);
        lemma_label_count_positive(before, a);
        lemma_label_count_positive(before, b);
    }
}

/// The queue hands its edges out in order of distance: an edge consumed
/// earlier is no longer than one consumed later.
pub proof fn lemma_queue_ascending_distance(points: Seq<Point>, i: int, j: int)
    requires
        0 <= i <= j < edge_queue(points).len(),
    ensures
        edge_queue(points)[i].dist <= edge_queue(points)[j].dist,
{
    lemma_edge_queue_properties(points);
    let q = edge_queue(points);
    if i < j {
        assert(crate::linkage::edge::edge_leq(q[i], q[j]));
    }
}

/// With two or more points the bridge step exists and comes within the
/// C(n, 2) steps that the queue allows; after it one cluster holds all `n`
/// points.
pub proof fn lemma_full_connectivity_reached(points: Seq<Point>)
    requires
        2 <= points.len() <= usize::MAX,
    ensures
        is_bridge_step(points, bridge_step(points)),
        1 <= bridge_step(points) <= pair_count(points.len()),
        cluster_sizes(partition_after(points, bridge_step(points))) == seq![points.len() as usize],
{
    lemma_edge_queue_properties(points);
    lemma_edge_queue_valid(points);
    lemma_exhausted_connected(points);
    lemma_bridge_step_exists(points, edge_queue(points).len());
    lemma_labels_after_canonical(points.len(), edge_queue(points), bridge_step(points));
}

/// Runs are deterministic: two engines over the same points that have taken
/// the same number of steps agree in their queue, their partition, their
/// cluster sizes and their bridge edge.
pub proof fn lemma_runs_agree(first: Engine, second: Engine)
    requires
        first.wf(),
        second.wf(),
        first.points() == second.points(),
        first.consumed() == second.consumed(),
    ensures
        first.queue() == second.queue(),
        first.labels() == second.labels(),
        cluster_sizes(first.labels()) == cluster_sizes(second.labels()),
        first.bridge() == second.bridge(),
{
}

} // verus!
