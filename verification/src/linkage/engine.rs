//! The merge engine: it owns the partition, consumes the queue one edge at
//! a time, and answers the two queries.

use vstd::prelude::*;
use vstd::seq_lib::group_to_multiset_ensures;
use crate::linkage::edge::{
    all_edges, all_in_reach, ascending, build_queue, edge_between, edge_queue,
    lemma_all_edges_cover,
    lemma_edge_queue_properties, pair_count, Edge,
};
use crate::linkage::partition::{
    canonical, cluster_sizes, fully_connected, lemma_fully_connected_iff, lemma_merged_canonical,
    merged, outcome_of, singletons, MergeOutcome, Partition,
};
use crate::linkage::point::Point;

verus! {

/// Why the engine could not do what was asked.
#[derive(Debug, PartialEq, Eq, Clone, Copy, Structural)]
pub enum ClusterError {
    /// Fewer points than the operation can work on.
    InsufficientPoints,
    /// More merge steps were asked for than edges exist.
    QueueExhausted,
    /// Two points lie so far apart that their squared distance does not fit
    /// the 128 bits in which distances are computed.
    DistanceOverflow,
    /// A record that writes no point. The engine never says so, for it is
    /// handed points only; the variant is for those who read the records.
    MalformedInput,
}

/// The record of one merge step: the edge taken from the queue and what
/// applying it did.
#[derive(Debug, PartialEq, Eq, Clone, Copy, Structural)]
pub struct MergeEvent {
    pub edge: Edge,
    pub outcome: MergeOutcome,
}

/// The points of `points` without repetitions, each at its first place.
pub open spec fn distinct_points(points: Seq<Point>) -> Seq<Point>
    decreases points.len(),
{
    if points.len() == 0 {
        Seq::empty()
    } else {
        let rest = distinct_points(points.drop_last());
        if rest.contains(points.last()) {
            rest
        } else {
            rest.push(points.last())
        }
    }
}

/// Every edge of `queue` joins two positions `a < b` below `n`.
pub open spec fn valid_edges(queue: Seq<Edge>, n: nat) -> bool {
    forall|k: int| 0 <= k < queue.len() ==> (#[trigger] queue[k]).a < queue[k].b < n
}

/// The partition of `n` positions after the first `k` edges of `queue` have
/// been merged, starting with every position alone.
pub open spec fn labels_after(n: nat, queue: Seq<Edge>, k: nat) -> Seq<usize>
    decreases k,
{
    if k == 0 {
        singletons(n)
    } else {
        merged(labels_after(n, queue, (k - 1) as nat), queue[k - 1].a as int, queue[k - 1].b as int)
    }
}

/// The partition of a point list after `k` merge steps.
pub open spec fn partition_after(points: Seq<Point>, k: nat) -> Seq<usize> {
    labels_after(points.len(), edge_queue(points), k)
}

/// Whether `k` merge steps leave the point list fully connected.
pub open spec fn connected_after(points: Seq<Point>, k: nat) -> bool {
    fully_connected(partition_after(points, k))
}

/// `k` is the number of the merge step that first leaves the point list
/// fully connected.
pub open spec fn is_bridge_step(points: Seq<Point>, k: nat) -> bool {
    &&& connected_after(points, k)
    &&& forall|j: nat| j < k ==> !connected_after(points, j)
}

/// The number of merge steps after which the point list is first fully
/// connected.
pub open spec fn bridge_step(points: Seq<Point>) -> nat {
    choose|k: nat| is_bridge_step(points, k)
}

/// The edge whose merge completes full connectivity.
pub open spec fn bridge_edge(points: Seq<Point>) -> Edge {
    edge_queue(points)[bridge_step(points) - 1]
}

/// The distinct points are exactly the points of the list, none twice.
pub proof fn lemma_distinct_points(points: Seq<Point>)
    ensures
        distinct_points(points).no_duplicates(),
        distinct_points(points).len() <= points.len(),
        forall|p: Point| distinct_points(points).contains(p) <==> points.contains(p),
    decreases points.len(),
{
    if points.len() > 0 {
        let rest = points.drop_last();
        let last = points.last();
        lemma_distinct_points(rest);
        let d = distinct_points(rest);
        assert forall|p: Point| distinct_points(points).contains(p) <==> points.contains(
            p,
        ) by {
            if distinct_points(points).contains(p) {
                if d.contains(p) {
                    assert(rest.contains(p));
                    let i = choose|i: int| 0 <= i < rest.len() && rest[i] == p;
                    assert(points[i] == p);
                } else {
                    let i = choose|i: int|
                        0 <= i < distinct_points(points).len() && distinct_points(points)[i] == p;
                    assert(p == last);
                    assert(points[points.len() - 1] == p);
                }
            }
            if points.contains(p) {
                let i = choose|i: int| 0 <= i < points.len() && points[i] == p;
                if i < rest.len() {
                    assert(rest[i] == p);
                    assert(rest.contains(p));
                    assert(d.contains(p));
                    let j = choose|j: int| 0 <= j < d.len() && d[j] == p;
                    assert(distinct_points(points)[j] == p);
                } else {
                    if d.contains(p) {
                    } else {
                        assert(d.push(last)[d.len() as int] == p);
                    }
                }
            }
        }
    }
}

/// The queue of a point list holds one valid edge for every pair of
/// positions.
pub proof fn lemma_edge_queue_valid(points: Seq<Point>)
    requires
        points.len() <= usize::MAX,
    ensures
        valid_edges(edge_queue(points), points.len()),
        forall|i: int, j: int|
            0 <= i < j < points.len() ==> edge_queue(points).contains(
                #[trigger] edge_between(points, i, j),
            ),
        forall|k: int|
            0 <= k < edge_queue(points).len() ==> (#[trigger] edge_queue(points)[k])
                == edge_between(
                points,
                edge_queue(points)[k].a as int,
                edge_queue(points)[k].b as int,
            ),
{
    broadcast use group_to_multiset_ensures;

    let q = edge_queue(points);
    let all = all_edges(points);
    lemma_edge_queue_properties(points);
    lemma_all_edges_cover(points);
    assert forall|k: int| 0 <= k < q.len() implies (#[trigger] q[k]).a < q[k].b < points.len()
        && q[k] == edge_between(points, q[k].a as int, q[k].b as int) by {
        assert(q.contains(q[k]));
        assert(q.to_multiset().count(q[k]) > 0);
        assert(all.contains(q[k]));
        let m = choose|m: int| 0 <= m < all.len() && all[m] == q[k];
        assert(all[m].a < all[m].b);
    }
    assert forall|i: int, j: int| 0 <= i < j < points.len() implies q.contains(
        #[trigger] edge_between(points, i, j),
    ) by {
        let e = edge_between(points, i, j);
        assert(all.contains(e));
        assert(all.to_multiset().count(e) > 0);
    }
}

/// Merging valid edges keeps the labelling canonical and of length `n`.
pub proof fn lemma_labels_after_canonical(n: nat, queue: Seq<Edge>, k: nat)
    requires
        n <= usize::MAX,
        valid_edges(queue, n),
        k <= queue.len(),
    ensures
        canonical(labels_after(n, queue, k)),
        labels_after(n, queue, k).len() == n,
    decreases k,
{
    if k > 0 {
        lemma_labels_after_canonical(n, queue, (k - 1) as nat);
        let e = queue[k - 1];
        lemma_merged_canonical(labels_after(n, queue, (k - 1) as nat), e.a as int, e.b as int);
    }
}

/// After `k` steps the endpoints of each of the first `k` edges are in one
/// cluster.
pub proof fn lemma_consumed_joined(n: nat, queue: Seq<Edge>, k: nat, m: int)
    requires
        n <= usize::MAX,
        valid_edges(queue, n),
        0 <= m < k <= queue.len(),
    ensures
        labels_after(n, queue, k)[queue[m].a as int] == labels_after(n, queue, k)[queue[m].b as int],
    decreases k,
{
    let prev = labels_after(n, queue, (k - 1) as nat);
    lemma_labels_after_canonical(n, queue, (k - 1) as nat);
    assert(queue[m].a < queue[m].b < n);
    assert(queue[k - 1].a < queue[k - 1].b < n);
    if m < k - 1 {
        lemma_consumed_joined(n, queue, (k - 1) as nat, m);
    }
}

/// A fully connected partition stays what it is under further merges.
pub proof fn lemma_connected_stays(points: Seq<Point>, j: nat, k: nat)
    requires
        points.len() <= usize::MAX,
        j <= k <= edge_queue(points).len(),
        connected_after(points, j),
    ensures
        partition_after(points, k) == partition_after(points, j),
        connected_after(points, k),
    decreases k,
{
    if j < k {
        lemma_connected_stays(points, j, (k - 1) as nat);
        lemma_edge_queue_valid(points);
        let q = edge_queue(points);
        let prev = partition_after(points, (k - 1) as nat);
        lemma_labels_after_canonical(points.len(), q, (k - 1) as nat);
        lemma_fully_connected_iff(prev);
        let e = q[k - 1];
        assert(e.a < e.b < points.len());
        lemma_merged_canonical(prev, e.a as int, e.b as int);
    }
}

/// With two or more points, consuming the whole queue leaves the point list
/// fully connected.
pub proof fn lemma_exhausted_connected(points: Seq<Point>)
    requires
        2 <= points.len() <= usize::MAX,
    ensures
        connected_after(points, edge_queue(points).len()),
{
    let n = points.len();
    let q = edge_queue(points);
    let l = partition_after(points, q.len());
    lemma_edge_queue_valid(points);
    lemma_labels_after_canonical(n, q, q.len());
    assert(l[0] == 0);
    assert forall|i: int| 0 <= i < n implies l[i] == 0 by {
        if i > 0 {
            let e = edge_between(points, 0, i);
            assert(q.contains(e));
            let m = choose|m: int| 0 <= m < q.len() && q[m] == e;
            lemma_consumed_joined(n, q, q.len(), m);
        }
    }
    lemma_fully_connected_iff(l);
}

/// No step fully connects a point list before any edge is merged.
pub proof fn lemma_initially_unconnected(points: Seq<Point>)
    requires
        points.len() <= usize::MAX,
    ensures
        !connected_after(points, 0),
{
    let l = partition_after(points, 0);
    lemma_edge_queue_valid(points);
    lemma_labels_after_canonical(points.len(), edge_queue(points), 0);
    lemma_fully_connected_iff(l);
    if points.len() >= 2 {
        assert(l[1] == 1);
    }
}

/// The step that finds the point list unconnected before it and connected
/// after it is the bridge step.
pub proof fn lemma_bridge_step_is(points: Seq<Point>, k: nat)
    requires
        points.len() <= usize::MAX,
        1 <= k <= edge_queue(points).len(),
        connected_after(points, k),
        !connected_after(points, (k - 1) as nat),
    ensures
        is_bridge_step(points, k),
        bridge_step(points) == k,
{
    assert forall|j: nat| j < k implies !connected_after(points, j) by {
        if connected_after(points, j) {
            lemma_connected_stays(points, j, (k - 1) as nat);
        }
    }
    assert(is_bridge_step(points, k));
    let c = bridge_step(points);
    assert(is_bridge_step(points, c));
    if c < k {
        assert(!connected_after(points, c));
    } else if k < c {
        assert(!connected_after(points, k));
    }
}

/// Once some number of steps leaves the point list fully connected, the
/// bridge step exists and is no later.
pub proof fn lemma_bridge_step_exists(points: Seq<Point>, k: nat)
    requires
        points.len() <= usize::MAX,
        k <= edge_queue(points).len(),
        connected_after(points, k),
    ensures
        is_bridge_step(points, bridge_step(points)),
        1 <= bridge_step(points) <= k,
    decreases k,
{
    lemma_initially_unconnected(points);
    if connected_after(points, (k - 1) as nat) {
        lemma_bridge_step_exists(points, (k - 1) as nat);
    } else {
        lemma_bridge_step_is(points, k);
    }
}

/// The merge engine over a fixed list of distinct points.
pub struct Engine {
    points: Vec<Point>,
    queue: Vec<Edge>,
    consumed: usize,
    partition: Partition,
    bridge: Option<Edge>,
}

impl Engine {
    /// The engine's points: distinct, in input order.
    pub closed spec fn points(&self) -> Seq<Point> {
        self.points@
    }

    /// The engine's queue, consumed edges included.
    pub closed spec fn queue(&self) -> Seq<Edge> {
        self.queue@
    }

    /// The number of merge steps taken so far.
    pub closed spec fn consumed(&self) -> nat {
        self.consumed as nat
    }

    /// The current partition, as the label of each position.
    pub closed spec fn labels(&self) -> Seq<usize> {
        self.partition.labels()
    }

    /// The edge that completed full connectivity, once a step has done so.
    pub closed spec fn bridge(&self) -> Option<Edge> {
        self.bridge
    }

    /// The invariant of the engine's private parts.
    pub closed spec fn inner_wf(&self) -> bool {
        self.partition.wf()
    }

    /// The engine's invariant. Points and step count fix everything else:
    /// the queue is that of the points, the partition is the one that the
    /// consumed edges produce, and the bridge is known once it is crossed.
    pub open spec fn wf(&self) -> bool {
        &&& 1 <= self.points().len() <= usize::MAX
        &&& self.points().no_duplicates()
        &&& all_in_reach(self.points())
        &&& self.queue() == edge_queue(self.points())
        &&& self.consumed() <= self.queue().len()
        &&& self.labels() == partition_after(self.points(), self.consumed())
        &&& self.bridge() == if connected_after(self.points(), self.consumed()) {
            Some(bridge_edge(self.points()))
        } else {
            None
        }
        &&& self.inner_wf()
    }

    /// Builds an engine over the distinct points of `points`, each point
    /// alone and no edge consumed. Fails where no point is supplied, and
    /// where two of the points lie too far apart for their distance to be
    /// computed.
    pub fn build(points: &[Point]) -> (r: Result<Engine, ClusterError>)
        ensures
            match r {
                Ok(engine) => {
                    &&& points@.len() > 0
                    &&& engine.wf()
                    &&& engine.points() == distinct_points(points@)
                    &&& engine.consumed() == 0
                },
                Err(error) => if points@.len() == 0 {
                    error == ClusterError::InsufficientPoints
                } else {
                    !all_in_reach(distinct_points(points@)) && error
                        == ClusterError::DistanceOverflow
                },
            },
    {
        if points.len() == 0 {
            return Err(ClusterError::InsufficientPoints);
        }
        let distinct = dedup_points(points);
        proof {
            lemma_distinct_points(points@);
            assert(points@.contains(points@[0]));
            assert(distinct@.contains(points@[0]));
            lemma_initially_unconnected(distinct@);
        }
        let queue = match build_queue(distinct.as_slice()) {
            Some(queue) => queue,
            None => {
                return Err(ClusterError::DistanceOverflow);
            },
        };
        let partition = Partition::new(distinct.len());
        Ok(Engine { points: distinct, queue, consumed: 0, partition, bridge: None })
    }

    /// The number of points.
    pub fn point_count(&self) -> (n: usize)
        ensures
            n == self.points().len(),
    {
        self.points.len()
    }

    /// The point at position `i`, or `None` where there is none.
    pub fn point(&self, i: usize) -> (p: Option<Point>)
        ensures
            p == if i < self.points().len() {
                Some(self.points()[i as int])
            } else {
                None
            },
    {
        if i < self.points.len() {
            Some(self.points[i])
        } else {
            None
        }
    }

    /// The number of merge steps taken so far.
    pub fn steps_taken(&self) -> (k: usize)
        ensures
            k == self.consumed(),
    {
        self.consumed
    }

    /// The number of edges still in the queue.
    pub fn remaining(&self) -> (k: usize)
        requires
            self.wf(),
        ensures
            k == self.queue().len() - self.consumed(),
    {
        self.queue.len() - self.consumed
    }

    /// Takes the next edge from the queue and merges the clusters of its
    /// endpoints. Fails, changing nothing, where the queue is exhausted.
    pub fn step(&mut self) -> (r: Result<MergeEvent, ClusterError>)
        requires
            old(self).wf(),
        ensures
            final(self).wf(),
            final(self).points() == old(self).points(),
            old(self).consumed() == old(self).queue().len() ==> {
                &&& r == Err::<MergeEvent, ClusterError>(ClusterError::QueueExhausted)
                &&& final(self).consumed() == old(self).consumed()
            },
            old(self).consumed() < old(self).queue().len() ==> {
                let edge = old(self).queue()[old(self).consumed() as int];
                &&& final(self).consumed() == old(self).consumed() + 1
                &&& final(self).labels() == merged(
                    old(self).labels(),
                    edge.a as int,
                    edge.b as int,
                )
                &&& r == Ok::<MergeEvent, ClusterError>(
                    MergeEvent {
                        edge,
                        outcome: outcome_of(old(self).labels(), edge.a as int, edge.b as int),
                    },
                )
            },
    {
        if self.consumed >= self.queue.len() {
            return Err(ClusterError::QueueExhausted);
        }
        let edge: Edge = self.queue[self.consumed];
        let was_connected: bool = self.bridge.is_some();
        proof {
            lemma_edge_queue_valid(self.points@);
            lemma_labels_after_canonical(self.points@.len(), self.queue@, self.consumed as nat);
            assert(edge.a < edge.b < self.points@.len());
            if was_connected {
                lemma_connected_stays(
                    self.points@,
                    self.consumed as nat,
                    (self.consumed + 1) as nat,
                );
            }
        }
        let outcome = self.partition.unite(edge.a, edge.b);
        self.consumed = self.consumed + 1;
        if !was_connected {
            if self.partition.is_fully_connected() {
                proof {
                    lemma_bridge_step_is(self.points@, self.consumed as nat);
                }
                self.bridge = Some(edge);
            }
        }
        Ok(MergeEvent { edge, outcome })
    }

    /// The sizes of the current clusters, by ascending smallest position. A
    /// point that took part in no merge is no cluster and is left out.
    pub fn cluster_sizes(&self) -> (sizes: Vec<usize>)
        requires
            self.wf(),
        ensures
            sizes@ == cluster_sizes(self.labels()),
    {
        self.partition.cluster_sizes()
    }

    /// Whether exactly one cluster exists and holds every point.
    pub fn is_fully_connected(&self) -> (r: bool)
        requires
            self.wf(),
        ensures
            r == fully_connected(self.labels()),
            r == connected_after(self.points(), self.consumed()),
    {
        self.partition.is_fully_connected()
    }

    /// Takes exactly `steps` merge steps and reports the cluster sizes.
    /// Fails, taking no step, where fewer than `steps` edges are left.
    pub fn run_bounded(&mut self, steps: usize) -> (r: Result<Vec<usize>, ClusterError>)
        requires
            old(self).wf(),
        ensures
            final(self).wf(),
            final(self).points() == old(self).points(),
            old(self).consumed() + steps > old(self).queue().len() ==> {
                &&& r == Err::<Vec<usize>, ClusterError>(ClusterError::QueueExhausted)
                &&& final(self).consumed() == old(self).consumed()
            },
            old(self).consumed() + steps <= old(self).queue().len() ==> {
                &&& final(self).consumed() == old(self).consumed() + steps
                &&& r matches Ok(sizes)
                &&& sizes@ == cluster_sizes(
                    partition_after(old(self).points(), old(self).consumed() + steps as nat),
                )
            },
    {
        if steps > self.queue.len() - self.consumed {
            return Err(ClusterError::QueueExhausted);
        }
        let mut taken: usize = 0;
        while taken < steps
            invariant
                taken <= steps,
                self.wf(),
                self.points() == old(self).points(),
                self.consumed() == old(self).consumed() + taken,
                old(self).consumed() + steps <= old(self).queue().len(),
                old(self).wf(),
            decreases steps - taken,
        {
            let _ = self.step();
            taken = taken + 1;
        }
        Ok(self.cluster_sizes())
    }

    /// Takes merge steps until one cluster holds every point, and reports
    /// the edge whose merge completed it. Fails, taking no step, where there
    /// are fewer than two points.
    pub fn run_to_full_connectivity(&mut self) -> (r: Result<Edge, ClusterError>)
        requires
            old(self).wf(),
        ensures
            final(self).wf(),
            final(self).points() == old(self).points(),
            old(self).points().len() < 2 ==> {
                &&& r == Err::<Edge, ClusterError>(ClusterError::InsufficientPoints)
                &&& final(self).consumed() == old(self).consumed()
            },
            old(self).points().len() >= 2 ==> {
                &&& r == Ok::<Edge, ClusterError>(bridge_edge(old(self).points()))
                &&& bridge_edge(old(self).points()).a < bridge_edge(old(self).points()).b
                    < old(self).points().len()
                &&& is_bridge_step(old(self).points(), bridge_step(old(self).points()))
                &&& 1 <= bridge_step(old(self).points()) <= pair_count(old(self).points().len())
                &&& final(self).consumed() == if old(self).consumed() <= bridge_step(
                    old(self).points(),
                ) {
                    bridge_step(old(self).points())
                } else {
                    old(self).consumed()
                }
                &&& fully_connected(final(self).labels())
                &&& cluster_sizes(final(self).labels()) == seq![old(self).points().len() as usize]
            },
    {
        if self.points.len() < 2 {
            return Err(ClusterError::InsufficientPoints);
        }
        proof {
            lemma_edge_queue_properties(self.points@);
        }
        loop
            invariant
                self.wf(),
                self.points() == old(self).points(),
                self.points().len() >= 2,
                self.queue().len() == pair_count(self.points().len()),
                self.consumed() >= old(self).consumed(),
                self.consumed() > old(self).consumed() ==> !connected_after(
                    self.points(),
                    (self.consumed() - 1) as nat,
                ),
            decreases self.queue().len() - self.consumed(),
        {
            match self.bridge {
                Some(edge) => {
                    proof {
                        let k = self.consumed();
                        lemma_edge_queue_valid(self.points@);
                        lemma_labels_after_canonical(self.points@.len(), self.queue@, k);
                        lemma_bridge_step_exists(self.points@, k);
                        if k > old(self).consumed() {
                            lemma_bridge_step_is(self.points@, k);
                        }
                    }
                    return Ok(edge);
                },
                None => {},
            }
            proof {
                if self.consumed() == self.queue().len() {
                    lemma_exhausted_connected(self.points@);
                }
            }
            let _ = self.step();
        }
    }
}

/// Removes repeated points, keeping each point's first occurrence.
pub fn dedup_points(points: &[Point]) -> (out: Vec<Point>)
    ensures
        out@ == distinct_points(points@),
{
    let mut out: Vec<Point> = Vec::new();
    let mut i: usize = 0;
    while i < points.len()
        invariant
            i <= points.len(),
            out@ == distinct_points(points@.take(i as int)),
        decreases points.len() - i,
    {
        let p: Point = points[i];
        let mut seen: bool = false;
        let mut j: usize = 0;
        while j < out.len()
            invariant
                j <= out.len(),
                seen <==> exists|k: int| 0 <= k < j && out[k] == p,
            decreases out.len() - j,
        {
            if out[j] == p {
                seen = true;
            }
            j = j + 1;
        }
        proof {
            assert(points@.take(i + 1).drop_last() == points@.take(i as int));
            assert(points@.take(i + 1).last() == p);
            assert(seen <==> out@.contains(p));
        }
        if !seen {
            out.push(p);
        }
        i = i + 1;
    }
    proof {
        assert(points@.take(points.len() as int) == points@);
    }
    out
}

} // verus!
