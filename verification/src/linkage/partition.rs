//! The partition of point positions into clusters, and the merge that
//! coarsens it.
//!
//! A partition is modelled by a labelling: position `i` carries the smallest
//! position of its cluster. Two positions belong together exactly when their
//! labels agree. A position that no merge has touched is alone under its own
//! label; only clusters of two or more positions are reported as clusters.
//!
//! The structure itself is a disjoint-set forest: a lookup follows parents
//! to the root of a class and shortens the path it took, and a merge hangs
//! the root of the smaller class under that of the greater. The labelling is
//! what the forest stands for; the contracts speak of it alone.

use vstd::prelude::*;

verus! {

/// How a merge changed the partition.
#[derive(Debug, PartialEq, Eq, Clone, Copy, Structural)]
pub enum MergeOutcome {
    /// Two untouched positions formed a new cluster of two.
    Created,
    /// An existing cluster took in one untouched position.
    Grew,
    /// Two existing clusters became one.
    Unioned,
    /// Both positions were in one cluster already; nothing changed.
    Redundant,
}

/// The number of positions of `labels` that carry the label `r`.
pub open spec fn label_count(labels: Seq<usize>, r: usize) -> nat
    decreases labels.len(),
{
    if labels.len() == 0 {
        0
    } else {
        label_count(labels.drop_last(), r) + if labels.last() == r {
            1nat
        } else {
            0nat
        }
    }
}

/// Every label is the smallest position of its cluster: it is no greater
/// than the position that carries it, and it labels itself.
pub open spec fn canonical(labels: Seq<usize>) -> bool {
    forall|i: int|
        0 <= i < labels.len() ==> {
            &&& (#[trigger] labels[i]) <= i
            &&& labels[labels[i] as int] == labels[i]
        }
}

/// The finest partition: every position alone.
pub open spec fn singletons(n: nat) -> Seq<usize> {
    Seq::new(n, |i: int| i as usize)
}

/// `labels` with every occurrence of `from` replaced by `to`.
pub open spec fn relabel(labels: Seq<usize>, from: usize, to: usize) -> Seq<usize> {
    Seq::new(
        labels.len(),
        |i: int|
            if labels[i] == from {
                to
            } else {
                labels[i]
            },
    )
}

/// The smaller of the labels of `a` and `b`.
pub open spec fn low_label(labels: Seq<usize>, a: int, b: int) -> usize {
    if labels[a] <= labels[b] {
        labels[a]
    } else {
        labels[b]
    }
}

/// The greater of the labels of `a` and `b`.
pub open spec fn high_label(labels: Seq<usize>, a: int, b: int) -> usize {
    if labels[a] <= labels[b] {
        labels[b]
    } else {
        labels[a]
    }
}

/// The partition after the clusters of `a` and `b` have been united: the
/// cluster with the greater label takes the smaller one. Where `a` and `b`
/// were together already this is `labels` itself.
pub open spec fn merged(labels: Seq<usize>, a: int, b: int) -> Seq<usize> {
    relabel(labels, high_label(labels, a, b), low_label(labels, a, b))
}

/// What a merge of the clusters of `a` and `b` does to the partition.
pub open spec fn outcome_of(labels: Seq<usize>, a: int, b: int) -> MergeOutcome {
    if labels[a] == labels[b] {
        MergeOutcome::Redundant
    } else {
        let size_a = label_count(labels, labels[a]);
        let size_b = label_count(labels, labels[b]);
        if size_a == 1 && size_b == 1 {
            MergeOutcome::Created
        } else if size_a == 1 || size_b == 1 {
            MergeOutcome::Grew
        } else {
            MergeOutcome::Unioned
        }
    }
}

/// The number of positions below `m` that label themselves.
pub open spec fn roots_below(labels: Seq<usize>, m: nat) -> nat
    decreases m,
{
    if m == 0 {
        0
    } else {
        roots_below(labels, (m - 1) as nat) + if labels[m - 1] == m - 1 {
            1nat
        } else {
            0nat
        }
    }
}

/// The number of classes of the partition, single positions included.
pub open spec fn component_count(labels: Seq<usize>) -> nat {
    roots_below(labels, labels.len())
}

/// The sizes of the clusters labelled below `m`, by ascending label. Only a
/// class of two or more positions is a cluster.
pub open spec fn sizes_below(labels: Seq<usize>, m: nat) -> Seq<usize>
    decreases m,
{
    if m == 0 {
        Seq::empty()
    } else {
        let rest = sizes_below(labels, (m - 1) as nat);
        let size = label_count(labels, (m - 1) as usize);
        if size >= 2 {
            rest.push(size as usize)
        } else {
            rest
        }
    }
}

/// The sizes of all clusters, by ascending label.
pub open spec fn cluster_sizes(labels: Seq<usize>) -> Seq<usize> {
    sizes_below(labels, labels.len())
}

/// Exactly one cluster exists, and it holds every position.
pub open spec fn fully_connected(labels: Seq<usize>) -> bool {
    cluster_sizes(labels) == seq![labels.len() as usize]
}

/// No label is carried by more positions than there are.
pub proof fn lemma_label_count_bound(labels: Seq<usize>, r: usize)
    ensures
        label_count(labels, r) <= labels.len(),
    decreases labels.len(),
{
    if labels.len() > 0 {
        lemma_label_count_bound(labels.drop_last(), r);
    }
}

/// A position that carries `r` is counted.
pub proof fn lemma_label_count_positive(labels: Seq<usize>, i: int)
    requires
        0 <= i < labels.len(),
    ensures
        label_count(labels, labels[i]) >= 1,
    decreases labels.len(),
{
    if i < labels.len() - 1 {
        lemma_label_count_positive(labels.drop_last(), i);
    }
}

/// Two distinct positions with one label make a class of at least two.
pub proof fn lemma_label_count_pair(labels: Seq<usize>, i: int, j: int)
    requires
        0 <= i < j < labels.len(),
        labels[i] == labels[j],
    ensures
        label_count(labels, labels[i]) >= 2,
    decreases labels.len(),
{
    if j < labels.len() - 1 {
        lemma_label_count_pair(labels.drop_last(), i, j);
    } else {
        lemma_label_count_positive(labels.drop_last(), i);
    }
}

/// A label that every position carries is counted once per position, and a
/// label counted once per position is carried by all.
pub proof fn lemma_label_count_all(labels: Seq<usize>, r: usize)
    ensures
        label_count(labels, r) == labels.len() <==> (forall|i: int|
            0 <= i < labels.len() ==> labels[i] == r),
    decreases labels.len(),
{
    if labels.len() > 0 {
        let rest = labels.drop_last();
        lemma_label_count_all(rest, r);
        lemma_label_count_bound(rest, r);
        if label_count(labels, r) == labels.len() {
            assert forall|i: int| 0 <= i < labels.len() implies labels[i] == r by {
                if i < rest.len() {
                    assert(rest[i] == r);
                }
            }
        }
        if forall|i: int| 0 <= i < labels.len() ==> labels[i] == r {
            assert forall|i: int| 0 <= i < rest.len() implies rest[i] == r by {
                assert(labels[i] == r);
            }
        }
    }
}

/// A label that no position carries is counted zero times, and conversely.
pub proof fn lemma_label_count_none(labels: Seq<usize>, r: usize)
    ensures
        label_count(labels, r) == 0 <==> (forall|i: int|
            0 <= i < labels.len() ==> labels[i] != r),
    decreases labels.len(),
{
    if labels.len() > 0 {
        let rest = labels.drop_last();
        lemma_label_count_none(rest, r);
        if label_count(labels, r) == 0 {
            assert forall|i: int| 0 <= i < labels.len() implies labels[i] != r by {
                if i < rest.len() {
                    assert(rest[i] != r);
                }
            }
        }
        if forall|i: int| 0 <= i < labels.len() ==> labels[i] != r {
            assert forall|i: int| 0 <= i < rest.len() implies rest[i] != r by {
                assert(labels[i] != r);
            }
        }
    }
}

/// Two different labels share the positions between them.
pub proof fn lemma_label_count_disjoint(labels: Seq<usize>, r1: usize, r2: usize)
    requires
        r1 != r2,
    ensures
        label_count(labels, r1) + label_count(labels, r2) <= labels.len(),
    decreases labels.len(),
{
    if labels.len() > 0 {
        lemma_label_count_disjoint(labels.drop_last(), r1, r2);
    }
}

/// In the finest partition every label is carried once.
pub proof fn lemma_singletons_count(n: nat, r: usize)
    requires
        n <= usize::MAX,
    ensures
        label_count(singletons(n), r) == if r < n {
            1nat
        } else {
            0nat
        },
    decreases n,
{
    if n > 0 {
        lemma_singletons_count((n - 1) as nat, r);
        assert(singletons(n).drop_last() == singletons((n - 1) as nat));
    }
}

/// In the finest partition every position labels itself.
pub proof fn lemma_singletons_roots(n: nat, m: nat)
    requires
        m <= n <= usize::MAX,
    ensures
        roots_below(singletons(n), m) == m,
        sizes_below(singletons(n), m) == Seq::<usize>::empty(),
        canonical(singletons(n)),
    decreases m,
{
    if m > 0 {
        lemma_singletons_roots(n, (m - 1) as nat);
        lemma_singletons_count(n, (m - 1) as usize);
    }
}

/// How relabelling changes the count of each label.
pub proof fn lemma_relabel_count(labels: Seq<usize>, from: usize, to: usize, r: usize)
    requires
        from != to,
    ensures
        label_count(relabel(labels, from, to), r) == if r == from {
            0nat
        } else if r == to {
            label_count(labels, to) + label_count(labels, from)
        } else {
            label_count(labels, r)
        },
    decreases labels.len(),
{
    if labels.len() > 0 {
        lemma_relabel_count(labels.drop_last(), from, to, r);
        assert(relabel(labels, from, to).drop_last() == relabel(labels.drop_last(), from, to));
    }
}

/// Uniting two classes keeps the labelling canonical.
pub proof fn lemma_merged_canonical(labels: Seq<usize>, a: int, b: int)
    requires
        canonical(labels),
        0 <= a < labels.len(),
        0 <= b < labels.len(),
    ensures
        canonical(merged(labels, a, b)),
        merged(labels, a, b).len() == labels.len(),
        labels[a] == labels[b] ==> merged(labels, a, b) == labels,
{
    let lo = low_label(labels, a, b);
    let hi = high_label(labels, a, b);
    let next = merged(labels, a, b);
    assert(labels[lo as int] == lo);
    assert(labels[hi as int] == hi);
    assert forall|i: int| 0 <= i < next.len() implies {
        &&& (#[trigger] next[i]) <= i
        &&& next[next[i] as int] == next[i]
    } by {
        let l = labels[i];
        assert(labels[l as int] == l);
    }
    if labels[a] == labels[b] {
        assert(next =~= labels);
    }
}

/// Uniting two distinct classes removes exactly one root: the greater label.
pub proof fn lemma_merged_roots(labels: Seq<usize>, a: int, b: int, m: nat)
    requires
        canonical(labels),
        0 <= a < labels.len(),
        0 <= b < labels.len(),
        labels[a] != labels[b],
        m <= labels.len(),
    ensures
        roots_below(merged(labels, a, b), m) + (if high_label(labels, a, b) < m {
            1nat
        } else {
            0nat
        }) == roots_below(labels, m),
    decreases m,
{
    if m > 0 {
        lemma_merged_roots(labels, a, b, (m - 1) as nat);
        let hi = high_label(labels, a, b);
        assert(labels[hi as int] == hi);
        let l = labels[m - 1];
        assert(l <= m - 1);
    }
}

/// The number of clusters labelled below `m`.
pub open spec fn clusters_below(labels: Seq<usize>, m: nat) -> nat {
    sizes_below(labels, m).len()
}

/// How many clusters a merge of two distinct classes adds or removes among
/// those labelled below `m`.
pub proof fn lemma_merged_clusters(labels: Seq<usize>, a: int, b: int, m: nat)
    requires
        canonical(labels),
        0 <= a < labels.len(),
        0 <= b < labels.len(),
        labels[a] != labels[b],
        m <= labels.len() <= usize::MAX,
    ensures
        ({
            let lo = low_label(labels, a, b);
            let hi = high_label(labels, a, b);
            clusters_below(merged(labels, a, b), m) + (if lo < m && label_count(labels, lo) >= 2 {
                1nat
            } else {
                0nat
            }) + (if hi < m && label_count(labels, hi) >= 2 {
                1nat
            } else {
                0nat
            }) == clusters_below(labels, m) + (if lo < m {
                1nat
            } else {
                0nat
            })
        }),
    decreases m,
{
    if m > 0 {
        let lo = low_label(labels, a, b);
        let hi = high_label(labels, a, b);
        lemma_merged_clusters(labels, a, b, (m - 1) as nat);
        lemma_relabel_count(labels, hi, lo, (m - 1) as usize);
        lemma_label_count_positive(labels, a);
        lemma_label_count_positive(labels, b);
    }
}

/// The disjoint-set structure of the merge engine: a forest over the
/// positions, united by size, with paths shortened on every lookup.
pub struct Partition {
    /// The next position on the way to the root of the class; a root is
    /// its own parent.
    parent: Vec<usize>,
    /// At a root, the smallest position of its class.
    least: Vec<usize>,
    /// At a label, the number of positions that carry it.
    size: Vec<usize>,
    components: usize,
    /// The labelling that the forest stands for.
    model: Ghost<Seq<usize>>,
    /// A height for every position, greater at a parent than at its child.
    rank: Ghost<Seq<nat>>,
    /// At a label, the root of the class that carries it.
    head: Ghost<Seq<usize>>,
}

impl Partition {
    /// The labelling that the structure stands for.
    pub closed spec fn labels(&self) -> Seq<usize> {
        self.model@
    }

    /// Position `i` hangs in the forest as the labelling says: its parent
    /// is of its class and stands higher, its class has one root, which
    /// stands highest, and a root knows the smallest position of its class.
    spec fn linked(&self, i: int) -> bool {
        let n = self.parent.len();
        let p = self.parent[i] as int;
        let h = self.head@[self.model@[i] as int] as int;
        &&& 0 <= p < n
        &&& self.model@[p] == self.model@[i]
        &&& (p != i ==> self.rank@[i] < self.rank@[p])
        &&& 0 <= h < n
        &&& self.parent[h] == h
        &&& self.model@[h] == self.model@[i]
        &&& (i != h ==> self.rank@[i] < self.rank@[h])
        &&& (p == i ==> h == i && self.least[i] == self.model@[i])
    }

    /// The structure's invariant: the labelling is canonical, the forest
    /// agrees with it, and the cached sizes and class count agree with it.
    pub closed spec fn wf(&self) -> bool {
        &&& self.model@.len() == self.parent.len()
        &&& self.least.len() == self.parent.len()
        &&& self.size.len() == self.parent.len()
        &&& self.rank@.len() == self.parent.len()
        &&& self.head@.len() == self.parent.len()
        &&& canonical(self.model@)
        &&& forall|r: int|
            0 <= r < self.size.len() ==> (#[trigger] self.size[r]) == label_count(
                self.model@,
                r as usize,
            )
        &&& self.components == component_count(self.model@)
        &&& forall|i: int| 0 <= i < self.parent.len() ==> #[trigger] self.linked(i)
    }

    /// A well-formed partition has a canonical labelling.
    pub proof fn lemma_wf_canonical(&self)
        requires
            self.wf(),
        ensures
            canonical(self.labels()),
    {
    }

    /// The finest partition of `n` positions.
    pub fn new(n: usize) -> (p: Partition)
        ensures
            p.wf(),
            p.labels() == singletons(n as nat),
    {
        let mut parent: Vec<usize> = Vec::new();
        let mut least: Vec<usize> = Vec::new();
        let mut size: Vec<usize> = Vec::new();
        let mut i: usize = 0;
        while i < n
            invariant
                i <= n,
                parent@ == singletons(i as nat),
                least@ == singletons(i as nat),
                size@ == Seq::new(i as nat, |k: int| 1usize),
            decreases n - i,
        {
            parent.push(i);
            least.push(i);
            size.push(1);
            i = i + 1;
        }
        let p = Partition {
            parent,
            least,
            size,
            components: n,
            model: Ghost(singletons(n as nat)),
            rank: Ghost(Seq::new(n as nat, |k: int| 0nat)),
            head: Ghost(singletons(n as nat)),
        };
        proof {
            lemma_singletons_roots(n as nat, n as nat);
            assert forall|r: int| 0 <= r < p.size.len() implies (#[trigger] p.size[r])
                == label_count(p.model@, r as usize) by {
                lemma_singletons_count(n as nat, r as usize);
            }
            assert forall|i: int| 0 <= i < p.parent.len() implies #[trigger] p.linked(i) by {}
        }
        p
    }

    /// The number of positions.
    pub fn len(&self) -> (n: usize)
        requires
            self.wf(),
        ensures
            n == self.labels().len(),
    {
        self.parent.len()
    }

    /// The root of the class of position `i`. Every position on the way
    /// to it is hung directly under it.
    fn root(&mut self, i: usize) -> (r: usize)
        requires
            old(self).wf(),
            i < old(self).model@.len(),
        ensures
            final(self).wf(),
            final(self).model == old(self).model,
            final(self).head == old(self).head,
            final(self).rank == old(self).rank,
            final(self).least == old(self).least,
            final(self).size == old(self).size,
            final(self).components == old(self).components,
            r == old(self).head@[old(self).model@[i as int] as int],
    {
        let ghost top = self.head@[self.model@[i as int] as int];
        proof {
            assert(self.linked(i as int));
        }
        let mut r: usize = i;
        while self.parent[r] != r
            invariant
                *self == *old(self),
                self.wf(),
                r < self.parent.len(),
                self.model@[r as int] == self.model@[i as int],
                top == self.head@[self.model@[i as int] as int],
                self.rank@[r as int] <= self.rank@[top as int],
            decreases self.rank@[top as int] - self.rank@[r as int],
        {
            proof {
                assert(self.linked(r as int));
                assert(self.linked(self.parent[r as int] as int));
            }
            r = self.parent[r];
        }
        proof {
            assert(self.linked(r as int));
        }
        let mut at: usize = i;
        while self.parent[at] != at
            invariant
                self.wf(),
                self.model == old(self).model,
                self.head == old(self).head,
                self.rank == old(self).rank,
                self.least == old(self).least,
                self.size == old(self).size,
                self.components == old(self).components,
                at < self.parent.len(),
                r < self.parent.len(),
                self.model@[at as int] == self.model@[i as int],
                r == top,
                top == self.head@[self.model@[i as int] as int],
                self.rank@[at as int] <= self.rank@[top as int],
            decreases self.rank@[top as int] - self.rank@[at as int],
        {
            let next: usize = self.parent[at];
            let ghost before = *self;
            proof {
                assert(self.linked(at as int));
                assert(self.linked(next as int));
            }
            self.parent.set(at, r);
            proof {
                assert forall|j: int| 0 <= j < self.parent.len() implies #[trigger] self.linked(
                    j,
                ) by {
                    assert(before.linked(j));
                }
            }
            at = next;
        }
        r
    }

    /// The label of position `i`: the smallest position of its cluster.
    /// `None` where `i` is no position. The partition stays what it was.
    pub fn find(&mut self, i: usize) -> (r: Option<usize>)
        requires
            old(self).wf(),
        ensures
            final(self).wf(),
            final(self).labels() == old(self).labels(),
            r == if i < old(self).labels().len() {
                Some(old(self).labels()[i as int])
            } else {
                None
            },
    {
        if i < self.parent.len() {
            let r = self.root(i);
            proof {
                assert(self.linked(i as int));
                assert(self.linked(r as int));
            }
            Some(self.least[r])
        } else {
            None
        }
    }

    /// Whether `a` and `b` are positions of one cluster. The partition
    /// stays what it was.
    pub fn same_cluster(&mut self, a: usize, b: usize) -> (r: bool)
        requires
            old(self).wf(),
        ensures
            final(self).wf(),
            final(self).labels() == old(self).labels(),
            r == (a < old(self).labels().len() && b < old(self).labels().len() && old(
                self,
            ).labels()[a as int] == old(self).labels()[b as int]),
    {
        if a < self.parent.len() && b < self.parent.len() {
            let ra = self.root(a);
            let rb = self.root(b);
            proof {
                assert(self.linked(a as int));
                assert(self.linked(b as int));
                assert(self.linked(ra as int));
                assert(self.linked(rb as int));
            }
            ra == rb
        } else {
            false
        }
    }

    /// The number of classes, single positions included.
    pub fn component_count(&self) -> (n: usize)
        requires
            self.wf(),
        ensures
            n == component_count(self.labels()),
    {
        self.components
    }

    /// Unites the clusters of the positions `a` and `b` and says what that
    /// did. The root of the smaller class is hung under that of the
    /// greater.
    pub fn unite(&mut self, a: usize, b: usize) -> (outcome: MergeOutcome)
        requires
            old(self).wf(),
            a < old(self).labels().len(),
            b < old(self).labels().len(),
        ensures
            final(self).wf(),
            final(self).labels() == merged(old(self).labels(), a as int, b as int),
            outcome == outcome_of(old(self).labels(), a as int, b as int),
    {
        let ra: usize = self.root(a);
        let rb: usize = self.root(b);
        let ghost before = *self;
        let ghost labels = self.model@;
        proof {
            assert(self.linked(a as int));
            assert(self.linked(b as int));
            assert(self.linked(ra as int));
            assert(self.linked(rb as int));
            lemma_merged_canonical(labels, a as int, b as int);
        }
        if ra == rb {
            proof {
                assert(merged(labels, a as int, b as int) =~= labels);
            }
            return MergeOutcome::Redundant;
        }
        let la: usize = self.least[ra];
        let lb: usize = self.least[rb];
        let lo: usize = if la <= lb {
            la
        } else {
            lb
        };
        let hi: usize = if la <= lb {
            lb
        } else {
            la
        };
        let size_a: usize = self.size[la];
        let size_b: usize = self.size[lb];
        let child: usize = if size_a < size_b {
            ra
        } else {
            rb
        };
        let keep: usize = if size_a < size_b {
            rb
        } else {
            ra
        };
        proof {
            lemma_label_count_disjoint(labels, lo, hi);
            lemma_label_count_positive(labels, a as int);
            lemma_label_count_positive(labels, b as int);
            lemma_merged_roots(labels, a as int, b as int, labels.len());
        }
        let ghost height = if self.rank@[keep as int] > self.rank@[child as int] {
            self.rank@[keep as int]
        } else {
            self.rank@[child as int] + 1
        };
        self.parent.set(child, keep);
        self.least.set(keep, lo);
        self.size.set(lo, size_a + size_b);
        self.size.set(hi, 0);
        self.components = self.components - 1;
        self.model = Ghost(merged(labels, a as int, b as int));
        self.rank = Ghost(before.rank@.update(keep as int, height));
        self.head = Ghost(before.head@.update(lo as int, keep));
        proof {
            assert forall|r: int| 0 <= r < self.size.len() implies (#[trigger] self.size[r])
                == label_count(self.model@, r as usize) by {
                lemma_relabel_count(labels, hi, lo, r as usize);
            }
            assert forall|j: int| 0 <= j < self.parent.len() implies #[trigger] self.linked(
                j,
            ) by {
                assert(before.linked(j));
                assert(before.linked(before.parent[j] as int));
                assert(before.linked(before.head@[labels[j] as int] as int));
            }
        }
        if size_a == 1 && size_b == 1 {
            MergeOutcome::Created
        } else if size_a == 1 || size_b == 1 {
            MergeOutcome::Grew
        } else {
            MergeOutcome::Unioned
        }
    }

    /// Unites the clusters of `a` and `b` and says what that did. `None`,
    /// with the partition untouched, where `a` or `b` is no position.
    pub fn merge(&mut self, a: usize, b: usize) -> (outcome: Option<MergeOutcome>)
        requires
            old(self).wf(),
        ensures
            final(self).wf(),
            a < old(self).labels().len() && b < old(self).labels().len() ==> {
                &&& final(self).labels() == merged(old(self).labels(), a as int, b as int)
                &&& outcome == Some(outcome_of(old(self).labels(), a as int, b as int))
            },
            !(a < old(self).labels().len() && b < old(self).labels().len()) ==> {
                &&& final(self).labels() == old(self).labels()
                &&& outcome.is_none()
            },
    {
        if a < self.parent.len() && b < self.parent.len() {
            Some(self.unite(a, b))
        } else {
            None
        }
    }

    /// The sizes of the current clusters, by ascending label. A position
    /// that no merge has touched is no cluster and contributes nothing.
    pub fn cluster_sizes(&self) -> (sizes: Vec<usize>)
        requires
            self.wf(),
        ensures
            sizes@ == cluster_sizes(self.labels()),
    {
        let n: usize = self.size.len();
        let mut sizes: Vec<usize> = Vec::new();
        let mut r: usize = 0;
        while r < n
            invariant
                r <= n,
                n == self.size.len(),
                self.wf(),
                sizes@ == sizes_below(self.model@, r as nat),
            decreases n - r,
        {
            if self.size[r] >= 2 {
                sizes.push(self.size[r]);
            }
            r = r + 1;
        }
        sizes
    }

    /// Whether exactly one cluster exists and holds every position.
    pub fn is_fully_connected(&self) -> (r: bool)
        requires
            self.wf(),
        ensures
            r == fully_connected(self.labels()),
    {
        let n: usize = self.parent.len();
        proof {
            lemma_fully_connected_iff(self.model@);
        }
        n >= 2 && self.size[0] == n
    }
}

/// The clusters labelled below `m` are those of the labels below `m` that
/// two or more positions carry; each entry of `sizes_below` is such a
/// label's count.
pub proof fn lemma_sizes_below_members(labels: Seq<usize>, m: nat, k: int)
    requires
        m <= labels.len() <= usize::MAX,
        0 <= k < sizes_below(labels, m).len(),
    ensures
        exists|r: usize|
            r < m && label_count(labels, r) >= 2 && #[trigger] label_count(labels, r)
                == sizes_below(labels, m)[k],
    decreases m,
{
    if m > 0 {
        let rest = sizes_below(labels, (m - 1) as nat);
        if k < rest.len() {
            lemma_sizes_below_members(labels, (m - 1) as nat, k);
            let r = choose|r: usize|
                r < m - 1 && label_count(labels, r) >= 2 && #[trigger] label_count(labels, r)
                    == rest[k];
            assert(r < m && label_count(labels, r) >= 2 && label_count(labels, r) == sizes_below(
                labels,
                m,
            )[k]);
        } else {
            let r = (m - 1) as usize;
            lemma_label_count_bound(labels, r);
            assert(r < m && label_count(labels, r) >= 2 && label_count(labels, r) == sizes_below(
                labels,
                m,
            )[k]);
        }
    }
}

/// Where only label 0 is carried, the clusters below `m` are that one.
pub proof fn lemma_sizes_below_single(labels: Seq<usize>, m: nat)
    requires
        2 <= labels.len() <= usize::MAX,
        1 <= m <= labels.len(),
        forall|i: int| 0 <= i < labels.len() ==> labels[i] == 0,
    ensures
        sizes_below(labels, m) == seq![labels.len() as usize],
    decreases m,
{
    lemma_label_count_all(labels, 0);
    if m > 1 {
        lemma_sizes_below_single(labels, (m - 1) as nat);
        lemma_label_count_none(labels, (m - 1) as usize);
    } else {
        assert(sizes_below(labels, 0) == Seq::<usize>::empty());
        assert(Seq::<usize>::empty().push(labels.len() as usize) == seq![labels.len() as usize]);
    }
}

/// Full connectivity in other words: there are at least two positions, and
/// all of them carry label 0.
pub proof fn lemma_fully_connected_iff(labels: Seq<usize>)
    requires
        canonical(labels),
        labels.len() <= usize::MAX,
    ensures
        fully_connected(labels) <==> labels.len() >= 2 && label_count(labels, 0) == labels.len(),
        fully_connected(labels) <==> labels.len() >= 2 && (forall|i: int|
            0 <= i < labels.len() ==> labels[i] == 0),
{
    let n = labels.len();
    lemma_label_count_all(labels, 0);
    if fully_connected(labels) {
        assert(cluster_sizes(labels).len() == 1);
        lemma_sizes_below_members(labels, n, 0);
        let r = choose|r: usize|
            r < n && label_count(labels, r) >= 2 && #[trigger] label_count(labels, r)
                == sizes_below(labels, n)[0];
        assert(sizes_below(labels, n)[0] == n as usize);
        lemma_label_count_all(labels, r);
        assert(labels[0] == r);
    }
    if n >= 2 && label_count(labels, 0) == n {
        lemma_sizes_below_single(labels, n);
    }
}

} // verus!
