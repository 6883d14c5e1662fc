//! What a table of labels and clusters means: the trees that its ids stand for.

use vstd::prelude::*;
use crate::io_tree::Tree;
use crate::structs::{Cluster, MergeType};

verus! {

/// Every cluster is made of ids that are older than its own, where the
/// first cluster has the id `labels`.
pub open spec fn older_children(labels: nat, clusters: Seq<Cluster>) -> bool {
    forall|k: int|
        #![trigger clusters[k]]
        0 <= k < clusters.len() ==> clusters[k].first_child < labels + k && clusters[k].second_child
            < labels + k
}

/// The clusters after `cluster` was looked up and, if new, appended.
pub open spec fn added(clusters: Seq<Cluster>, cluster: Cluster) -> Seq<Cluster> {
    if clusters.contains(cluster) {
        clusters
    } else {
        clusters.push(cluster)
    }
}

/// The number of labels below `id`, each occurrence counted, plus one for
/// every cluster on the way; it stops at the largest `usize`.
pub open spec fn size_of(labels: nat, clusters: Seq<Cluster>, id: int) -> nat
    decreases id,
{
    if id < 0 || id >= labels + clusters.len() {
        0
    } else if id < labels {
        1
    } else {
        let c = clusters[id - labels];
        if c.first_child < id && c.second_child < id {
            let sum = 1 + size_of(labels, clusters, c.first_child as int) + size_of(
                labels,
                clusters,
                c.second_child as int,
            );
            if sum > usize::MAX {
                usize::MAX as nat
            } else {
                sum
            }
        } else {
            0
        }
    }
}

/// A size does not change when clusters are appended.
pub proof fn lemma_size_of_extends(labels: nat, clusters: Seq<Cluster>, later: Seq<Cluster>, id: int)
    requires
        clusters.is_prefix_of(later),
        0 <= id < labels + clusters.len(),
    ensures
        size_of(labels, later, id) == size_of(labels, clusters, id),
    decreases id,
{
    if id >= labels {
        let c = clusters[id - labels];
        assert(later[id - labels] == c);
        if c.first_child < id && c.second_child < id {
            lemma_size_of_extends(labels, clusters, later, c.first_child as int);
            lemma_size_of_extends(labels, clusters, later, c.second_child as int);
        }
    }
}

/// A table of labels and clusters as a mathematical value. Ids below the
/// number of labels name a label; the id after them names the first
/// cluster, and so on.
pub struct Dag {
    pub labels: Seq<Seq<char>>,
    pub clusters: Seq<Cluster>,
}

impl Dag {
    /// The number of ids in use.
    pub open spec fn ids(self) -> int {
        (self.labels.len() + self.clusters.len()) as int
    }

    /// Every cluster is made of ids that are older than its own.
    pub open spec fn wf(self) -> bool {
        older_children(self.labels.len(), self.clusters)
    }

    /// No cluster stands in the table twice.
    pub open spec fn canonical(self) -> bool {
        self.clusters.no_duplicates()
    }

    /// The row of trees that `id` stands for when `kids` hang below its
    /// lower end.
    ///
    /// A label is one node with `kids` as children. An `AB` cluster puts its
    /// second child below its first. A `CE` cluster is its first child,
    /// which keeps `kids`, followed by its second as a sibling without
    /// children. A `DE` cluster is its first child without children,
    /// followed by its second, which keeps `kids`.
    pub open spec fn expand(self, id: int, kids: Seq<Tree>) -> Seq<Tree>
        decreases id,
    {
        if id < 0 || id >= self.ids() {
            Seq::empty()
        } else if id < self.labels.len() {
            seq![Tree { label: self.labels[id], children: kids }]
        } else {
            let c = self.clusters[id - self.labels.len()];
            if c.first_child < id && c.second_child < id {
                match c.merge_type {
                    MergeType::AB => self.expand(
                        c.first_child as int,
                        self.expand(c.second_child as int, kids),
                    ),
                    MergeType::CE => self.expand(c.first_child as int, kids) + self.expand(
                        c.second_child as int,
                        Seq::empty(),
                    ),
                    MergeType::DE => self.expand(c.first_child as int, Seq::empty())
                        + self.expand(c.second_child as int, kids),
                }
            } else {
                Seq::empty()
            }
        }
    }

    /// The number of labels below `id`, each occurrence counted, plus one
    /// for every cluster on the way; it stops at the largest `usize`.
    pub open spec fn size(self, id: int) -> nat {
        size_of(self.labels.len(), self.clusters, id)
    }

    /// The table after `cluster` was looked up and, if new, appended.
    pub open spec fn with(self, cluster: Cluster) -> Dag {
        Dag { labels: self.labels, clusters: added(self.clusters, cluster) }
    }

    /// The id under which `cluster` stands in the table, if it does.
    pub open spec fn id_of(self, cluster: Cluster) -> Option<int> {
        if self.clusters.contains(cluster) {
            Some(self.labels.len() + self.clusters.index_of(cluster))
        } else {
            None
        }
    }

    /// `self` is `other` with more behind it: more clusters, or, as long as
    /// `other` has no cluster, more labels.
    pub open spec fn extends(self, other: Dag) -> bool {
        &&& other.labels.is_prefix_of(self.labels)
        &&& other.clusters.is_prefix_of(self.clusters)
        &&& (other.clusters.len() > 0 ==> self.labels == other.labels)
    }
}

/// Adding a cluster gives it an id, and the table is as well-formed and as
/// free of duplicates as before.
pub proof fn lemma_with_keeps_table(dag: Dag, cluster: Cluster)
    requires
        dag.wf(),
        dag.canonical(),
        cluster.first_child < dag.ids(),
        cluster.second_child < dag.ids(),
    ensures
        dag.with(cluster).wf(),
        dag.with(cluster).canonical(),
        dag.with(cluster).extends(dag),
        dag.with(cluster).id_of(cluster) is Some,
        dag.id_of(cluster) is None ==> dag.with(cluster).id_of(cluster) == Some(dag.ids()),
        dag.id_of(cluster) is Some ==> dag.with(cluster).id_of(cluster) == dag.id_of(cluster),
{
    let after = dag.with(cluster);
    if !dag.clusters.contains(cluster) {
        let n = dag.clusters.len() as int;
        assert(after.clusters[n] == cluster);
        assert forall|i: int, j: int|
            0 <= i < after.clusters.len() && 0 <= j < after.clusters.len() && i != j implies after.clusters[i]
            != after.clusters[j] by {
            if i < n && j < n {
                assert(dag.clusters[i] != dag.clusters[j]);
            } else if i < n {
                assert(dag.clusters[i] == after.clusters[i]);
            } else {
                assert(dag.clusters[j] == after.clusters[j]);
            }
        }
        assert(after.clusters.contains(cluster));
        let at = after.clusters.index_of(cluster);
        assert(after.clusters[at] == cluster);
        assert(at == n);
    }
}

/// Canonical ids: whenever a cluster is added again, to the same table or
/// to one that has grown since, it gets the id that it got the first time.
pub proof fn lemma_canonical_id(dag: Dag, later: Dag, cluster: Cluster)
    requires
        dag.wf(),
        dag.canonical(),
        later.canonical(),
        cluster.first_child < dag.ids(),
        cluster.second_child < dag.ids(),
        later.extends(dag.with(cluster)),
    ensures
        later.with(cluster) == later,
        later.id_of(cluster) == dag.with(cluster).id_of(cluster),
{
    lemma_with_keeps_table(dag, cluster);
    let first = dag.with(cluster);
    let at = first.clusters.index_of(cluster);
    assert(first.clusters.contains(cluster));
    assert(first.clusters[at] == cluster);
    assert(later.clusters[at] == first.clusters[at]);
    assert(later.clusters.contains(cluster));
    let again = later.clusters.index_of(cluster);
    assert(later.clusters[again] == cluster);
    assert(again == at);
}

/// Two different clusters never share an id.
pub proof fn lemma_distinct_ids(dag: Dag, one: Cluster, other: Cluster)
    requires
        dag.id_of(one) is Some,
        dag.id_of(one) == dag.id_of(other),
    ensures
        one == other,
{
    let i = dag.clusters.index_of(one);
    let j = dag.clusters.index_of(other);
    assert(dag.clusters[i] == one);
    assert(dag.clusters[j] == other);
}

/// What an id stands for does not change when clusters are appended.
pub proof fn lemma_expand_extends(dag: Dag, later: Dag, id: int, kids: Seq<Tree>)
    requires
        later.extends(dag),
        0 <= id < dag.ids(),
    ensures
        later.expand(id, kids) == dag.expand(id, kids),
    decreases id,
{
    if id >= dag.labels.len() {
        assert(later.labels == dag.labels);
        let c = dag.clusters[id - dag.labels.len()];
        assert(later.clusters[id - later.labels.len()] == c);
        if c.first_child < id && c.second_child < id {
            lemma_expand_extends(dag, later, c.first_child as int, kids);
            lemma_expand_extends(dag, later, c.first_child as int, Seq::empty());
            lemma_expand_extends(dag, later, c.second_child as int, kids);
            lemma_expand_extends(dag, later, c.second_child as int, Seq::empty());
            lemma_expand_extends(
                dag,
                later,
                c.first_child as int,
                dag.expand(c.second_child as int, kids),
            );
        }
    }
}

} // verus!
