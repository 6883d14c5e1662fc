//! The table that gives every distinct merge exactly one id.

use std::collections::HashMap;
use vstd::prelude::*;
use vstd::std_specs::hash::*;
use crate::dag::{added, lemma_size_of_extends, older_children, size_of};
use crate::structs::{Cluster, MergeType};

verus! {

/// The two children of a cluster as one number.
pub open spec fn pair_key(first: usize, second: usize) -> u128 {
    (first as u128 * 0x1_0000_0000_0000_0000u128 + second as u128) as u128
}

proof fn lemma_pair_key_injective(a: usize, b: usize, c: usize, d: usize)
    requires
        pair_key(a, b) == pair_key(c, d),
    ensures
        a == c,
        b == d,
{
    assert(a as int * 0x1_0000_0000_0000_0000 + b as int == c as int * 0x1_0000_0000_0000_0000
        + d as int);
}

fn make_key(first: usize, second: usize) -> (key: u128)
    ensures
        key == pair_key(first, second),
{
    first as u128 * 0x1_0000_0000_0000_0000u128 + second as u128
}

/// The clusters in the order of their ids, and an index that finds a
/// cluster by its shape and children.
pub struct ClusterTable {
    labels: usize,
    clusters: Vec<Cluster>,
    sizes: Vec<usize>,
    ab: HashMap<u128, usize>,
    ce: HashMap<u128, usize>,
    de: HashMap<u128, usize>,
}

impl View for ClusterTable {
    type V = Seq<Cluster>;

    closed spec fn view(&self) -> Seq<Cluster> {
        self.clusters@
    }
}

impl ClusterTable {
    /// The number of label ids that come before the first cluster id.
    pub closed spec fn label_count(&self) -> nat {
        self.labels as nat
    }

    /// The id that the next new cluster will get.
    pub open spec fn next_id(&self) -> int {
        (self.label_count() + self@.len()) as int
    }

    spec fn find(&self, c: Cluster) -> Option<usize> {
        let index = match c.merge_type {
            MergeType::AB => self.ab@,
            MergeType::CE => self.ce@,
            MergeType::DE => self.de@,
        };
        let key = pair_key(c.first_child, c.second_child);
        if index.contains_key(key) {
            Some(index[key])
        } else {
            None
        }
    }

    /// The table is consistent: children are older than their cluster, the
    /// ids fit, the index knows exactly the clusters of the table, and the
    /// sizes are those of the clusters.
    pub closed spec fn wf(&self) -> bool {
        &&& self.labels + self.clusters@.len() <= usize::MAX
        &&& older_children(self.labels as nat, self.clusters@)
        &&& self.sizes@.len() == self.clusters@.len()
        &&& forall|k: int|
            0 <= k < self.clusters@.len() ==> #[trigger] self.sizes@[k] == size_of(
                self.labels as nat,
                self.clusters@,
                self.labels + k,
            )
        &&& forall|k: int|
            0 <= k < self.clusters@.len() ==> self.find(#[trigger] self.clusters@[k]) == Some(
                (self.labels + k) as usize,
            )
        &&& forall|c: Cluster|
            (#[trigger] self.find(c)) is Some ==> self.labels <= self.find(c)->0 && self.find(c)->0
                - self.labels < self.clusters@.len() && self.clusters@[self.find(c)->0
                - self.labels] == c
    }

    /// A consistent table holds no cluster twice, its children are older
    /// than their cluster, and its ids fit.
    pub proof fn lemma_wf(&self)
        requires
            self.wf(),
        ensures
            self@.no_duplicates(),
            older_children(self.label_count(), self@),
            self.next_id() <= usize::MAX,
    {
        assert forall|i: int, j: int| 0 <= i < self@.len() && 0 <= j < self@.len() && i != j implies self@[i]
            != self@[j] by {
            assert(self.find(self.clusters@[i]) == Some((self.labels + i) as usize));
            assert(self.find(self.clusters@[j]) == Some((self.labels + j) as usize));
        }
    }

    /// An empty table whose cluster ids start behind `labels` label ids.
    pub fn new(labels: usize) -> (table: ClusterTable)
        ensures
            table.wf(),
            table@ == Seq::<Cluster>::empty(),
            table.label_count() == labels,
    {
        ClusterTable {
            labels,
            clusters: Vec::new(),
            sizes: Vec::new(),
            ab: HashMap::new(),
            ce: HashMap::new(),
            de: HashMap::new(),
        }
    }

    /// The number of label ids that come before the first cluster id.
    pub fn labels(&self) -> (count: usize)
        ensures
            count == self.label_count(),
    {
        self.labels
    }

    /// The number of clusters.
    pub fn len(&self) -> (count: usize)
        ensures
            count == self@.len(),
    {
        self.clusters.len()
    }

    /// The clusters in the order of their ids.
    pub fn to_vec(&self) -> (clusters: Vec<Cluster>)
        ensures
            clusters@ == self@,
    {
        let mut clusters: Vec<Cluster> = Vec::new();
        let mut i: usize = 0;
        while i < self.clusters.len()
            invariant
                i <= self.clusters@.len(),
                clusters@ == self.clusters@.take(i as int),
            decreases self.clusters@.len() - i,
        {
            clusters.push(self.clusters[i]);
            assert(self.clusters@.take(i as int).push(self.clusters@[i as int])
                =~= self.clusters@.take(i + 1));
            i += 1;
        }
        assert(self.clusters@.take(self.clusters@.len() as int) =~= self.clusters@);
        clusters
    }

    /// The cluster with the given id.
    pub fn get(&self, id: usize) -> (cluster: Cluster)
        requires
            self.label_count() <= id < self.next_id(),
        ensures
            cluster == self@[id - self.label_count()],
    {
        self.clusters[id - self.labels]
    }

    /// The size recorded for `id`: 1 for a label, and for a cluster 1
    /// more than its children together, stopping at the largest `usize`.
    pub fn size(&self, id: usize) -> (size: usize)
        requires
            self.wf(),
            id < self.next_id(),
        ensures
            size == size_of(self.label_count(), self@, id as int),
    {
        if id < self.labels {
            1
        } else {
            self.sizes[id - self.labels]
        }
    }

    /// Looks a cluster up without changing the table: its id if the table
    /// holds it, `None` if not.
    pub fn lookup(&self, cluster: &Cluster) -> (found: Option<usize>)
        requires
            self.wf(),
        ensures
            self@.contains(*cluster) ==> found == Some(
                (self.label_count() + self@.index_of(*cluster)) as usize,
            ),
            !self@.contains(*cluster) ==> found is None,
    {
        broadcast use group_hash_axioms;

        let key = make_key(cluster.first_child, cluster.second_child);
        let hit = match cluster.merge_type {
            MergeType::AB => self.ab.get(&key),
            MergeType::CE => self.ce.get(&key),
            MergeType::DE => self.de.get(&key),
        };
        proof {
            self.lemma_wf();
            if self@.contains(*cluster) {
                let k = self@.index_of(*cluster);
                assert(self.clusters@[k] == *cluster);
                assert(self.find(self.clusters@[k]) == Some((self.labels + k) as usize));
            }
        }
        match hit {
            Some(id) => {
                proof {
                    assert(self.find(*cluster) == Some(*id));
                    let k = *id - self.labels;
                    assert(self.clusters@[k] == *cluster);
                    assert(self@.contains(*cluster));
                }
                Some(*id)
            },
            None => {
                proof {
                    assert(self.find(*cluster) is None);
                }
                None
            },
        }
    }

    /// The id of `cluster`: the one it has if the table holds it already,
    /// else the next free id, under which it is then stored.
    pub fn add_cluster(&mut self, cluster: Cluster) -> (id: usize)
        requires
            old(self).wf(),
            cluster.first_child < old(self).next_id(),
            cluster.second_child < old(self).next_id(),
            old(self).next_id() < usize::MAX,
        ensures
            final(self).wf(),
            final(self).label_count() == old(self).label_count(),
            final(self)@ == added(old(self)@, cluster),
            id == final(self).label_count() + final(self)@.index_of(cluster),
            final(self)@.contains(cluster),
            old(self).label_count() <= id < final(self).next_id(),
            final(self)@[id - final(self).label_count()] == cluster,
    {
        broadcast use group_hash_axioms;

        proof {
            self.lemma_wf();
        }
        match self.lookup(&cluster) {
            Some(id) => {
                proof {
                    let k = self@.index_of(cluster);
                    assert(self@[k] == cluster);
                }
                id
            },
            None => {
                let id = self.labels + self.clusters.len();
                let first_size = self.size(cluster.first_child);
                let second_size = self.size(cluster.second_child);
                let size = first_size.saturating_add(second_size).saturating_add(1);
                let key = make_key(cluster.first_child, cluster.second_child);
                let ghost before = *self;
                self.sizes.push(size);
                self.clusters.push(cluster);
                match cluster.merge_type {
                    MergeType::AB => {
                        self.ab.insert(key, id);
                    },
                    MergeType::CE => {
                        self.ce.insert(key, id);
                    },
                    MergeType::DE => {
                        self.de.insert(key, id);
                    },
                }
                proof {
                    let n = before.clusters@.len() as int;
                    assert(self.clusters@ == before.clusters@.push(cluster));
                    assert(before.clusters@.is_prefix_of(self.clusters@));
                    assert(self.clusters@[n] == cluster);
                    assert forall|c: Cluster| c != cluster implies self.find(c) == before.find(c) by {
                        if c.merge_type == cluster.merge_type && pair_key(
                            c.first_child,
                            c.second_child,
                        ) == key {
                            lemma_pair_key_injective(
                                c.first_child,
                                c.second_child,
                                cluster.first_child,
                                cluster.second_child,
                            );
                        }
                    }
                    assert(self.find(cluster) == Some(id));
                    assert forall|k: int| 0 <= k < self.clusters@.len() implies self.find(
                        #[trigger] self.clusters@[k],
                    ) == Some((self.labels + k) as usize) by {
                        if k < n {
                            assert(self.clusters@[k] == before.clusters@[k]);
                            assert(before.clusters@[k] != cluster);
                        }
                    }
                    assert forall|c: Cluster| (#[trigger] self.find(c)) is Some implies self.labels
                        <= self.find(c)->0 && self.find(c)->0 - self.labels < self.clusters@.len()
                        && self.clusters@[self.find(c)->0 - self.labels] == c by {
                        if c != cluster {
                            assert(before.find(c) == self.find(c));
                        }
                    }
                    assert forall|k: int| 0 <= k < self.clusters@.len() implies #[trigger] self.sizes@[k]
                        == size_of(self.labels as nat, self.clusters@, self.labels + k) by {
                        if k < n {
                            lemma_size_of_extends(
                                self.labels as nat,
                                before.clusters@,
                                self.clusters@,
                                self.labels + k,
                            );
                        } else {
                            lemma_size_of_extends(
                                self.labels as nat,
                                before.clusters@,
                                self.clusters@,
                                cluster.first_child as int,
                            );
                            lemma_size_of_extends(
                                self.labels as nat,
                                before.clusters@,
                                self.clusters@,
                                cluster.second_child as int,
                            );
                        }
                    }
                    assert(self@.contains(cluster));
                    self.lemma_wf();
                    let at = self@.index_of(cluster);
                    assert(self@[at] == cluster);
                }
                id
            },
        }
    }
}

} // verus!
