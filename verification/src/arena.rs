//! The arena: nodes, leaves and edges in three arrays, and the single
//! merges that work on it.

use vstd::prelude::*;
use crate::dag::{added, lemma_with_keeps_table, Dag};
use crate::flags_and_statistic::Round;
use crate::forest::{
    compact, compact_at, kids, live_records, target_after, target_id, target_live, valid,
    ArenaView,
};
use crate::io_tree::Tree;
use crate::merge_proofs::{
    absorbed, after_ab, after_absorb, can_absorb, can_contract, holds_at, lemma_ab_kids,
    lemma_ab_valid, lemma_absorb_kids, lemma_absorb_valid, };
use crate::pass_model::{merge_model, State};
use crate::reach::{
    lemma_ab_tree_like, lemma_absorb_tree_like, lemma_merged_covered, rooted,
};
use crate::structs::{Cluster, Data, Edge, Leaf, MergeType, Node, NodeHandle, Target};
use crate::tables::Tables;

verus! {

/// The records of the tree that is being merged. Node 0 is the synthetic
/// root; its one child is what is left of the tree.
pub struct Arena {
    pub nodes: Vec<Node>,
    pub leafs: Vec<Leaf>,
    pub edges: Vec<Edge>,
    /// The number of records that are not deleted.
    pub live: usize,
}

impl View for Arena {
    type V = ArenaView;

    open spec fn view(&self) -> ArenaView {
        ArenaView { nodes: self.nodes@, leafs: self.leafs@, edges: self.edges@ }
    }
}

/// Every live node has at least one slot.
pub open spec fn populated(a: ArenaView) -> bool {
    forall|n: int|
        0 <= n < a.nodes.len() && !(#[trigger] a.nodes[n]).deleted ==> a.nodes[n].first_child
            < a.nodes[n].last_child
}

/// The one child of the synthetic root is a leaf: the tree has come down
/// to one id.
pub open spec fn converged(a: ArenaView) -> bool {
    a.edges[a.nodes[0].first_child as int].index is LeafRef
}

/// The cluster that a merge of shape `shape` makes of the records behind
/// the edges `first` and `second`.
pub open spec fn cluster_of(a: ArenaView, shape: MergeType, first: int, second: int) -> Cluster {
    Cluster {
        merge_type: shape,
        first_child: target_id(a, a.edges[first].index),
        second_child: target_id(a, a.edges[second].index),
    }
}

/// A merge of shape `shape` applies to the two handles. For `AB` the first
/// edge leads to the second handle's parent, whose only slot is the second
/// edge. For `CE` and `DE` the two edges are neighbours below one parent,
/// and the one that is absorbed leads to a leaf.
pub open spec fn applies(a: ArenaView, first: NodeHandle, second: NodeHandle, shape: MergeType) -> bool {
    match shape {
        MergeType::AB => can_contract(a, first.parent as int, first.child as int, second.child as int)
            && a.edges[first.child as int].index == Target::NodeRef(second.parent),
        MergeType::CE => first.parent == second.parent && second.child == first.child + 1
            && can_absorb(a, first.parent as int, first.child as int, second.child as int),
        MergeType::DE => first.parent == second.parent && second.child == first.child + 1
            && can_absorb(a, first.parent as int, second.child as int, first.child as int),
    }
}

/// The arena after a merge of shape `shape` on the two edges made cluster `c`.
pub open spec fn merged(a: ArenaView, first: int, second: int, shape: MergeType, c: usize) -> ArenaView {
    match shape {
        MergeType::AB => after_ab(a, first, second, c),
        MergeType::CE => after_absorb(a, first, second, c),
        MergeType::DE => after_absorb(a, second, first, c),
    }
}

impl Arena {
    /// The arena is consistent with a table of `ids` ids: its records and
    /// edges fit together, `live` counts the records that are not deleted,
    /// there is room for as many clusters as there are records, and the
    /// synthetic root is there with its one child.
    pub open spec fn wf(&self, ids: int) -> bool {
        &&& valid(self@, ids)
        &&& self.live == live_records(self@)
        &&& ids + self.live <= usize::MAX
        &&& !self.nodes@[0].deleted
        &&& self.nodes@[0].first_child + 1 == self.nodes@[0].last_child
        &&& !self.edges@[self.nodes@[0].first_child as int].deleted
    }

    /// The arena with the tables that go with it.
    pub open spec fn state(&self, tables: &Tables) -> State {
        State { arena: self@, dag: tables@ }
    }

    /// The trees that the arena stands for: those below the synthetic root.
    pub open spec fn pending(&self, dag: Dag) -> Seq<Tree> {
        kids(self@, dag, 0)
    }

    /// The arena and the tables fit together: each is consistent, the
    /// live records hang together below the synthetic root, and every
    /// cluster is reached by one of them.
    pub open spec fn fits(&self, tables: &Tables) -> bool {
        &&& tables.wf()
        &&& self.wf(tables@.ids())
        &&& rooted(self@, tables@)
    }

    /// The arena and the tables fit together, no live node has a deleted
    /// edge among its slots, and every live node has a child.
    pub open spec fn steady(&self, tables: &Tables) -> bool {
        &&& self.fits(tables)
        &&& compact(self@)
        &&& populated(self@)
    }

    /// `self` has the records of `before`, every node with the same slots,
    /// and no record has come back to life.
    pub open spec fn same_shape(&self, before: &Arena) -> bool {
        &&& self.nodes@.len() == before.nodes@.len()
        &&& self.leafs@.len() == before.leafs@.len()
        &&& self.edges@.len() == before.edges@.len()
        &&& forall|n: int|
            0 <= n < self.nodes@.len() ==> (#[trigger] self.nodes@[n]).first_child
                == before.nodes@[n].first_child && self.nodes@[n].last_child
                == before.nodes@[n].last_child && (before.nodes@[n].deleted
                ==> self.nodes@[n].deleted)
    }

    /// Every node of `before` is there, deleted or not as it was.
    pub open spec fn nodes_kept(&self, before: &Arena) -> bool {
        &&& self.nodes@.len() == before.nodes@.len()
        &&& forall|n: int|
            0 <= n < self.nodes@.len() ==> (#[trigger] self.nodes@[n]).deleted
                == before.nodes@[n].deleted
    }

    /// Every leaf of `before` is there, deleted or not as it was, and a
    /// node that was deleted since had exactly one slot.
    pub open spec fn leafs_kept(&self, before: &Arena) -> bool {
        &&& self.leafs@.len() == before.leafs@.len()
        &&& self.nodes@.len() == before.nodes@.len()
        &&& forall|l: int|
            0 <= l < self.leafs@.len() ==> (#[trigger] self.leafs@[l]).deleted
                == before.leafs@[l].deleted
        &&& forall|n: int|
            0 <= n < self.nodes@.len() && (#[trigger] self.nodes@[n]).deleted
                && !before.nodes@[n].deleted ==> before.nodes@[n].last_child
                - before.nodes@[n].first_child == 1
    }

    /// `self` came out of `before` by merging and compacting: the same
    /// records with their slots, of which a node may have lost some at the
    /// end, stand for the same trees; no record came back to life, and the
    /// tables only grew, by one cluster at most for every record that went.
    pub open spec fn follows(&self, tables: &Tables, before: &Arena, tables_before: &Tables) -> bool {
        &&& self.nodes@.len() == before.nodes@.len()
        &&& self.leafs@.len() == before.leafs@.len()
        &&& self.edges@.len() == before.edges@.len()
        &&& self.live <= before.live
        &&& tables@.clusters.len() + self.live <= tables_before@.clusters.len() + before.live
        &&& forall|l: int|
            0 <= l < before.leafs@.len() && (#[trigger] before.leafs@[l]).deleted
                ==> self.leafs@[l].deleted
        &&& tables@.extends(tables_before@)
        &&& tables.labels@ == tables_before.labels@
        &&& self.pending(tables@) == before.pending(tables_before@)
        &&& forall|n: int|
            0 <= n < self.nodes@.len() ==> (#[trigger] self.nodes@[n]).first_child
                == before.nodes@[n].first_child && self.nodes@[n].last_child
                <= before.nodes@[n].last_child && (before.nodes@[n].deleted
                ==> self.nodes@[n].deleted)
    }

    /// What follows what follows `first` follows `first`.
    pub(crate) proof fn lemma_follows_on(
        &self,
        tables: &Tables,
        middle: &Arena,
        tables_middle: &Tables,
        first: &Arena,
        tables_first: &Tables,
    )
        requires
            self.follows(tables, middle, tables_middle),
            middle.follows(tables_middle, first, tables_first),
        ensures
            self.follows(tables, first, tables_first),
    {
        assert forall|n: int| 0 <= n < self.nodes@.len() implies (#[trigger] self.nodes@[n]).first_child
            == first.nodes@[n].first_child && self.nodes@[n].last_child
            <= first.nodes@[n].last_child && (first.nodes@[n].deleted
            ==> self.nodes@[n].deleted) by {
            assert(middle.nodes@[n].first_child == first.nodes@[n].first_child);
        }
    }

    /// The id that the record behind `target` carries.
    pub fn get_cluster_index(&self, target: Target) -> (id: usize)
        requires
            match target {
                Target::NodeRef(m) => m < self.nodes@.len(),
                Target::LeafRef(l) => l < self.leafs@.len(),
            },
        ensures
            id == target_id(self@, target),
    {
        match target {
            Target::NodeRef(m) => self.nodes[m].data.get_id(),
            Target::LeafRef(l) => self.leafs[l].data.get_id(),
        }
    }

    /// Whether the cluster that a merge of the two handles would make is in
    /// the table already.
    pub fn try_merge(
        &self,
        tables: &Tables,
        first: NodeHandle,
        second: NodeHandle,
        merge_type: MergeType,
    ) -> (known: bool)
        requires
            tables.wf(),
            valid(self@, tables@.ids()),
            first.child < self.edges@.len(),
            second.child < self.edges@.len(),
            !self.edges@[first.child as int].deleted,
            !self.edges@[second.child as int].deleted,
        ensures
            known == tables@.clusters.contains(
                cluster_of(self@, merge_type, first.child as int, second.child as int),
            ),
    {
        let first_target = self.edges[first.child].index;
        let second_target = self.edges[second.child].index;
        proof {
            assert(target_live(self@, first_target));
            assert(target_live(self@, second_target));
        }
        let cluster = Cluster {
            merge_type,
            first_child: self.get_cluster_index(first_target),
            second_child: self.get_cluster_index(second_target),
        };
        tables.clusters.lookup(&cluster).is_some()
    }

    fn set_data(&mut self, target: Target, data: Data)
        requires
            match target {
                Target::NodeRef(m) => m < old(self).nodes@.len(),
                Target::LeafRef(l) => l < old(self).leafs@.len(),
            },
        ensures
            final(self)@ == crate::merge_proofs::with_data(old(self)@, target, data),
            final(self).live == old(self).live,
    {
        match target {
            Target::NodeRef(m) => {
                self.nodes[m].data = data;
            },
            Target::LeafRef(l) => {
                self.leafs[l].data = data;
            },
        }
    }

    fn set_deleted(&mut self, target: Target)
        requires
            match target {
                Target::NodeRef(m) => m < old(self).nodes@.len(),
                Target::LeafRef(l) => l < old(self).leafs@.len(),
            },
        ensures
            final(self)@ == crate::merge_proofs::with_deleted(old(self)@, target),
            final(self).live == old(self).live,
    {
        match target {
            Target::NodeRef(m) => {
                self.nodes[m].deleted = true;
            },
            Target::LeafRef(l) => {
                self.leafs[l].deleted = true;
            },
        }
    }

    /// Merges the records behind the two handles under `merge_type`, unless
    /// the throttle of the round puts the merge off.
    ///
    /// The cluster of the two ids is looked up in the table or added to it.
    /// The record that stays carries the cluster from then on; the other
    /// record and its edge are deleted. For `AB` the first edge then leads
    /// to the record that stays. What the arena stands for is the same
    /// before and after.
    #[verifier::rlimit(30)]
    pub fn merge(
        &mut self,
        tables: &mut Tables,
        round: &Round,
        first: NodeHandle,
        second: NodeHandle,
        merge_type: MergeType,
    ) -> (done: bool)
        requires
            old(tables).wf(),
            old(self).wf(old(tables)@.ids()),
            applies(old(self)@, first, second, merge_type),
        ensures
            final(tables).wf(),
            final(self).wf(final(tables)@.ids()),
            final(self).pending(final(tables)@) == old(self).pending(old(tables)@),
            done == !round.throttles(
                cluster_of(old(self)@, merge_type, first.child as int, second.child as int).first_child,
                cluster_of(old(self)@, merge_type, first.child as int, second.child as int).second_child,
            ),
            !done ==> final(self)@ == old(self)@ && final(tables)@ == old(tables)@ && final(self).live
                == old(self).live,
            done ==> final(tables)@ == old(tables)@.with(
                cluster_of(old(self)@, merge_type, first.child as int, second.child as int),
            ),
            done ==> final(tables)@.id_of(
                cluster_of(old(self)@, merge_type, first.child as int, second.child as int),
            ) is Some,
            done ==> final(self)@ == merged(
                old(self)@,
                first.child as int,
                second.child as int,
                merge_type,
                final(tables)@.id_of(
                    cluster_of(old(self)@, merge_type, first.child as int, second.child as int),
                )->0 as usize,
            ),
            done ==> final(self).live + 1 == old(self).live,
            final(self).state(final(tables)) == merge_model(
                old(self).state(old(tables)),
                *round,
                first.child as int,
                second.child as int,
                merge_type,
            ),
            final(self).same_shape(old(self)),
            final(self).follows(final(tables), old(self), old(tables)),
            rooted(old(self)@, old(tables)@) ==> rooted(final(self)@, final(tables)@),
            final(self).leafs@.len() == old(self).leafs@.len(),
            forall|n: int|
                0 <= n < old(self).nodes@.len() && !(merge_type == MergeType::AB && n == second.parent)
                    ==> (#[trigger] final(self).nodes@[n]).deleted == old(self).nodes@[n].deleted,
            forall|j: int|
                0 <= j < old(self).edges@.len() && j != first.child && j != second.child
                    ==> #[trigger] final(self).edges@[j] == old(self).edges@[j],
            merge_type == MergeType::AB && compact(old(self)@) ==> compact(final(self)@),
            merge_type != MergeType::AB ==> forall|n: int|
                0 <= n < old(self).nodes@.len() && n != first.parent && compact_at(old(self)@, n)
                    ==> compact_at(final(self)@, n),
    {
        let ghost a = self@;
        let ghost dag = tables@;
        let first_target = self.edges[first.child].index;
        let second_target = self.edges[second.child].index;
        proof {
            tables.lemma_wf();
            assert(target_live(a, first_target));
            assert(target_live(a, second_target));
        }
        let cluster = Cluster {
            merge_type,
            first_child: self.get_cluster_index(first_target),
            second_child: self.get_cluster_index(second_target),
        };
        if round.is_throttled(cluster.first_child, cluster.second_child) {
            return false;
        }
        proof {
            crate::forest::lemma_live_node_counts(a.nodes, 0);
            lemma_with_keeps_table(dag, cluster);
        }
        let id = tables.clusters.add_cluster(cluster);
        let ghost later = tables@;
        proof {
            tables.lemma_wf();
            assert(later == dag.with(cluster));
            assert(holds_at(dag, later, cluster, id));
        }
        match merge_type {
            MergeType::AB => {
                self.set_data(second_target, Data::Cluster(id));
                self.set_deleted(first_target);
                let moved = self.edges[second.child];
                self.edges[first.child] = moved;
                self.edges[second.child] = Edge { deleted: true, index: first_target };
                self.live = self.live - 1;
                proof {
                    assert(self@ =~= after_ab(a, first.child as int, second.child as int, id));
                    lemma_ab_valid(
                        a,
                        dag.ids(),
                        later.ids(),
                        first.parent as int,
                        first.child as int,
                        second.child as int,
                        id,
                    );
                    assert(target_after(first_target, first.parent as int));
                    if rooted(a, dag) {
                        lemma_ab_tree_like(
                            a,
                            dag.ids(),
                            first.parent as int,
                            first.child as int,
                            second.child as int,
                            id,
                        );
                        assert(target_after(second_target, second.parent as int));
                        lemma_merged_covered(
                            a,
                            self@,
                            dag,
                            later,
                            cluster,
                            id,
                            second_target,
                            first_target,
                        );
                    }
                    lemma_ab_kids(
                        a,
                        dag,
                        later,
                        first.parent as int,
                        first.child as int,
                        second.child as int,
                        id,
                        0,
                    );
                }
            },
            MergeType::CE => {
                self.set_data(first_target, Data::Cluster(id));
                self.set_deleted(second_target);
                self.edges[second.child].deleted = true;
                self.live = self.live - 1;
                proof {
                    assert(self@ =~= after_absorb(a, first.child as int, second.child as int, id));
                    lemma_absorb_valid(
                        a,
                        dag.ids(),
                        later.ids(),
                        first.parent as int,
                        first.child as int,
                        second.child as int,
                        id,
                    );
                    if rooted(a, dag) {
                        lemma_absorb_tree_like(
                            a,
                            dag.ids(),
                            first.parent as int,
                            first.child as int,
                            second.child as int,
                            id,
                        );
                        assert(target_after(first_target, first.parent as int));
                        lemma_merged_covered(
                            a,
                            self@,
                            dag,
                            later,
                            cluster,
                            id,
                            first_target,
                            second_target,
                        );
                    }
                    lemma_absorb_kids(
                        a,
                        dag,
                        later,
                        first.parent as int,
                        MergeType::CE,
                        first.child as int,
                        second.child as int,
                        id,
                        0,
                    );
                }
            },
            MergeType::DE => {
                self.set_data(second_target, Data::Cluster(id));
                self.set_deleted(first_target);
                self.edges[first.child].deleted = true;
                self.live = self.live - 1;
                proof {
                    assert(self@ =~= after_absorb(a, second.child as int, first.child as int, id));
                    lemma_absorb_valid(
                        a,
                        dag.ids(),
                        later.ids(),
                        first.parent as int,
                        second.child as int,
                        first.child as int,
                        id,
                    );
                    if rooted(a, dag) {
                        lemma_absorb_tree_like(
                            a,
                            dag.ids(),
                            first.parent as int,
                            second.child as int,
                            first.child as int,
                            id,
                        );
                        assert(target_after(second_target, first.parent as int));
                        lemma_merged_covered(
                            a,
                            self@,
                            dag,
                            later,
                            cluster,
                            id,
                            second_target,
                            first_target,
                        );
                    }
                    lemma_absorb_kids(
                        a,
                        dag,
                        later,
                        first.parent as int,
                        MergeType::DE,
                        second.child as int,
                        first.child as int,
                        id,
                        0,
                    );
                }
            },
        }
        proof {
            let l = later.clusters.index_of(cluster);
            assert(later.clusters[l] == cluster);
            assert(later.id_of(cluster) == Some(id as int));
        }
        true
    }
}

} // verus!
