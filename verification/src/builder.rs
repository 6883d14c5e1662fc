//! The builder: it compresses a tree into a table of labels and clusters
//! and expands such a table into the tree again.

use std::collections::VecDeque;
use vstd::prelude::*;

use crate::dag::Dag;
use crate::error::TopDagError;
use crate::flat::{decode, too_many, zeros_before, Decoded, Flat};
use crate::round_trip::{alike, stands_for};
use crate::traverse::flat_of;
use crate::flags_and_statistic::{Flags, MergeRule, Statistic};
use crate::ingest::{
    any_reserved, count_tree, dummy_label, dummy_node_label, ingest, ingested, labels_of,
    leaves_tree, too_large,
};
use crate::pass_model::{done, root_of, rounds_model, Built};
use crate::reach::reaches;
use crate::io_tree::{forest_view, lemma_view, IO_Tree, Tree};
use crate::labels::{distinct, LabelTable};
use crate::merge::{idle_rounds, lemma_idle_rounds};
use crate::structs::{Cluster, MergeType};
use crate::tables::Tables;
use crate::xml::{assembled, FromXmlError, XmlEvent};

verus! {

/// A Top DAG: the labels, the clusters, and the id that stands for the
/// whole tree; with it the configuration and the counts of the last build.
pub struct TopTreeBuilder {
    tables: Tables,
    root: usize,
    flags: Flags,
    statistic: Statistic,
    number_of_steps: usize,
}

impl View for TopTreeBuilder {
    type V = Dag;

    closed spec fn view(&self) -> Dag {
        self.tables@
    }
}

/// The rounds that a build of `tree` with `throttled` throttled rounds may
/// take at most, in units that a `usize` must be able to hold: five for
/// every record and for every throttled round, and four more.
pub open spec fn round_budget(tree: Tree, throttled: nat) -> nat {
    5 * (count_tree(tree) + 1) + 5 * throttled + 4
}

/// What a build of `tree` under `flags` comes to: the tree is laid out in
/// the arena, and round follows round until one id is left.
pub open spec fn build_of(tree: Tree, flags: Flags) -> Built {
    rounds_model(ingested(tree), flags, 0, round_budget(tree, flags.slowing_down@.len()))
}

/// The number of rounds that the flags throttle; none without flags.
pub open spec fn throttled_rounds(flags: Option<Flags>) -> nat {
    match flags {
        Some(f) => f.slowing_down@.len(),
        None => 0,
    }
}

impl TopTreeBuilder {
    /// The id that stands for the whole tree.
    pub closed spec fn root_id(&self) -> int {
        self.root as int
    }

    /// The configuration.
    pub closed spec fn configured(&self) -> Flags {
        self.flags
    }

    /// The counts of the last build.
    pub closed spec fn counted(&self) -> Statistic {
        self.statistic
    }

    /// The tables are consistent, and the root is one of their clusters
    /// or, where there is no cluster to stand for the tree, the last label.
    pub closed spec fn wf(&self) -> bool {
        &&& self.tables.wf()
        &&& self.root < self.tables@.ids()
        &&& (self.root >= self.tables@.labels.len() || self.root + 1 == self.tables@.labels.len())
    }

    /// The builder holds what a build of `tree` under its flags comes to:
    /// the labels and clusters, the root and the number of rounds. The
    /// root is the last id of the table and reaches every cluster, and no
    /// label stands twice. A tree
    /// without children takes no round, any other at least one; and where
    /// no round is throttled, the simplified and the fast rules take fewer
    /// rounds than the tree has nodes.
    pub open spec fn built_from(&self, tree: Tree) -> bool {
        let end = build_of(tree, self.configured());
        &&& done(end.state.arena)
        &&& self@ == end.state.dag
        &&& self.root_id() == root_of(end.state.arena)
        &&& self.root_id() + 1 == self@.ids()
        &&& distinct(self@.labels)
        &&& (forall|c: int|
            self@.labels.len() <= c < self@.ids() ==> #[trigger] reaches(self@, self.root_id(), c))
        &&& self.counted().number_of_merge_rounds == end.rounds
        &&& (end.rounds == 0 <==> tree.children.len() == 0)
        &&& (self.configured().slowing_down@.len() == 0 && self.configured().merge_rule
            != MergeRule::SlowAdvancedRules ==> end.rounds + 1 <= count_tree(tree))
    }

    /// The counts are those of a build of `tree`: the clusters and the
    /// labels of the table, the reserved label left out, and the records
    /// and edges of the arena before the first round, the synthetic root
    /// among the nodes. There are fewer clusters than the tree has nodes.
    pub open spec fn tallied(&self, tree: Tree) -> bool {
        &&& self@.clusters.len() + 1 <= count_tree(tree)
        &&& self.counted().number_of_nodes_in_top_dag == self@.clusters.len()
        &&& self.counted().number_of_leafs_in_top_dag + 1 == self@.labels.len()
        &&& self.counted().number_of_nodes_in_io_tree + self.counted().number_of_leafs_in_io_tree
            == count_tree(tree) + 1
        &&& self.counted().number_of_leafs_in_io_tree == leaves_tree(tree)
        &&& self.counted().number_of_edges_in_io_tree == count_tree(tree)
    }

    /// The row of trees that the builder stands for. After a build it is
    /// the one tree that was built from.
    pub open spec fn trees(&self) -> Seq<Tree> {
        self@.expand(self.root_id(), Seq::empty())
    }

    /// A consistent builder holds a well-formed table without duplicates,
    /// and its root is an id of that table.
    pub proof fn lemma_wf(&self)
        requires
            self.wf(),
        ensures
            self@.wf(),
            self@.canonical(),
            0 <= self.root_id() < self@.ids(),
            self.root_id() >= self@.labels.len() || self.root_id() + 1 == self@.labels.len(),
            self@.ids() <= usize::MAX,
    {
        self.tables.lemma_wf();
    }

    /// A builder that holds the reserved label and nothing else.
    pub fn new(flags: Option<Flags>) -> (builder: TopTreeBuilder)
        ensures
            builder.wf(),
            builder@ == (Dag { labels: seq![dummy_label()], clusters: Seq::empty() }),
            builder.root_id() == 0,
            flags matches Some(f) ==> builder.configured() == f,
            flags is None ==> builder.configured().merge_rule == MergeRule::SimplifiedStandardRules
                && builder.configured().slowing_down@ == Seq::<usize>::empty(),
    {
        let mut labels = LabelTable::new();
        let dummy = dummy_node_label();
        labels.insert_label(&dummy);
        assert(labels@ =~= seq![dummy_label()]);
        let flags = match flags {
            Some(flags) => flags,
            None => Flags::default(),
        };
        TopTreeBuilder {
            tables: Tables::new(labels),
            root: 0,
            flags,
            statistic: Statistic::new(),
            number_of_steps: 0,
        }
    }

    /// Builds the Top DAG of the tree of an XML document, from the events
    /// of the document in their order.
    #[allow(non_snake_case)]
    pub fn new_from_xml(events: &Vec<XmlEvent>, flags: Option<Flags>) -> (result: Result<
        TopTreeBuilder,
        FromXmlError,
    >)
        ensures
            match assembled(events@, 0, Seq::empty()) {
                None => result matches Err(FromXmlError::Parse(_)),
                Some(tree) => {
                    &&& match result {
                        Ok(builder) => {
                            &&& builder.wf()
                            &&& builder.trees() == seq![tree]
                            &&& builder@.labels == labels_of(tree)
                            &&& builder.built_from(tree)
                            &&& builder.tallied(tree)
                            &&& flags matches Some(f) ==> builder.configured() == f
                            &&& flags is None ==> builder.configured().merge_rule
                                == MergeRule::SimplifiedStandardRules
                                && builder.configured().slowing_down@ == Seq::<usize>::empty()
                        },
                        Err(FromXmlError::Build(e)) => e == TopDagError::ReservedLabelCollision || e
                            == TopDagError::CapacityExceeded,
                        Err(FromXmlError::Parse(_)) => false,
                    }
                    &&& (result matches Err(FromXmlError::Build(TopDagError::ReservedLabelCollision))
                        <==> any_reserved(tree.children, tree.children.len()))
                    &&& (result matches Err(FromXmlError::Build(TopDagError::CapacityExceeded))
                        <==> !any_reserved(tree.children, tree.children.len()) && (too_large(tree)
                        || round_budget(tree, throttled_rounds(flags)) > usize::MAX))
                },
            },
    {
        let tree = match IO_Tree::new_from_xml(events) {
            Ok(tree) => tree,
            Err(e) => {
                return Err(FromXmlError::Parse(e));
            },
        };
        match TopTreeBuilder::new_from_IO_tree(tree, flags) {
            Ok(builder) => Ok(builder),
            Err(e) => Err(FromXmlError::Build(e)),
        }
    }

    /// Builds the Top DAG of `tree`.
    #[allow(non_snake_case)]
    pub fn new_from_IO_tree(tree: IO_Tree, flags: Option<Flags>) -> (result: Result<
        TopTreeBuilder,
        TopDagError,
    >)
        ensures
            match result {
                Ok(builder) => {
                    &&& builder.wf()
                    &&& builder.trees() == seq![tree@]
                    &&& builder@.labels == labels_of(tree@)
                    &&& builder.built_from(tree@)
                    &&& builder.tallied(tree@)
                    &&& flags matches Some(f) ==> builder.configured() == f
                    &&& flags is None ==> builder.configured().merge_rule
                        == MergeRule::SimplifiedStandardRules && builder.configured().slowing_down@
                        == Seq::<usize>::empty()
                },
                Err(e) => e == TopDagError::ReservedLabelCollision || e == TopDagError::CapacityExceeded,
            },
            result matches Err(TopDagError::ReservedLabelCollision) <==> any_reserved(
                tree@.children,
                tree@.children.len(),
            ),
            result matches Err(TopDagError::CapacityExceeded) <==> !any_reserved(
                tree@.children,
                tree@.children.len(),
            ) && (too_large(tree@) || round_budget(tree@, throttled_rounds(flags)) > usize::MAX),
    {
        let mut builder = TopTreeBuilder::new(flags);
        match builder.build_from_IO_tree(tree) {
            Ok(()) => Ok(builder),
            Err(e) => Err(e),
        }
    }

    /// Builds the Top DAG of `tree` in place of what the builder held.
    ///
    /// The tree is laid out in an arena below a synthetic root, and rounds
    /// of a horizontal and a vertical merge pass follow until the one
    /// child of the synthetic root is a leaf. Its id is the root of the
    /// table from then on, and expands to the tree.
    ///
    /// Every round that owes a merge makes one, so the rounds come to an
    /// end. The build fails only if a node other than the root carries the
    /// reserved label, or if the tree is too large. On failure the builder
    /// holds what it held before.
    #[allow(non_snake_case)]
    pub fn build_from_IO_tree(&mut self, tree: IO_Tree) -> (result: Result<(), TopDagError>)
        ensures
            final(self).configured() == old(self).configured(),
            match result {
                Ok(()) => {
                    &&& final(self).wf()
                    &&& final(self).trees() == seq![tree@]
                    &&& final(self)@.labels == labels_of(tree@)
                    &&& final(self).built_from(tree@)
                    &&& final(self).tallied(tree@)
                    &&& final(self).counted().number_of_merge_rounds <= round_budget(
                        tree@,
                        old(self).configured().slowing_down@.len(),
                    )
                },
                Err(e) => {
                    &&& (e == TopDagError::ReservedLabelCollision || e == TopDagError::CapacityExceeded)
                    &&& *final(self) == *old(self)
                },
            },
            result matches Err(TopDagError::ReservedLabelCollision) <==> any_reserved(
                tree@.children,
                tree@.children.len(),
            ),
            result matches Err(TopDagError::CapacityExceeded) <==> !any_reserved(
                tree@.children,
                tree@.children.len(),
            ) && (too_large(tree@) || round_budget(
                tree@,
                old(self).configured().slowing_down@.len(),
            ) > usize::MAX),
    {
        let (mut arena, mut tables) = match ingest(&tree) {
            Ok(parts) => parts,
            Err(e) => {
                return Err(e);
            },
        };
        let throttled = self.flags.slowing_down.len();
        let budget = match arena.live.checked_mul(5) {
            None => None,
            Some(records) => match throttled.checked_mul(5) {
                None => None,
                Some(rounds) => match records.checked_add(rounds) {
                    None => None,
                    Some(sum) => sum.checked_add(4),
                },
            },
        };
        if budget.is_none() {
            return Err(TopDagError::CapacityExceeded);
        }
        let number_of_nodes = arena.nodes.len();
        let number_of_leafs = arena.leafs.len();
        let number_of_edges = arena.edges.len();
        let mut steps: usize = 0;
        let mut root = arena.root_cluster(&tables);
        let ghost budget = round_budget(tree@, self.flags.slowing_down@.len());
        let ghost nodes = count_tree(tree@);
        while root.is_none()
            invariant
                budget == round_budget(tree@, self.flags.slowing_down@.len()),
                nodes == count_tree(tree@),
                steps <= budget,
                rounds_model(arena.state(&tables), self.flags, steps, (budget - steps) as nat) == build_of(
                    tree@,
                    self.flags,
                ),
                root is Some <==> done(arena@),
                root matches Some(id) ==> id == root_of(arena@),
                steps == 0 ==> (root is Some <==> tree@.children.len() == 0),
                tables@.clusters.len() + arena.live <= nodes + 1,
                self.flags.slowing_down@.len() == 0 && self.flags.merge_rule
                    != MergeRule::SlowAdvancedRules ==> steps + arena.live <= nodes + 1,
                !any_reserved(tree@.children, tree@.children.len()),
                !too_large(tree@),
                arena.steady(&tables),
                tables@.labels == labels_of(tree@),
                arena.pending(tables@) == seq![tree@],
                arena.live >= 1,
                steps + 5 * arena.live + idle_rounds(self.flags, steps) <= round_budget(
                    tree@,
                    self.flags.slowing_down@.len(),
                ) <= usize::MAX,
                match root {
                    Some(id) => id < tables@.ids() && arena.pending(tables@) == tables@.expand(
                        id as int,
                        Seq::empty(),
                    ),
                    None => !crate::arena::converged(arena@),
                },
            decreases 5 * arena.live + idle_rounds(self.flags, steps),
        {
            let ghost before = arena.live;
            let ghost start = arena.state(&tables);
            proof {
                assert(rounds_model(start, self.flags, steps, (budget - steps) as nat) == rounds_model(
                    crate::pass_model::round_model(start, self.flags, (steps + 1) as usize),
                    self.flags,
                    (steps + 1) as usize,
                    (budget - steps - 1) as nat,
                ));
            }
            steps = steps + 1;
            match arena.merge_round(&mut tables, &self.flags, steps) {
                Ok(()) => {},
                Err(e) => {
                    return Err(e);
                },
            }
            proof {
                if arena.live < before {
                    lemma_idle_rounds_bounded(self.flags, (steps - 1) as usize);
                } else {
                    lemma_idle_rounds(self.flags, (steps - 1) as usize);
                }
                crate::forest::lemma_live_node_counts(arena@.nodes, 0);
            }
            root = arena.root_cluster(&tables);
        }
        let root = root.unwrap();
        proof {
            lemma_label_root(tree@, tables@, root);
            let slot = arena@.nodes[0].first_child as int;
            assert(crate::forest::target_live(arena@, arena@.edges[slot].index));
            let leaf = arena@.edges[slot].index->LeafRef_0 as int;
            crate::forest::lemma_live_leaf_counts(arena@.leafs, leaf);
            crate::forest::lemma_live_node_counts(arena@.nodes, 0);
            assert(arena.live >= 2);
            if tables@.clusters.len() > 0 {
                crate::reach::lemma_root_is_last(arena@, tables@);
            }
            crate::reach::lemma_root_reaches_all(arena@, tables@);
            crate::ingest::lemma_labels_distinct(tree@);
        }
        self.statistic = Statistic {
            number_of_merge_rounds: steps,
            number_of_nodes_in_io_tree: number_of_nodes,
            number_of_leafs_in_io_tree: number_of_leafs,
            number_of_edges_in_io_tree: number_of_edges,
            number_of_leafs_in_top_dag: tables.labels.len() - 1,
            number_of_nodes_in_top_dag: tables.clusters.len(),
        };
        self.number_of_steps = steps;
        self.tables = tables;
        self.root = root;
        Ok(())
    }

    /// The id that stands for the whole tree.
    pub fn root(&self) -> (root: usize)
        ensures
            root == self.root_id(),
    {
        self.root
    }

    /// The labels in the order of their ids.
    pub fn labels(&self) -> (labels: Vec<String>)
        ensures
            labels@.len() == self@.labels.len(),
            forall|i: int| 0 <= i < labels@.len() ==> #[trigger] labels@[i]@ == self@.labels[i],
    {
        self.tables.labels.to_vec()
    }

    /// The clusters in the order of their ids.
    pub fn clusters(&self) -> (clusters: Vec<Cluster>)
        ensures
            clusters@ == self@.clusters,
    {
        self.tables.clusters.to_vec()
    }

    /// The counts of the last build.
    pub fn get_statistic(&self) -> (statistic: &Statistic)
        ensures
            *statistic == self.counted(),
    {
        &self.statistic
    }

    /// The row of trees that `id` stands for when `kids` hang below its
    /// lower end.
    #[allow(non_snake_case)]
    pub fn rec_get_IO_tree(&self, id: usize, kids: VecDeque<IO_Tree>) -> (forest: VecDeque<IO_Tree>)
        requires
            self.wf(),
            id < self@.ids(),
        ensures
            forest_view(forest@) == self@.expand(id as int, forest_view(kids@)),
        decreases id,
    {
        proof {
            self.tables.lemma_wf();
        }
        if id < self.tables.labels.len() {
            let tree = IO_Tree { label: self.tables.labels.get(id).clone(), children: kids };
            let mut forest = VecDeque::new();
            proof {
                lemma_view(tree);
            }
            forest.push_back(tree);
            assert(forest_view(forest@) =~= seq![tree@]);
            forest
        } else {
            let cluster = self.tables.clusters.get(id);
            proof {
                assert(self@.clusters[id - self@.labels.len()] == cluster);
                assert(cluster.first_child < id && cluster.second_child < id);
            }
            match cluster.merge_type {
                MergeType::AB => {
                    let below = self.rec_get_IO_tree(cluster.second_child, kids);
                    self.rec_get_IO_tree(cluster.first_child, below)
                },
                MergeType::CE => {
                    let mut left = self.rec_get_IO_tree(cluster.first_child, kids);
                    let mut right = self.rec_get_IO_tree(cluster.second_child, VecDeque::new());
                    let ghost l = left@;
                    let ghost r = right@;
                    left.append(&mut right);
                    assert(forest_view(left@) =~= forest_view(l) + forest_view(r));
                    assert(forest_view(Seq::<IO_Tree>::empty()) =~= Seq::<Tree>::empty());
                    left
                },
                MergeType::DE => {
                    let mut left = self.rec_get_IO_tree(cluster.first_child, VecDeque::new());
                    let mut right = self.rec_get_IO_tree(cluster.second_child, kids);
                    let ghost l = left@;
                    let ghost r = right@;
                    left.append(&mut right);
                    assert(forest_view(left@) =~= forest_view(l) + forest_view(r));
                    assert(forest_view(Seq::<IO_Tree>::empty()) =~= Seq::<Tree>::empty());
                    left
                },
            }
        }
    }

    /// The flat form of the Top DAG: the bits, the entries, the merge
    /// types and the labels, as the walk from the root writes them.
    pub fn traverse(&self) -> (flat: (Vec<bool>, Vec<usize>, Vec<usize>, Vec<String>))
        requires
            self.wf(),
        ensures
            flat_form_of(
                self@,
                self.root_id(),
                Flat {
                    structure: flat.0@,
                    pointer: flat.1@,
                    merge_types: flat.2@,
                    labels: flat.3@.len(),
                },
                Seq::new(flat.3@.len(), |i: int| flat.3@[i]@),
            ),
    {
        let flat = crate::traverse::traverse(&self.tables, self.root);
        proof {
            assert(Seq::new(flat.3@.len(), |i: int| flat.3@[i]@) =~= self@.labels);
        }
        flat
    }

    /// Rebuilds the Top DAG from its flat form, in place of what the
    /// builder held. It fails with `CapacityExceeded` if the labels and
    /// clusters are too many, and else with `CorruptDecode` if the flat
    /// form does not decode. On failure the builder holds what it held
    /// before.
    pub fn detraverse(
        &mut self,
        structure: Vec<bool>,
        pointer: Vec<usize>,
        merge_types: Vec<usize>,
        labels: Vec<String>,
    ) -> (result: Result<(), TopDagError>)
        ensures
            final(self).configured() == old(self).configured(),
            final(self).counted() == old(self).counted(),
            match result {
                Ok(()) => {
                    &&& final(self).wf()
                    &&& decoded_from(
                        final(self)@,
                        final(self).root_id(),
                        Flat {
                            structure: structure@,
                            pointer: pointer@,
                            merge_types: merge_types@,
                            labels: labels@.len(),
                        },
                        Seq::new(labels@.len(), |i: int| labels@[i]@),
                    )
                },
                Err(e) => {
                    &&& *final(self) == *old(self)
                    &&& (e == TopDagError::CapacityExceeded || e == TopDagError::CorruptDecode)
                },
            },
            result matches Err(TopDagError::CapacityExceeded) <==> too_many(
                Flat {
                    structure: structure@,
                    pointer: pointer@,
                    merge_types: merge_types@,
                    labels: labels@.len(),
                },
            ),
            result matches Err(TopDagError::CorruptDecode) <==> !too_many(
                Flat {
                    structure: structure@,
                    pointer: pointer@,
                    merge_types: merge_types@,
                    labels: labels@.len(),
                },
            ) && decode(
                Flat {
                    structure: structure@,
                    pointer: pointer@,
                    merge_types: merge_types@,
                    labels: labels@.len(),
                },
            ) is None,
    {
        match crate::detraverse::detraverse(&structure, &pointer, &merge_types, labels) {
            Ok((tables, root)) => {
                self.tables = tables;
                self.root = root;
                Ok(())
            },
            Err(e) => Err(e),
        }
    }

    /// The tree that the builder stands for, if it stands for exactly one.
    #[allow(non_snake_case)]
    pub fn get_IO_tree(&self) -> (tree: Option<IO_Tree>)
        requires
            self.wf(),
        ensures
            match tree {
                Some(t) => self.trees() == seq![t@],
                None => self.trees().len() != 1,
            },
    {
        let mut forest = self.rec_get_IO_tree(self.root, VecDeque::new());
        assert(forest_view(Seq::<IO_Tree>::empty()) =~= Seq::<Tree>::empty());
        if forest.len() == 1 {
            let tree = forest.pop_back();
            assert(self.trees() =~= seq![tree->0@]);
            tree
        } else {
            None
        }
    }
}

/// A label that expands to the whole tree of a build is the last label.
proof fn lemma_label_root(tree: Tree, dag: Dag, root: usize)
    requires
        dag.labels == labels_of(tree),
        root < dag.ids(),
        dag.expand(root as int, Seq::empty()) == seq![tree],
    ensures
        root >= dag.labels.len() || root + 1 == dag.labels.len(),
{
    if root < dag.labels.len() {
        let single = Tree { label: dag.labels[root as int], children: Seq::empty() };
        assert(dag.expand(root as int, Seq::empty())[0] == single);
        assert(tree == single);
        let reserved = seq![dummy_label()];
        assert(labels_of(tree) == crate::ingest::interned_forest(
            crate::ingest::interned(reserved, tree.label),
            tree.children,
            tree.children.len(),
        ));
        assert(labels_of(tree) == crate::ingest::interned(reserved, tree.label));
        if reserved.contains(tree.label) {
            assert(dag.labels.len() == 1);
        } else {
            assert(dag.labels.len() == 2);
            assert(dag.labels[0] == dummy_label());
            assert(reserved[0] == dummy_label());
        }
    }
}

/// The flat form `written` with the labels `labels` is what a traverse of
/// `dag` from `root` gives: the labels of the table and what the walk from
/// the root writes. Every merge type is one of the three, and there is one
/// for every cluster if the root reaches them all. It holds two bits for
/// every cluster that it writes and an entry for every false bit, one more
/// than there are merge types. It decodes to one cluster for every merge
/// type, and the root that it decodes to stands for the same trees as
/// `root` and is built as it is.
pub open spec fn flat_form_of(dag: Dag, root: int, written: Flat, labels: Seq<Seq<char>>) -> bool {
    &&& labels == dag.labels
    &&& written == flat_of(dag, root)
    &&& (written.merge_types.len() > 0 ==> written.pointer.len() == written.merge_types.len() + 1)
    &&& (forall|i: int| 0 <= i < written.merge_types.len() ==> #[trigger] written.merge_types[i] < 3)
    &&& ((forall|c: int| dag.labels.len() <= c < dag.ids() ==> #[trigger] reaches(dag, root, c))
        ==> written.merge_types.len() == dag.clusters.len())
    &&& written.labels == labels.len()
    &&& written.merge_types.len() <= dag.clusters.len()
    &&& written.structure.len() == 2 * written.merge_types.len()
    &&& written.pointer.len() == zeros_before(written.structure, written.structure.len() as int)
    &&& !too_many(written)
    &&& decode(written) is Some
    &&& decode(written)->0.clusters.len() == written.merge_types.len()
    &&& (Dag { labels: dag.labels, clusters: decode(written)->0.clusters }).wf()
    &&& (Dag { labels: dag.labels, clusters: decode(written)->0.clusters }).canonical()
    &&& stands_for(
        dag,
        Dag { labels: dag.labels, clusters: decode(written)->0.clusters },
        decode(written)->0.root,
        root,
    )
}

/// The table `dag` with the root `root` is what a detraverse of the flat
/// form `written` with the labels `labels` gives.
pub open spec fn decoded_from(dag: Dag, root: int, written: Flat, labels: Seq<Seq<char>>) -> bool {
    &&& dag.labels == labels
    &&& decode(written) == Some(Decoded { clusters: dag.clusters, root: root as usize })
    &&& 0 <= root <= usize::MAX
}

/// Round trip: what is decoded from the flat form of a table stands for
/// the same trees as the table, whatever hangs below.
pub proof fn lemma_round_trip(
    dag: Dag,
    root: int,
    written: Flat,
    labels: Seq<Seq<char>>,
    rebuilt: Dag,
    rebuilt_root: int,
    kids: Seq<Tree>,
)
    requires
        flat_form_of(dag, root, written, labels),
        decoded_from(rebuilt, rebuilt_root, written, labels),
    ensures
        rebuilt.expand(rebuilt_root, kids) == dag.expand(root, kids),
{
    let later = Dag { labels: dag.labels, clusters: decode(written)->0.clusters };
    assert(rebuilt == later);
    assert(later.expand(decode(written)->0.root as int, kids) == dag.expand(root, kids));
}

/// What is decoded from the flat form of a table is built as the table
/// is from its root down, cluster for cluster and label for label, and
/// has one cluster for every merge type of the flat form.
pub proof fn lemma_rebuilt_alike(
    dag: Dag,
    root: int,
    written: Flat,
    labels: Seq<Seq<char>>,
    rebuilt: Dag,
    rebuilt_root: int,
)
    requires
        flat_form_of(dag, root, written, labels),
        decoded_from(rebuilt, rebuilt_root, written, labels),
    ensures
        alike(dag, rebuilt, root, rebuilt_root),
        rebuilt.clusters.len() == written.merge_types.len(),
{
    let later = Dag { labels: dag.labels, clusters: decode(written)->0.clusters };
    assert(rebuilt == later);
}

/// Written again: the flat form of what is decoded from the flat form of
/// a table is that flat form, bit for bit and entry for entry.
pub proof fn lemma_written_again(
    dag: Dag,
    root: int,
    written: Flat,
    labels: Seq<Seq<char>>,
    rebuilt: Dag,
    rebuilt_root: int,
)
    requires
        dag.wf(),
        dag.canonical(),
        dag.ids() <= usize::MAX,
        0 <= root < dag.ids(),
        flat_form_of(dag, root, written, labels),
        decoded_from(rebuilt, rebuilt_root, written, labels),
    ensures
        flat_of(rebuilt, rebuilt_root) == written,
{
    let later = Dag { labels: dag.labels, clusters: decode(written)->0.clusters };
    assert(rebuilt == later);
    crate::same_walk::lemma_same_flat(dag, rebuilt, root, rebuilt_root);
}

/// Write, read, write: a traverse of what a detraverse has read gives
/// the arrays and labels that the detraverse was given.
pub proof fn lemma_same_arrays(
    dag: Dag,
    root: int,
    written: Flat,
    labels: Seq<Seq<char>>,
    rebuilt: Dag,
    rebuilt_root: int,
    again: Flat,
    labels_again: Seq<Seq<char>>,
)
    requires
        dag.wf(),
        dag.canonical(),
        dag.ids() <= usize::MAX,
        0 <= root < dag.ids(),
        flat_form_of(dag, root, written, labels),
        decoded_from(rebuilt, rebuilt_root, written, labels),
        flat_form_of(rebuilt, rebuilt_root, again, labels_again),
    ensures
        again == written,
        labels_again == labels,
{
    lemma_written_again(dag, root, written, labels, rebuilt, rebuilt_root);
}

/// Build, write, read, expand: the tree that comes out is the tree that
/// went in. `built` with `root` is what a build of `tree` gives, `written`
/// with `labels` its flat form, `rebuilt` with `rebuilt_root` what is read
/// from the flat form, and `back` what that expands to.
pub proof fn lemma_tree_comes_back(
    tree: Tree,
    built: Dag,
    root: int,
    written: Flat,
    labels: Seq<Seq<char>>,
    rebuilt: Dag,
    rebuilt_root: int,
    back: Tree,
)
    requires
        built.expand(root, Seq::empty()) == seq![tree],
        flat_form_of(built, root, written, labels),
        decoded_from(rebuilt, rebuilt_root, written, labels),
        rebuilt.expand(rebuilt_root, Seq::empty()) == seq![back],
    ensures
        back == tree,
{
    lemma_round_trip(built, root, written, labels, rebuilt, rebuilt_root, Seq::empty());
    assert(seq![back][0] == seq![tree][0]);
}

/// A round in which something was merged puts the next owed merge off by
/// four rounds at most.
proof fn lemma_idle_rounds_bounded(flags: Flags, step: usize)
    requires
        step < usize::MAX,
    ensures
        idle_rounds(flags, (step + 1) as usize) <= idle_rounds(flags, step) + 4,
{
}

} // verus!
