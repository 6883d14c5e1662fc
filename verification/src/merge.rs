//! The merge passes over the arena: the horizontal pass, the vertical
//! pass, and the three policies for each.

use vstd::prelude::*;
use crate::arena::{applies, converged, populated, Arena};
use crate::forest::ArenaView;
use crate::error::TopDagError;
use crate::flags_and_statistic::{Flags, MergeRule, Round};
use crate::forest::{compact, compact_at, kids, target_after, target_live, valid};
use crate::merge_proofs::{
    lemma_cut_tail, lemma_slots_apart, lemma_swap_down, live_slot, with_last, with_swapped,
};
use crate::reach::{
    lemma_cut_tree_like, lemma_same_records_covered, lemma_swap_tree_like, tree_like,
};
use crate::pass_model::{
    advanced_chain, advanced_horizontal, advanced_pairs, advanced_step, chain_on, compacted,
    first_dead, horizontal_at, horizontal_from, merge_model, round_model, round_of, sar_horizontal,
    simple_chain, simple_pairs, ssr_horizontal, swept, tidied, vertical_at, vertical_from,
    vertical_slots, Stepped, Swept,
};
use crate::structs::{MergeType, NodeHandle, Target};
use crate::tables::Tables;

verus! {

/// The round makes no new cluster: it is one of the rounds in which the
/// slow advanced rules only merge what gives a cluster that is there.
pub open spec fn reuse_only(round: Round) -> bool {
    round.rule == MergeRule::SlowAdvancedRules && round.step % 5 != 0
}

/// In this round every candidate is tried: the throttle is off, and the
/// slow advanced rules act as the fast ones.
pub open spec fn full(round: Round) -> bool {
    &&& round.ceiling is None
    &&& (round.rule == MergeRule::SlowAdvancedRules ==> round.step % 5 == 0)
}

/// No horizontal merge applies at the front of node `n`: if it has two
/// children or more, the first of them is a node.
pub open spec fn front_settled(a: ArenaView, n: int) -> bool {
    a.nodes[n].last_child - a.nodes[n].first_child >= 2 ==> a.edges[a.nodes[n].first_child as int].index is NodeRef
}

/// No vertical merge applies at slot `j`: its edge leads to a leaf, or
/// to a node with other than one child.
pub open spec fn slot_settled(a: ArenaView, j: int) -> bool {
    a.edges[j].index matches Target::NodeRef(x) ==> a.nodes[x as int].last_child
        - a.nodes[x as int].first_child != 1
}

/// No horizontal merge applies at the front of any live node.
pub open spec fn fronts_settled(a: ArenaView, up_to: int) -> bool {
    forall|n: int| 0 <= n < up_to && !(#[trigger] a.nodes[n]).deleted ==> front_settled(a, n)
}

/// No vertical merge applies below node `n`, at its slots before `up_to`.
pub open spec fn below_settled(a: ArenaView, n: int, up_to: int) -> bool {
    forall|j: int| a.nodes[n].first_child <= j < up_to ==> #[trigger] slot_settled(a, j)
}

/// No vertical merge applies below any live node before `up_to` that has
/// more than one child or is the synthetic root.
pub open spec fn slots_settled(a: ArenaView, up_to: int) -> bool {
    forall|n: int|
        0 <= n < up_to && !(#[trigger] a.nodes[n]).deleted && (a.nodes[n].last_child
            - a.nodes[n].first_child > 1 || n == 0) ==> below_settled(
            a,
            n,
            a.nodes[n].last_child as int,
        )
}

/// Where no merge applies no live node has two children or more: its
/// first child would be a node with two children or more again, and so on
/// without end.
pub proof fn lemma_settled(a: ArenaView, ids: int, n: int)
    requires
        valid(a, ids),
        compact(a),
        populated(a),
        fronts_settled(a, a.nodes.len() as int),
        slots_settled(a, a.nodes.len() as int),
        0 <= n < a.nodes.len(),
        !a.nodes[n].deleted,
    ensures
        a.nodes[n].last_child - a.nodes[n].first_child < 2,
    decreases a.nodes.len() - n,
{
    if a.nodes[n].last_child - a.nodes[n].first_child >= 2 {
        let j = a.nodes[n].first_child as int;
        assert(compact_at(a, n));
        assert(!a.edges[j].deleted);
        assert(front_settled(a, n));
        assert(target_live(a, a.edges[j].index));
        assert(target_after(a.edges[j].index, n));
        assert(below_settled(a, n, a.nodes[n].last_child as int));
        assert(slot_settled(a, j));
        let m = a.edges[j].index->NodeRef_0 as int;
        lemma_settled(a, ids, m);
    }
}

/// Where no merge applies the one child of the synthetic root is a leaf.
pub proof fn lemma_settled_converged(a: ArenaView, ids: int)
    requires
        valid(a, ids),
        compact(a),
        populated(a),
        !a.nodes[0].deleted,
        a.nodes[0].first_child + 1 == a.nodes[0].last_child,
        fronts_settled(a, a.nodes.len() as int),
        slots_settled(a, a.nodes.len() as int),
    ensures
        converged(a),
{
    let j = a.nodes[0].first_child as int;
    if !converged(a) {
        assert(compact_at(a, 0));
        assert(!a.edges[j].deleted);
        assert(target_live(a, a.edges[j].index));
        assert(below_settled(a, 0, a.nodes[0].last_child as int));
        assert(slot_settled(a, j));
        let m = a.edges[j].index->NodeRef_0 as int;
        lemma_settled(a, ids, m);
    }
}

/// One of the slots of node `n` holds a live edge.
pub open spec fn has_live_child(a: ArenaView, n: int) -> bool {
    exists|w: int| a.nodes[n].first_child <= w < a.nodes[n].last_child && !(#[trigger] a.edges[w]).deleted
}

impl Arena {
    /// Moves the live edges of `parent` to the front of its slots, in
    /// their order, and ends the slots behind the last of them.
    fn compress_children(&mut self, tables: &Tables, parent: usize)
        requires
            old(self).fits(tables),
            parent < old(self).nodes@.len(),
        ensures
            final(self).fits(tables),
            final(self).follows(tables, old(self), tables),
            final(self).live == old(self).live,
            compact_at(final(self)@, parent as int),
            forall|n: int|
                0 <= n < old(self).nodes@.len() && n != parent && compact_at(old(self)@, n)
                    ==> compact_at(final(self)@, n),
            forall|n: int|
                0 <= n < old(self).nodes@.len() ==> (#[trigger] final(self).nodes@[n]).deleted == old(
                    self,
                ).nodes@[n].deleted,
            final(self).leafs@ == old(self).leafs@,
            forall|n: int|
                0 <= n < old(self).nodes@.len() && n != parent ==> #[trigger] final(self).nodes@[n]
                    == old(self).nodes@[n],
            compact_at(old(self)@, parent as int) ==> final(self)@ == old(self)@,
            has_live_child(old(self)@, parent as int) ==> final(self).nodes@[parent as int].first_child
                < final(self).nodes@[parent as int].last_child,
            final(self)@ == compacted(old(self)@, parent as int),
    {
        let ghost dag = tables@;
        let ghost before = self@;
        let first = self.nodes[parent].first_child;
        let last = self.nodes[parent].last_child;
        let mut backward = first;
        while backward < last && !self.edges[backward].deleted
            invariant
                first <= backward <= last <= self.edges@.len(),
                forall|j: int| first <= j < backward ==> !(#[trigger] self.edges@[j]).deleted,
                self@ == before,
                first_dead(before.edges, backward as int, last as int) == first_dead(
                    before.edges,
                    first as int,
                    last as int,
                ),
            decreases last - backward,
        {
            backward += 1;
        }
        let ghost dead = backward as int;
        assert(dead == first_dead(before.edges, first as int, last as int));
        if backward < last {
            let mut forward = backward + 1;
            while forward < last
                invariant
                    swept(self.edges@, backward as int, forward as int, last as int) == swept(
                        before.edges,
                        dead,
                        dead + 1,
                        last as int,
                    ),
                    valid(self@, dag.ids()),
                    self.nodes@ == before.nodes,
                    self.leafs@ == before.leafs,
                    self.edges@.len() == before.edges.len(),
                    self.live == old(self).live,
                    tree_like(self@),
                    parent < self.nodes@.len(),
                    first == self.nodes@[parent as int].first_child,
                    last == self.nodes@[parent as int].last_child,
                    first <= backward < forward <= last <= self.edges@.len(),
                    forall|j: int| first <= j < backward ==> !(#[trigger] self.edges@[j]).deleted,
                    forall|j: int| backward <= j < forward ==> (#[trigger] self.edges@[j]).deleted,
                    forall|j: int|
                        0 <= j < self.edges@.len() && !(first <= j < last) ==> #[trigger] self.edges@[j]
                            == before.edges[j],
                    forall|m: int|
                        0 <= m < self.nodes@.len() ==> #[trigger] kids(self@, dag, m) == kids(
                            before,
                            dag,
                            m,
                        ),
                    backward > first || self.edges@ == before.edges,
                decreases last - forward,
            {
                if !self.edges[forward].deleted {
                    let ghost a = self@;
                    let live_edge = self.edges[forward];
                    let dead_edge = self.edges[backward];
                    self.edges[backward] = live_edge;
                    self.edges[forward] = dead_edge;
                    proof {
                        assert(self@ =~= with_swapped(a, backward as int, forward as int));
                        lemma_swap_down(a, dag, parent as int, backward as int, forward as int);
                        lemma_swap_tree_like(
                            a,
                            dag.ids(),
                            parent as int,
                            backward as int,
                            forward as int,
                        );
                        assert forall|m: int| 0 <= m < self.nodes@.len() implies #[trigger] kids(
                            self@,
                            dag,
                            m,
                        ) == kids(before, dag, m) by {
                            assert(kids(self@, dag, m) == kids(a, dag, m));
                        }
                    }
                    backward += 1;
                }
                forward += 1;
            }
        }
        let ghost a = self@;
        proof {
            if dead < last {
                assert(swept(a.edges, backward as int, last as int, last as int) == (Swept {
                    edges: a.edges,
                    back: backward as int,
                }));
            }
            if has_live_child(before, parent as int) && backward == first {
                let w = choose|w: int|
                    before.nodes[parent as int].first_child <= w
                        < before.nodes[parent as int].last_child && !before.edges[w].deleted;
                assert(a.edges[w].deleted);
            }
        }
        self.nodes[parent].last_child = backward;
        proof {
            if compact_at(before, parent as int) {
                assert(backward == last);
                assert(self@.nodes =~= before.nodes);
                assert(self@ =~= before);
            }
            assert(self@ =~= with_last(a, parent as int, backward));
            assert(self@ =~= compacted(before, parent as int));
            assert(tree_like(a));
            lemma_cut_tree_like(a, dag.ids(), parent as int, backward);
            lemma_same_records_covered(before, self@, dag);
            lemma_cut_tail(a, dag, parent as int, backward);
            assert(kids(self@, dag, 0) == kids(a, dag, 0));
            assert(kids(a, dag, 0) == kids(before, dag, 0));
            assert(self.nodes@.len() == before.nodes.len());
            if parent != 0 {
                lemma_slots_apart(before, dag.ids(), 0, parent as int, before.nodes[0].first_child as int);
            }
            assert forall|n: int|
                0 <= n < before.nodes.len() && n != parent && compact_at(before, n) implies compact_at(
                self@,
                n,
            ) by {
                assert forall|j: int|
                    self@.nodes[n].first_child <= j < self@.nodes[n].last_child implies !(
                #[trigger] self@.edges[j]).deleted by {
                    lemma_slots_apart(before, dag.ids(), n, parent as int, j);
                    assert(!before.edges[j].deleted);
                }
            }
        }
    }

    /// Whether the edge in slot `slot` leads to a leaf.
    fn leaf_at(&self, slot: usize) -> (leaf: bool)
        requires
            slot < self.edges@.len(),
        ensures
            leaf == (self.edges@[slot as int].index is LeafRef),
    {
        match self.edges[slot].index {
            Target::LeafRef(_) => true,
            Target::NodeRef(_) => false,
        }
    }

    /// The slots of `parent` from `from` on hold live edges.
    pub open spec fn live_from(&self, parent: int, from: int) -> bool {
        forall|j: int|
            from <= j < self.nodes@[parent].last_child ==> !(#[trigger] self.edges@[j]).deleted
    }

    /// Every node but `parent` that had no deleted edge among its slots in
    /// `before` has none now.
    pub open spec fn others_compact(&self, before: &Arena, parent: int) -> bool {
        forall|n: int|
            0 <= n < before.nodes@.len() && n != parent && compact_at(before@, n) ==> compact_at(
                self@,
                n,
            )
    }

    /// One merge among the slots of `parent` was tried on the slots `at`
    /// and `at + 1`; it left the slots from `next` on as they were.
    pub open spec fn stepped(
        &self,
        tables: &Tables,
        before: &Arena,
        tables_before: &Tables,
        parent: int,
        next: int,
    ) -> bool {
        &&& self.fits(tables)
        &&& self.follows(tables, before, tables_before)
        &&& self.same_shape(before)
        &&& self.nodes_kept(before)
        &&& self.others_compact(before, parent)
        &&& self.live_from(parent, next)
        &&& !self.nodes@[parent].deleted
        &&& has_live_child(self@, parent)
    }

    /// Tries the merge of shape `shape` on the slots `at` and `at + 1` of
    /// `parent`.
    fn merge_pair(
        &mut self,
        tables: &mut Tables,
        round: &Round,
        parent: usize,
        at: usize,
        shape: MergeType,
    )
        requires
            old(self).fits(old(tables)),
            parent < old(self).nodes@.len(),
            !old(self).nodes@[parent as int].deleted,
            old(self).nodes@[parent as int].first_child <= at,
            at + 1 < old(self).nodes@[parent as int].last_child,
            old(self).live_from(parent as int, at as int),
            shape == MergeType::DE ==> old(self).edges@[at as int].index is LeafRef,
            shape == MergeType::CE ==> old(self).edges@[at + 1].index is LeafRef,
            shape != MergeType::AB,
        ensures
            final(self).stepped(final(tables), old(self), old(tables), parent as int, at + 2),
            round.ceiling is None ==> final(self).live < old(self).live,
            final(self).state(final(tables)) == merge_model(
                old(self).state(old(tables)),
                *round,
                at as int,
                at + 1,
                shape,
            ),
    {
        let first = NodeHandle { parent, child: at };
        let second = NodeHandle { parent, child: at + 1 };
        proof {
            assert(!old(self).edges@[at as int].deleted);
            assert(!old(self).edges@[at + 1].deleted);
        }
        self.merge(tables, round, first, second, shape);
        proof {
            assert forall|j: int|
                at + 2 <= j < self.nodes@[parent as int].last_child implies !(
            #[trigger] self.edges@[j]).deleted by {
                assert(!old(self).edges@[j].deleted);
            }
            assert(!self.edges@[at as int].deleted || !self.edges@[at + 1].deleted);
        }
    }

    /// The horizontal pass over the children of `parent` by the simplified
    /// standard rules: the children are taken two by two from the left, and
    /// a pair is merged if one of the two is a leaf.
    fn ssr_horizontal_merge(&mut self, tables: &mut Tables, round: &Round, parent: usize)
        requires
            old(self).steady(old(tables)),
            parent < old(self).nodes@.len(),
            !old(self).nodes@[parent as int].deleted,
        ensures
            final(self).steady(final(tables)),
            final(self).follows(final(tables), old(self), old(tables)),
            final(self).nodes_kept(old(self)),
            round.ceiling is None ==> final(self).live < old(self).live || (final(self)@ == old(self)@
                && front_settled(final(self)@, parent as int)),
            final(self).state(final(tables)) == ssr_horizontal(
                old(self).state(old(tables)),
                *round,
                parent as int,
            ),
    {
        let first = self.nodes[parent].first_child;
        let last = self.nodes[parent].last_child;
        let mut index = first;
        proof {
            assert(compact_at(self@, parent as int));
            assert(!self.edges@[first as int].deleted);
        }
        while index < last && last - index >= 2
            invariant
                simple_pairs(self.state(tables), *round, index as int, last as int) == simple_pairs(
                    old(self).state(old(tables)),
                    *round,
                    first as int,
                    last as int,
                ),
                self.stepped(tables, old(self), old(tables), parent as int, index as int),
                old(self).steady(old(tables)),
                parent < self.nodes@.len(),
                first == self.nodes@[parent as int].first_child,
                last == self.nodes@[parent as int].last_child,
                first <= index,
                round.ceiling is None ==> self.live < old(self).live || (self@ == old(self)@ && (index
                    > first ==> front_settled(self@, parent as int))),
            decreases last + 2 - index,
        {
            let ghost mid = *self;
            let ghost mid_tables = *tables;
            if self.leaf_at(index) {
                self.merge_pair(tables, round, parent, index, MergeType::DE);
            } else if self.leaf_at(index + 1) {
                self.merge_pair(tables, round, parent, index, MergeType::CE);
            }
            proof {
                assert(simple_pairs(mid.state(&mid_tables), *round, index as int, last as int)
                    == simple_pairs(self.state(tables), *round, index + 2, last as int));
                self.lemma_stepped_on(tables, &mid, &mid_tables, old(self), old(tables), parent as int, index + 2);
            }
            index += 2;
        }
        let ghost mid = *self;
        proof {
            assert(simple_pairs(mid.state(tables), *round, index as int, last as int) == mid.state(
                tables,
            ));
        }
        self.compress_children(tables, parent);
        proof {
            self.lemma_follows_on(tables, &mid, tables, old(self), old(tables));
            self.lemma_steady_again(&mid, old(self), parent as int);
            assert(self.state(tables) == tidied(mid.state(tables), parent as int));
        }
    }

    /// A step after steps is a step.
    proof fn lemma_stepped_on(
        &self,
        tables: &Tables,
        middle: &Arena,
        tables_middle: &Tables,
        first: &Arena,
        tables_first: &Tables,
        parent: int,
        next: int,
    )
        requires
            0 <= parent < first.nodes@.len(),
            middle.stepped(tables_middle, first, tables_first, parent, next - 2) || middle.stepped(
                tables_middle,
                first,
                tables_first,
                parent,
                next - 3,
            ),
            self.stepped(tables, middle, tables_middle, parent, next) || (*self == *middle && *tables
                == *tables_middle),
        ensures
            self.stepped(tables, first, tables_first, parent, next),
    {
        if !(*self == *middle && *tables == *tables_middle) {
            self.lemma_follows_on(tables, middle, tables_middle, first, tables_first);
            assert forall|n: int| 0 <= n < self.nodes@.len() implies (#[trigger] self.nodes@[n]).first_child
                == first.nodes@[n].first_child && self.nodes@[n].last_child
                == first.nodes@[n].last_child && (first.nodes@[n].deleted
                ==> self.nodes@[n].deleted) by {
                assert(middle.nodes@[n].first_child == first.nodes@[n].first_child);
            }
            assert forall|n: int|
                0 <= n < first.nodes@.len() && n != parent && compact_at(first@, n) implies compact_at(
                self@,
                n,
            ) by {
                assert(compact_at(middle@, n));
            }
        }
    }

    /// After the slots of `parent` were compacted, no live node has a
    /// deleted edge among its slots, if none but `parent` had one before.
    proof fn lemma_steady_again(&self, middle: &Arena, first: &Arena, parent: int)
        requires
            0 <= parent < first.nodes@.len(),
            compact(first@),
            populated(first@),
            self.nodes@[parent].first_child < self.nodes@[parent].last_child,
            forall|n: int|
                0 <= n < middle.nodes@.len() && n != parent ==> #[trigger] self.nodes@[n]
                    == middle.nodes@[n],
            middle.same_shape(first),
            middle.others_compact(first, parent),
            self.nodes@.len() == middle.nodes@.len(),
            compact_at(self@, parent),
            forall|n: int|
                0 <= n < middle.nodes@.len() && n != parent && compact_at(middle@, n)
                    ==> compact_at(self@, n),
            forall|n: int|
                0 <= n < middle.nodes@.len() ==> (#[trigger] self.nodes@[n]).deleted
                    == middle.nodes@[n].deleted,
        ensures
            compact(self@),
            populated(self@),
    {
        assert forall|n: int| 0 <= n < self.nodes@.len() && !(#[trigger] self.nodes@[n]).deleted implies compact_at(
            self@,
            n,
        ) by {
            if n != parent {
                assert(!middle.nodes@[n].deleted);
                assert(!first.nodes@[n].deleted);
                assert(compact_at(first@, n));
                assert(compact_at(middle@, n));
            }
        }
        assert forall|n: int| 0 <= n < self.nodes@.len() && !(#[trigger] self.nodes@[n]).deleted implies self.nodes@[n].first_child
            < self.nodes@[n].last_child by {
            if n != parent {
                assert(!middle.nodes@[n].deleted);
                assert(!first.nodes@[n].deleted);
                assert(middle.nodes@[n].first_child == first.nodes@[n].first_child);
            }
        }
    }

    /// One step of the advanced rules among the children of `parent`, at
    /// the slots from `index` on; it says how many slots it has dealt with.
    ///
    /// The pair at `index` is merged if its cluster is in the table
    /// already. Else the pair at `index + 1` is merged if its cluster is,
    /// and the step has dealt with three slots. Else, with `fallback`, the
    /// pair at `index` is merged though its cluster is new.
    fn advanced_horizontal_step(
        &mut self,
        tables: &mut Tables,
        round: &Round,
        parent: usize,
        index: usize,
        fallback: bool,
    ) -> (advance: usize)
        requires
            old(self).fits(old(tables)),
            parent < old(self).nodes@.len(),
            !old(self).nodes@[parent as int].deleted,
            old(self).nodes@[parent as int].first_child <= index,
            index + 1 < old(self).nodes@[parent as int].last_child,
            old(self).live_from(parent as int, index as int),
        ensures
            !fallback ==> final(tables)@ == old(tables)@,
            advance == 2 || advance == 3,
            index + advance <= old(self).nodes@[parent as int].last_child,
            final(self).stepped(final(tables), old(self), old(tables), parent as int, index + advance),
            round.ceiling is None && fallback ==> final(self).live < old(self).live || (final(self)@
                == old(self)@ && old(self).edges@[index as int].index is NodeRef),
            (Stepped { state: final(self).state(final(tables)), advance: advance as int })
                == advanced_step(
                old(self).state(old(tables)),
                *round,
                index as int,
                old(self).nodes@[parent as int].last_child as int,
                fallback,
            ),
    {
        let last = self.nodes[parent].last_child;
        let first_is_leaf = self.leaf_at(index);
        let second_is_leaf = self.leaf_at(index + 1);
        let first_cluster = NodeHandle { parent, child: index };
        let second_cluster = NodeHandle { parent, child: index + 1 };
        proof {
            assert(!self.edges@[index as int].deleted);
            assert(!self.edges@[index + 1].deleted);
        }
        let could_merge = if first_is_leaf {
            Some(MergeType::DE)
        } else if second_is_leaf {
            Some(MergeType::CE)
        } else {
            None
        };
        if let Some(shape) = could_merge {
            if self.try_merge(tables, first_cluster, second_cluster, shape) {
                self.merge_pair(tables, round, parent, index, shape);
                return 2;
            }
        }
        if last - index >= 3 {
            let third_cluster = NodeHandle { parent, child: index + 2 };
            proof {
                assert(!self.edges@[index + 2].deleted);
            }
            if second_is_leaf {
                if self.try_merge(tables, second_cluster, third_cluster, MergeType::DE) {
                    self.merge_pair(tables, round, parent, index + 1, MergeType::DE);
                    return 3;
                }
            } else if self.leaf_at(index + 2) {
                if self.try_merge(tables, second_cluster, third_cluster, MergeType::CE) {
                    self.merge_pair(tables, round, parent, index + 1, MergeType::CE);
                    return 3;
                }
            }
        }
        if fallback {
            if let Some(shape) = could_merge {
                self.merge_pair(tables, round, parent, index, shape);
                return 2;
            }
        }
        proof {
            assert(tables@.extends(tables@));
        }
        2
    }

    /// The horizontal pass over the children of `parent` by the advanced
    /// rules, step by step from the left.
    fn advanced_horizontal_merge(
        &mut self,
        tables: &mut Tables,
        round: &Round,
        parent: usize,
        fallback: bool,
    )
        requires
            old(self).steady(old(tables)),
            parent < old(self).nodes@.len(),
            !old(self).nodes@[parent as int].deleted,
        ensures
            !fallback ==> final(tables)@ == old(tables)@,
            final(self).steady(final(tables)),
            final(self).follows(final(tables), old(self), old(tables)),
            final(self).nodes_kept(old(self)),
            round.ceiling is None && fallback ==> final(self).live < old(self).live || (final(self)@
                == old(self)@ && front_settled(final(self)@, parent as int)),
            final(self).state(final(tables)) == advanced_horizontal(
                old(self).state(old(tables)),
                *round,
                parent as int,
                fallback,
            ),
    {
        let first = self.nodes[parent].first_child;
        let last = self.nodes[parent].last_child;
        let mut index = first;
        proof {
            assert(compact_at(self@, parent as int));
            assert(!self.edges@[first as int].deleted);
        }
        while index < last && last - index >= 2
            invariant
                !fallback ==> tables@ == old(tables)@,
                advanced_pairs(self.state(tables), *round, index as int, last as int, fallback)
                    == advanced_pairs(
                    old(self).state(old(tables)),
                    *round,
                    first as int,
                    last as int,
                    fallback,
                ),
                self.stepped(tables, old(self), old(tables), parent as int, index as int),
                old(self).steady(old(tables)),
                parent < self.nodes@.len(),
                first == self.nodes@[parent as int].first_child,
                last == self.nodes@[parent as int].last_child,
                first <= index <= last,
                round.ceiling is None && fallback ==> self.live < old(self).live || (self@ == old(
                    self,
                )@ && (index > first ==> front_settled(self@, parent as int))),
            decreases last - index,
        {
            let ghost mid = *self;
            let ghost mid_tables = *tables;
            let advance = self.advanced_horizontal_step(tables, round, parent, index, fallback);
            proof {
                assert(advanced_pairs(
                    mid.state(&mid_tables),
                    *round,
                    index as int,
                    last as int,
                    fallback,
                ) == advanced_pairs(
                    self.state(tables),
                    *round,
                    index + advance,
                    last as int,
                    fallback,
                ));
                self.lemma_stepped_on(
                    tables,
                    &mid,
                    &mid_tables,
                    old(self),
                    old(tables),
                    parent as int,
                    index + advance,
                );
            }
            index += advance;
        }
        let ghost mid = *self;
        proof {
            assert(advanced_pairs(mid.state(tables), *round, index as int, last as int, fallback)
                == mid.state(tables));
        }
        self.compress_children(tables, parent);
        proof {
            self.lemma_follows_on(tables, &mid, tables, old(self), old(tables));
            self.lemma_steady_again(&mid, old(self), parent as int);
            assert(self.state(tables) == tidied(mid.state(tables), parent as int));
        }
    }

    /// The horizontal pass over the children of `parent` by the fast
    /// advanced rules: a pair whose cluster exists already goes first, be
    /// it the pair at hand or the one that overlaps it; else the pair at
    /// hand is merged.
    fn far_horizontal_merge(&mut self, tables: &mut Tables, round: &Round, parent: usize)
        requires
            old(self).steady(old(tables)),
            parent < old(self).nodes@.len(),
            !old(self).nodes@[parent as int].deleted,
        ensures
            final(self).steady(final(tables)),
            final(self).follows(final(tables), old(self), old(tables)),
            final(self).nodes_kept(old(self)),
            round.ceiling is None ==> final(self).live < old(self).live || (final(self)@ == old(self)@
                && front_settled(final(self)@, parent as int)),
            final(self).state(final(tables)) == advanced_horizontal(
                old(self).state(old(tables)),
                *round,
                parent as int,
                true,
            ),
    {
        self.advanced_horizontal_merge(tables, round, parent, true);
    }

    /// The horizontal pass over the children of `parent` by the slow
    /// advanced rules: every fifth round as the fast advanced rules, in the
    /// other rounds only pairs whose cluster exists already are merged.
    fn sar_horizontal_merge(&mut self, tables: &mut Tables, round: &Round, parent: usize)
        requires
            old(self).steady(old(tables)),
            parent < old(self).nodes@.len(),
            !old(self).nodes@[parent as int].deleted,
        ensures
            reuse_only(*round) ==> final(tables)@ == old(tables)@,
            final(self).steady(final(tables)),
            final(self).follows(final(tables), old(self), old(tables)),
            final(self).nodes_kept(old(self)),
            round.ceiling is None && round.step % 5 == 0 ==> final(self).live < old(self).live || (
            final(self)@ == old(self)@ && front_settled(final(self)@, parent as int)),
            final(self).state(final(tables)) == sar_horizontal(
                old(self).state(old(tables)),
                *round,
                parent as int,
            ),
    {
        if round.step % 5 == 0 {
            self.far_horizontal_merge(tables, round, parent);
        } else {
            self.advanced_horizontal_merge(tables, round, parent, false);
        }
    }

    /// The horizontal pass: every live node in the order of the records,
    /// each by the policy of the round.
    fn horizontal_merge(&mut self, tables: &mut Tables, round: &Round)
        requires
            old(self).steady(old(tables)),
        ensures
            reuse_only(*round) ==> final(tables)@ == old(tables)@,
            final(self).steady(final(tables)),
            final(self).follows(final(tables), old(self), old(tables)),
            final(self).nodes_kept(old(self)),
            full(*round) ==> final(self).live < old(self).live || (final(self)@ == old(self)@
                && fronts_settled(final(self)@, final(self).nodes@.len() as int)),
            final(self).state(final(tables)) == horizontal_from(
                old(self).state(old(tables)),
                *round,
                0,
                old(self).nodes@.len() as int,
            ),
    {
        let mut index: usize = 0;
        while index < self.nodes.len()
            invariant
                reuse_only(*round) ==> tables@ == old(tables)@,
                horizontal_from(
                    self.state(tables),
                    *round,
                    index as int,
                    old(self).nodes@.len() as int,
                ) == horizontal_from(
                    old(self).state(old(tables)),
                    *round,
                    0,
                    old(self).nodes@.len() as int,
                ),
                self.steady(tables),
                self.follows(tables, old(self), old(tables)),
                self.nodes_kept(old(self)),
                index <= self.nodes@.len(),
                full(*round) ==> self.live < old(self).live || (self@ == old(self)@ && fronts_settled(
                    self@,
                    index as int,
                )),
            decreases self.nodes@.len() - index,
        {
            let ghost start = self.state(tables);
            let ghost count = old(self).nodes@.len() as int;
            proof {
                assert(self.nodes@.len() == count);
                assert(horizontal_from(start, *round, index as int, count) == horizontal_from(
                    if !start.arena.nodes[index as int].deleted {
                        horizontal_at(start, *round, index as int)
                    } else {
                        start
                    },
                    *round,
                    index + 1,
                    count,
                ));
            }
            if !self.nodes[index].deleted {
                let ghost mid = *self;
                let ghost mid_tables = *tables;
                match round.rule {
                    MergeRule::SimplifiedStandardRules => {
                        self.ssr_horizontal_merge(tables, round, index);
                    },
                    MergeRule::FastAdvancedRules => {
                        self.far_horizontal_merge(tables, round, index);
                    },
                    MergeRule::SlowAdvancedRules => {
                        self.sar_horizontal_merge(tables, round, index);
                    },
                }
                proof {
                    self.lemma_follows_on(tables, &mid, &mid_tables, old(self), old(tables));
                    assert(self.state(tables) == horizontal_at(start, *round, index as int));
                }
            }
            index += 1;
        }
        proof {
            assert(self.nodes@.len() == old(self).nodes@.len());
        }
    }

    /// `below` is the handle one step down from `handle`: the edge of
    /// `handle` leads to the parent of `below`, a node whose only slot is
    /// the one of `below`.
    pub open spec fn steps_down(&self, handle: NodeHandle, below: NodeHandle) -> bool {
        &&& self.edges@[handle.child as int].index == Target::NodeRef(below.parent)
        &&& handle.parent < below.parent
        &&& live_slot(self@, below.parent as int, below.child as int)
        &&& self.nodes@[below.parent as int].first_child == below.child
        &&& self.nodes@[below.parent as int].last_child == below.child + 1
    }

    /// The handle one step down from `handle`, if its edge leads to a node
    /// with exactly one child.
    fn descend(&self, tables: &Tables, handle: NodeHandle) -> (below: Option<NodeHandle>)
        requires
            self.steady(tables),
            live_slot(self@, handle.parent as int, handle.child as int),
        ensures
            match below {
                Some(b) => self.steps_down(handle, b),
                None => match self.edges@[handle.child as int].index {
                    Target::LeafRef(_) => true,
                    Target::NodeRef(x) => self.nodes@[x as int].last_child
                        - self.nodes@[x as int].first_child != 1,
                },
            },
            below == crate::pass_model::below(self@, handle),
    {
        proof {
            assert(target_live(self@, self.edges@[handle.child as int].index));
            assert(target_after(self.edges@[handle.child as int].index, handle.parent as int));
        }
        match self.edges[handle.child].index {
            Target::LeafRef(_) => None,
            Target::NodeRef(x) => {
                let first = self.nodes[x].first_child;
                let last = self.nodes[x].last_child;
                if last - first != 1 {
                    None
                } else {
                    proof {
                        assert(compact_at(self@, x as int));
                    }
                    Some(NodeHandle { parent: x, child: first })
                }
            },
        }
    }

    /// A chain of contractions has gone down from `start`: the arena is
    /// steady, follows `before`, no leaf was deleted on the way, and no
    /// node up to the parent of `start`; a node that was deleted had
    /// exactly one slot.
    pub open spec fn chained(
        &self,
        tables: &Tables,
        before: &Arena,
        tables_before: &Tables,
        start: NodeHandle,
    ) -> bool {
        &&& self.steady(tables)
        &&& self.follows(tables, before, tables_before)
        &&& self.same_shape(before)
        &&& self.leafs_kept(before)
        &&& forall|n: int|
            0 <= n <= start.parent && n < before.nodes@.len() ==> (#[trigger] self.nodes@[n]).deleted
                == before.nodes@[n].deleted
    }

    /// Contracts the node behind `upper` into its only child, the record
    /// behind `lower`, unless the throttle puts the merge off.
    fn contract(
        &mut self,
        tables: &mut Tables,
        round: &Round,
        upper: NodeHandle,
        lower: NodeHandle,
        Ghost(start): Ghost<NodeHandle>,
    )
        requires
            old(self).steady(old(tables)),
            live_slot(old(self)@, upper.parent as int, upper.child as int),
            old(self).steps_down(upper, lower),
            start.parent <= upper.parent,
        ensures
            final(self).chained(final(tables), old(self), old(tables), start),
            live_slot(final(self)@, upper.parent as int, upper.child as int),
            round.ceiling is None ==> final(self).live < old(self).live,
            final(self).state(final(tables)) == merge_model(
                old(self).state(old(tables)),
                *round,
                upper.child as int,
                lower.child as int,
                MergeType::AB,
            ),
    {
        self.merge(tables, round, upper, lower, MergeType::AB);
    }

    /// A chain after a chain is a chain.
    proof fn lemma_chained_on(
        &self,
        tables: &Tables,
        middle: &Arena,
        tables_middle: &Tables,
        first: &Arena,
        tables_first: &Tables,
        start: NodeHandle,
    )
        requires
            self.chained(tables, middle, tables_middle, start),
            middle.chained(tables_middle, first, tables_first, start),
        ensures
            self.chained(tables, first, tables_first, start),
    {
        self.lemma_follows_on(tables, middle, tables_middle, first, tables_first);
        assert forall|n: int| 0 <= n < self.nodes@.len() implies (#[trigger] self.nodes@[n]).first_child
            == first.nodes@[n].first_child && self.nodes@[n].last_child
            == first.nodes@[n].last_child && (first.nodes@[n].deleted
            ==> self.nodes@[n].deleted) by {
            assert(middle.nodes@[n].first_child == first.nodes@[n].first_child);
        }
        assert forall|n: int|
            0 <= n <= start.parent && n < first.nodes@.len() implies (#[trigger] self.nodes@[n]).deleted
            == first.nodes@[n].deleted by {
            assert(middle.nodes@[n].deleted == first.nodes@[n].deleted);
        }
    }

    /// The vertical pass down from one child slot by the simplified
    /// standard rules: as long as the edge leads to a node with exactly one
    /// child, that node is contracted into its child, and the pass goes on
    /// below the record that stayed.
    fn ssr_vertical_merge(&mut self, tables: &mut Tables, round: &Round, first_cluster: NodeHandle)
        requires
            old(self).steady(old(tables)),
            live_slot(old(self)@, first_cluster.parent as int, first_cluster.child as int),
        ensures
            final(self).chained(final(tables), old(self), old(tables), first_cluster),
            round.ceiling is None ==> final(self).live < old(self).live || (final(self)@ == old(self)@
                && slot_settled(final(self)@, first_cluster.child as int)),
            final(self).state(final(tables)) == simple_chain(
                old(self).state(old(tables)),
                *round,
                first_cluster,
                old(self).nodes@.len() as int,
            ),
    {
        let ghost count = self.nodes@.len() as int;
        let mut current = first_cluster;
        loop
            invariant
                self.chained(tables, old(self), old(tables), first_cluster),
                live_slot(self@, current.parent as int, current.child as int),
                first_cluster.parent <= current.parent,
                round.ceiling is None ==> self.live < old(self).live || (self@ == old(self)@ && current
                    == first_cluster),
                count == old(self).nodes@.len(),
                simple_chain(self.state(tables), *round, current, count) == simple_chain(
                    old(self).state(old(tables)),
                    *round,
                    first_cluster,
                    count,
                ),
            decreases self.nodes@.len() - current.parent,
        {
            let ghost mid = *self;
            let ghost mid_tables = *tables;
            let ghost want = simple_chain(mid.state(&mid_tables), *round, current, count);
            let second_cluster = match self.descend(tables, current) {
                Some(below) => below,
                None => {
                    proof {
                        assert(want == self.state(tables));
                    }
                    return ;
                },
            };
            self.contract(tables, round, current, second_cluster, Ghost(first_cluster));
            proof {
                self.lemma_chained_on(tables, &mid, &mid_tables, old(self), old(tables), first_cluster);
            }
            match self.descend(tables, current) {
                Some(below) => {
                    proof {
                        assert(below.parent < count);
                        assert(want == simple_chain(self.state(tables), *round, below, count));
                    }
                    current = below;
                },
                None => {
                    proof {
                        assert(want == self.state(tables));
                    }
                    return ;
                },
            }
        }
    }

    /// The vertical pass down from one child slot by the advanced rules.
    ///
    /// A node with exactly one child is contracted at once if the cluster
    /// exists already. Else the contraction one step further down goes
    /// first if its cluster exists. Else, with `fallback`, the node at hand
    /// is contracted though its cluster is new; without, the pass goes on
    /// two steps further down.
    fn advanced_vertical_merge(
        &mut self,
        tables: &mut Tables,
        round: &Round,
        first_cluster: NodeHandle,
        fallback: bool,
    )
        requires
            old(self).steady(old(tables)),
            live_slot(old(self)@, first_cluster.parent as int, first_cluster.child as int),
        ensures
            !fallback ==> final(tables)@ == old(tables)@,
            final(self).chained(final(tables), old(self), old(tables), first_cluster),
            round.ceiling is None && fallback ==> final(self).live < old(self).live || (final(self)@
                == old(self)@ && slot_settled(final(self)@, first_cluster.child as int)),
            final(self).state(final(tables)) == advanced_chain(
                old(self).state(old(tables)),
                *round,
                first_cluster,
                old(self).nodes@.len() as int,
                fallback,
            ),
    {
        let ghost count = self.nodes@.len() as int;
        let mut current = first_cluster;
        loop
            invariant
                !fallback ==> tables@ == old(tables)@,
                self.chained(tables, old(self), old(tables), first_cluster),
                live_slot(self@, current.parent as int, current.child as int),
                first_cluster.parent <= current.parent,
                round.ceiling is None && fallback ==> self.live < old(self).live || (self@ == old(
                    self,
                )@ && current == first_cluster),
                count == old(self).nodes@.len(),
                advanced_chain(self.state(tables), *round, current, count, fallback)
                    == advanced_chain(
                    old(self).state(old(tables)),
                    *round,
                    first_cluster,
                    count,
                    fallback,
                ),
            decreases self.nodes@.len() - current.parent,
        {
            let ghost mid = *self;
            let ghost mid_tables = *tables;
            let ghost start = mid.state(&mid_tables);
            let ghost want = advanced_chain(start, *round, current, count, fallback);
            let second_cluster = match self.descend(tables, current) {
                Some(below) => below,
                None => {
                    proof {
                        assert(want == start);
                    }
                    return ;
                },
            };
            let ghost here = merge_model(
                start,
                *round,
                current.child as int,
                second_cluster.child as int,
                MergeType::AB,
            );
            if self.try_merge(tables, current, second_cluster, MergeType::AB) {
                self.contract(tables, round, current, second_cluster, Ghost(first_cluster));
                proof {
                    self.lemma_chained_on(tables, &mid, &mid_tables, old(self), old(tables), first_cluster);
                    assert(self.state(tables) == here);
                }
                match self.descend(tables, current) {
                    Some(below) => {
                        proof {
                            assert(chain_on(here, current, current, count) == Some(below));
                            assert(want == advanced_chain(here, *round, below, count, fallback));
                        }
                        current = below;
                    },
                    None => {
                        proof {
                            assert(chain_on(here, current, current, count) is None);
                            assert(want == here);
                        }
                        return ;
                    },
                }
            } else {
                match self.descend(tables, second_cluster) {
                    None => {
                        if fallback {
                            self.contract(tables, round, current, second_cluster, Ghost(first_cluster));
                            proof {
                                self.lemma_chained_on(
                                    tables,
                                    &mid,
                                    &mid_tables,
                                    old(self),
                                    old(tables),
                                    first_cluster,
                                );
                            }
                        }
                        proof {
                            assert(want == self.state(tables));
                        }
                        return ;
                    },
                    Some(third_cluster) => {
                        if self.try_merge(tables, second_cluster, third_cluster, MergeType::AB) {
                            let ghost there = merge_model(
                                start,
                                *round,
                                second_cluster.child as int,
                                third_cluster.child as int,
                                MergeType::AB,
                            );
                            self.contract(
                                tables,
                                round,
                                second_cluster,
                                third_cluster,
                                Ghost(first_cluster),
                            );
                            proof {
                                self.lemma_chained_on(
                                    tables,
                                    &mid,
                                    &mid_tables,
                                    old(self),
                                    old(tables),
                                    first_cluster,
                                );
                                assert(self.state(tables) == there);
                            }
                            match self.descend(tables, second_cluster) {
                                Some(below) => {
                                    proof {
                                        assert(chain_on(there, second_cluster, current, count) == Some(
                                            below,
                                        ));
                                        assert(want == advanced_chain(
                                            there,
                                            *round,
                                            below,
                                            count,
                                            fallback,
                                        ));
                                    }
                                    current = below;
                                },
                                None => {
                                    proof {
                                        assert(chain_on(there, second_cluster, current, count) is None);
                                        assert(want == there);
                                    }
                                    return ;
                                },
                            }
                        } else if fallback {
                            self.contract(tables, round, current, second_cluster, Ghost(first_cluster));
                            proof {
                                self.lemma_chained_on(
                                    tables,
                                    &mid,
                                    &mid_tables,
                                    old(self),
                                    old(tables),
                                    first_cluster,
                                );
                                assert(self.state(tables) == here);
                            }
                            match self.descend(tables, current) {
                                Some(below) => {
                                    proof {
                                        assert(chain_on(here, current, current, count) == Some(below));
                                        assert(want == advanced_chain(
                                            here,
                                            *round,
                                            below,
                                            count,
                                            fallback,
                                        ));
                                    }
                                    current = below;
                                },
                                None => {
                                    proof {
                                        assert(chain_on(here, current, current, count) is None);
                                        assert(want == here);
                                    }
                                    return ;
                                },
                            }
                        } else {
                            proof {
                                assert(third_cluster.parent < count);
                                assert(want == advanced_chain(
                                    start,
                                    *round,
                                    third_cluster,
                                    count,
                                    fallback,
                                ));
                            }
                            current = third_cluster;
                        }
                    },
                }
            }
        }
    }

    /// The vertical pass down from one child slot by the fast advanced
    /// rules: a contraction whose cluster exists already goes first, be it
    /// the one at hand or the one a step further down; else the node at
    /// hand is contracted.
    fn far_vertical_merge(&mut self, tables: &mut Tables, round: &Round, first_cluster: NodeHandle)
        requires
            old(self).steady(old(tables)),
            live_slot(old(self)@, first_cluster.parent as int, first_cluster.child as int),
        ensures
            final(self).chained(final(tables), old(self), old(tables), first_cluster),
            round.ceiling is None ==> final(self).live < old(self).live || (final(self)@ == old(self)@
                && slot_settled(final(self)@, first_cluster.child as int)),
            final(self).state(final(tables)) == advanced_chain(
                old(self).state(old(tables)),
                *round,
                first_cluster,
                old(self).nodes@.len() as int,
                true,
            ),
    {
        self.advanced_vertical_merge(tables, round, first_cluster, true);
    }

    /// The vertical pass down from one child slot by the slow advanced
    /// rules: every fifth round as the fast advanced rules, in the other
    /// rounds only contractions whose cluster exists already are made.
    fn sar_vertical_merge(&mut self, tables: &mut Tables, round: &Round, first_cluster: NodeHandle)
        requires
            old(self).steady(old(tables)),
            live_slot(old(self)@, first_cluster.parent as int, first_cluster.child as int),
        ensures
            reuse_only(*round) ==> final(tables)@ == old(tables)@,
            final(self).chained(final(tables), old(self), old(tables), first_cluster),
            round.ceiling is None && round.step % 5 == 0 ==> final(self).live < old(self).live || (
            final(self)@ == old(self)@ && slot_settled(final(self)@, first_cluster.child as int)),
            final(self).state(final(tables)) == advanced_chain(
                old(self).state(old(tables)),
                *round,
                first_cluster,
                old(self).nodes@.len() as int,
                round.step % 5 == 0,
            ),
    {
        if round.step % 5 == 0 {
            self.far_vertical_merge(tables, round, first_cluster);
        } else {
            self.advanced_vertical_merge(tables, round, first_cluster, false);
        }
    }

    /// The vertical pass: below every live node that has more than one
    /// child, and below the synthetic root, a chain of contractions starts
    /// at each child slot, by the policy of the round.
    fn vertical_merge(&mut self, tables: &mut Tables, round: &Round)
        requires
            old(self).steady(old(tables)),
        ensures
            reuse_only(*round) ==> final(tables)@ == old(tables)@,
            final(self).steady(final(tables)),
            final(self).follows(final(tables), old(self), old(tables)),
            final(self).same_shape(old(self)),
            final(self).leafs_kept(old(self)),
            full(*round) ==> final(self).live < old(self).live || (final(self)@ == old(self)@
                && slots_settled(final(self)@, final(self).nodes@.len() as int)),
            final(self).state(final(tables)) == vertical_from(
                old(self).state(old(tables)),
                *round,
                0,
                old(self).nodes@.len() as int,
            ),
    {
        let ghost count = self.nodes@.len() as int;
        let ghost goal = vertical_from(self.state(tables), *round, 0, count);
        let mut index: usize = 0;
        while index < self.nodes.len()
            invariant
                reuse_only(*round) ==> tables@ == old(tables)@,
                self.steady(tables),
                self.follows(tables, old(self), old(tables)),
                self.same_shape(old(self)),
                self.leafs_kept(old(self)),
                index <= self.nodes@.len(),
                self.nodes@.len() == count,
                full(*round) ==> self.live < old(self).live || (self@ == old(self)@ && slots_settled(
                    self@,
                    index as int,
                )),
                vertical_from(self.state(tables), *round, index as int, count) == goal,
            decreases self.nodes@.len() - index,
        {
            let ghost start = self.state(tables);
            let ghost node = start.arena.nodes[index as int];
            let ghost next = if !node.deleted && (node.last_child - node.first_child > 1 || index == 0) {
                vertical_slots(
                    start,
                    *round,
                    index,
                    node.first_child as int,
                    node.last_child as int,
                    count,
                )
            } else {
                start
            };
            proof {
                assert(vertical_from(start, *round, index as int, count) == vertical_from(
                    next,
                    *round,
                    index + 1,
                    count,
                ));
            }
            if !self.nodes[index].deleted {
                let first = self.nodes[index].first_child;
                let last = self.nodes[index].last_child;
                if last - first > 1 || index == 0 {
                    let mut child_index = first;
                    while child_index < last
                        invariant
                            reuse_only(*round) ==> tables@ == old(tables)@,
                            self.steady(tables),
                            self.follows(tables, old(self), old(tables)),
                            self.same_shape(old(self)),
                            self.leafs_kept(old(self)),
                            index < self.nodes@.len(),
                            self.nodes@.len() == count,
                            !self.nodes@[index as int].deleted,
                            first == self.nodes@[index as int].first_child,
                            last == self.nodes@[index as int].last_child,
                            first <= child_index,
                            full(*round) ==> self.live < old(self).live || (self@ == old(self)@
                                && slots_settled(self@, index as int) && below_settled(
                                self@,
                                index as int,
                                child_index as int,
                            )),
                            vertical_slots(
                                self.state(tables),
                                *round,
                                index,
                                child_index as int,
                                last as int,
                                count,
                            ) == next,
                        decreases last - child_index,
                    {
                        let ghost mid = *self;
                        let ghost mid_tables = *tables;
                        let handle = NodeHandle { parent: index, child: child_index };
                        proof {
                            assert(compact_at(self@, index as int));
                            assert(vertical_slots(
                                mid.state(&mid_tables),
                                *round,
                                index,
                                child_index as int,
                                last as int,
                                count,
                            ) == vertical_slots(
                                vertical_at(mid.state(&mid_tables), *round, handle, count),
                                *round,
                                index,
                                child_index + 1,
                                last as int,
                                count,
                            ));
                        }
                        match round.rule {
                            MergeRule::SimplifiedStandardRules => {
                                self.ssr_vertical_merge(tables, round, handle);
                            },
                            MergeRule::FastAdvancedRules => {
                                self.far_vertical_merge(tables, round, handle);
                            },
                            MergeRule::SlowAdvancedRules => {
                                self.sar_vertical_merge(tables, round, handle);
                            },
                        }
                        proof {
                            self.lemma_follows_on(tables, &mid, &mid_tables, old(self), old(tables));
                            assert(self.state(tables) == vertical_at(
                                mid.state(&mid_tables),
                                *round,
                                handle,
                                count,
                            ));
                        }
                        child_index += 1;
                    }
                }
            }
            proof {
                assert(self.state(tables) == next);
            }
            index += 1;
        }
    }

    /// The id that the whole tree has come down to, once the one child of
    /// the synthetic root is a leaf; `None` as long as it is a node.
    pub fn root_cluster(&self, tables: &Tables) -> (root: Option<usize>)
        requires
            self.fits(tables),
        ensures
            match root {
                Some(id) => {
                    &&& self.edges@[self.nodes@[0].first_child as int].index matches Target::LeafRef(leaf)
                    &&& id == self.leafs@[leaf as int].data.id()
                    &&& id < tables@.ids()
                    &&& self.pending(tables@) == tables@.expand(id as int, Seq::empty())
                },
                None => self.edges@[self.nodes@[0].first_child as int].index is NodeRef,
            },
    {
        let slot = self.nodes[0].first_child;
        proof {
            assert(target_live(self@, self.edges@[slot as int].index));
            crate::forest::lemma_range_one(self@, tables@, 0, slot as int);
        }
        match self.edges[slot].index {
            Target::LeafRef(leaf) => Some(self.leafs[leaf].data.get_id()),
            Target::NodeRef(_) => None,
        }
    }

    /// One round: the horizontal pass, then the vertical pass. It fails
    /// with `NoProgress` if the round owed a merge and made none.
    pub fn merge_round(&mut self, tables: &mut Tables, flags: &Flags, step: usize) -> (result: Result<
        (),
        TopDagError,
    >)
        requires
            old(self).steady(old(tables)),
        ensures
            reuse_only(round_of(*flags, step)) ==> final(tables)@ == old(tables)@,
            final(self).steady(final(tables)),
            final(self).follows(final(tables), old(self), old(tables)),
            final(self).live <= old(self).live,
            result is Ok <==> final(self).live < old(self).live || !owes_merge(*flags, step),
            result is Err ==> result == Err::<(), TopDagError>(TopDagError::NoProgress),
            owes_merge(*flags, step) && !converged(old(self)@) ==> final(self).live < old(self).live,
            final(self).state(final(tables)) == round_model(old(self).state(old(tables)), *flags, step),
    {
        let round = flags.round(step);
        let before = self.live;
        let ghost mid = *self;
        let ghost mid_tables = *tables;
        self.horizontal_merge(tables, &round);
        let ghost half = *self;
        let ghost half_tables = *tables;
        self.vertical_merge(tables, &round);
        proof {
            self.lemma_follows_on(tables, &half, &half_tables, &mid, &mid_tables);
            if owes_merge(*flags, step) && self.live >= mid.live {
                assert(full(round));
                assert(self@ == mid@);
                lemma_settled_converged(self@, tables@.ids());
            }
        }
        if self.live < before {
            Ok(())
        } else {
            let full = match round.rule {
                MergeRule::SlowAdvancedRules => step % 5 == 0,
                _ => true,
            };
            if round.ceiling.is_none() && full {
                Err(TopDagError::NoProgress)
            } else {
                Ok(())
            }
        }
    }
}

/// Round `step` owes a merge: the throttle is off in it, and it is not one
/// of the rounds in which the slow advanced rules only reuse clusters.
pub open spec fn owes_merge(flags: Flags, step: usize) -> bool {
    &&& flags.ceiling_at(step) is None
    &&& (flags.merge_rule == MergeRule::SlowAdvancedRules ==> step % 5 == 0)
}

/// How many rounds after round `step` may still pass without a merge
/// before one is owed, at most.
pub open spec fn idle_rounds(flags: Flags, step: usize) -> nat {
    let throttled = if step < flags.slowing_down@.len() {
        (flags.slowing_down@.len() - step) as nat
    } else {
        0nat
    };
    (5 * throttled + 4 - step % 5) as nat
}

/// A round that owes no merge brings the next owed merge closer.
pub(crate) proof fn lemma_idle_rounds(flags: Flags, step: usize)
    requires
        step < usize::MAX,
        !owes_merge(flags, (step + 1) as usize),
    ensures
        idle_rounds(flags, (step + 1) as usize) < idle_rounds(flags, step),
{
}

} // verus!
