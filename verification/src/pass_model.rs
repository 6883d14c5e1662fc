//! What each merge pass makes of an arena and its tables, step by step.

use vstd::prelude::*;
use crate::arena::{cluster_of, merged};
use crate::dag::Dag;
use crate::flags_and_statistic::{Flags, MergeRule, Round};
use crate::forest::ArenaView;
use crate::structs::{Edge, MergeType, Node, NodeHandle, Target};

verus! {

/// An arena and the tables that go with it.
pub struct State {
    pub arena: ArenaView,
    pub dag: Dag,
}

/// The state after a merge of shape `shape` on the edges `first` and
/// `second`: unchanged if the throttle of the round puts the merge off;
/// else the cluster of the two ids is looked up or added, and the arena
/// is merged under its id.
pub open spec fn merge_model(s: State, round: Round, first: int, second: int, shape: MergeType) -> State {
    let cluster = cluster_of(s.arena, shape, first, second);
    if round.throttles(cluster.first_child, cluster.second_child) {
        s
    } else {
        let dag = s.dag.with(cluster);
        State { arena: merged(s.arena, first, second, shape, dag.id_of(cluster)->0 as usize), dag }
    }
}

/// The cluster that a merge of the two edges would make is in the tables.
pub open spec fn known(s: State, first: int, second: int, shape: MergeType) -> bool {
    s.dag.clusters.contains(cluster_of(s.arena, shape, first, second))
}

/// The edge in slot `j` leads to a leaf.
pub open spec fn leaf_slot(a: ArenaView, j: int) -> bool {
    a.edges[j].index is LeafRef
}

/// The first slot from `from` on that holds a deleted edge, or `last`.
pub open spec fn first_dead(edges: Seq<Edge>, from: int, last: int) -> int
    decreases last - from,
{
    if from >= last || edges[from].deleted {
        from
    } else {
        first_dead(edges, from + 1, last)
    }
}

/// Edges, and the slot up to which they are live.
pub struct Swept {
    pub edges: Seq<Edge>,
    pub back: int,
}

/// The edges after every live edge from `fore` up to `last` has changed
/// places with the first deleted one before it, which stands at `back`.
pub open spec fn swept(edges: Seq<Edge>, back: int, fore: int, last: int) -> Swept
    decreases last - fore,
{
    if fore >= last {
        Swept { edges, back }
    } else if !edges[fore].deleted {
        swept(edges.update(back, edges[fore]).update(fore, edges[back]), back + 1, fore + 1, last)
    } else {
        swept(edges, back, fore + 1, last)
    }
}

/// The arena after the live edges of `parent` were moved to the front of
/// its slots, in their order, and the slots were ended behind them.
pub open spec fn compacted(a: ArenaView, parent: int) -> ArenaView {
    let first = a.nodes[parent].first_child as int;
    let last = a.nodes[parent].last_child as int;
    let dead = first_dead(a.edges, first, last);
    let done = if dead < last {
        swept(a.edges, dead, dead + 1, last)
    } else {
        Swept { edges: a.edges, back: dead }
    };
    ArenaView {
        nodes: a.nodes.update(
            parent,
            Node {
                deleted: a.nodes[parent].deleted,
                data: a.nodes[parent].data,
                first_child: a.nodes[parent].first_child,
                last_child: done.back as usize,
            },
        ),
        leafs: a.leafs,
        edges: done.edges,
    }
}

/// The simplified rules among the slots of `parent` from `index` up to
/// `last`, two by two: a pair is merged if one of the two is a leaf.
pub open spec fn simple_pairs(s: State, round: Round, index: int, last: int) -> State
    decreases last - index,
{
    if last - index < 2 {
        s
    } else {
        let next = if leaf_slot(s.arena, index) {
            merge_model(s, round, index, index + 1, MergeType::DE)
        } else if leaf_slot(s.arena, index + 1) {
            merge_model(s, round, index, index + 1, MergeType::CE)
        } else {
            s
        };
        simple_pairs(next, round, index + 2, last)
    }
}

/// A state after one step of the advanced rules, and the number of slots
/// that the step has dealt with.
pub struct Stepped {
    pub state: State,
    pub advance: int,
}

/// One step of the advanced rules at the slots from `index` on. The pair
/// at `index` is merged if its cluster is known. Else the pair at
/// `index + 1` is merged if its cluster is known, and three slots are
/// dealt with. Else, with `fallback`, the pair at `index` is merged.
pub open spec fn advanced_step(s: State, round: Round, index: int, last: int, fallback: bool) -> Stepped {
    let first_leaf = leaf_slot(s.arena, index);
    let second_leaf = leaf_slot(s.arena, index + 1);
    let shape = if first_leaf {
        Some(MergeType::DE)
    } else if second_leaf {
        Some(MergeType::CE)
    } else {
        None
    };
    if shape is Some && known(s, index, index + 1, shape->0) {
        Stepped { state: merge_model(s, round, index, index + 1, shape->0), advance: 2 }
    } else if last - index >= 3 && second_leaf && known(s, index + 1, index + 2, MergeType::DE) {
        Stepped { state: merge_model(s, round, index + 1, index + 2, MergeType::DE), advance: 3 }
    } else if last - index >= 3 && !second_leaf && leaf_slot(s.arena, index + 2) && known(
        s,
        index + 1,
        index + 2,
        MergeType::CE,
    ) {
        Stepped { state: merge_model(s, round, index + 1, index + 2, MergeType::CE), advance: 3 }
    } else if fallback && shape is Some {
        Stepped { state: merge_model(s, round, index, index + 1, shape->0), advance: 2 }
    } else {
        Stepped { state: s, advance: 2 }
    }
}

/// The advanced rules among the slots from `index` up to `last`, step by
/// step.
pub open spec fn advanced_pairs(s: State, round: Round, index: int, last: int, fallback: bool) -> State
    decreases last - index,
{
    if last - index < 2 {
        s
    } else {
        let step = advanced_step(s, round, index, last, fallback);
        advanced_pairs(step.state, round, index + step.advance, last, fallback)
    }
}

/// The state with the slots of `parent` compacted.
pub open spec fn tidied(s: State, parent: int) -> State {
    State { arena: compacted(s.arena, parent), dag: s.dag }
}

/// The horizontal pass over the children of `parent` by the simplified
/// standard rules.
pub open spec fn ssr_horizontal(s: State, round: Round, parent: int) -> State {
    tidied(
        simple_pairs(
            s,
            round,
            s.arena.nodes[parent].first_child as int,
            s.arena.nodes[parent].last_child as int,
        ),
        parent,
    )
}

/// The horizontal pass over the children of `parent` by the advanced
/// rules.
pub open spec fn advanced_horizontal(s: State, round: Round, parent: int, fallback: bool) -> State {
    tidied(
        advanced_pairs(
            s,
            round,
            s.arena.nodes[parent].first_child as int,
            s.arena.nodes[parent].last_child as int,
            fallback,
        ),
        parent,
    )
}

/// The horizontal pass over the children of `parent` by the slow advanced
/// rules: every fifth round with the merge of a new pair to fall back on,
/// in the other rounds without.
pub open spec fn sar_horizontal(s: State, round: Round, parent: int) -> State {
    advanced_horizontal(s, round, parent, round.step % 5 == 0)
}

/// The horizontal pass over the children of `parent` by the policy of the
/// round.
pub open spec fn horizontal_at(s: State, round: Round, parent: int) -> State {
    match round.rule {
        MergeRule::SimplifiedStandardRules => ssr_horizontal(s, round, parent),
        MergeRule::FastAdvancedRules => advanced_horizontal(s, round, parent, true),
        MergeRule::SlowAdvancedRules => sar_horizontal(s, round, parent),
    }
}

/// The horizontal pass over the nodes from `index` up to `count`: every
/// live node in the order of the records.
pub open spec fn horizontal_from(s: State, round: Round, index: int, count: int) -> State
    decreases count - index,
{
    if index >= count {
        s
    } else {
        let next = if !s.arena.nodes[index].deleted {
            horizontal_at(s, round, index)
        } else {
            s
        };
        horizontal_from(next, round, index + 1, count)
    }
}

/// The handle one step down from `handle`, if its edge leads to a node
/// with exactly one child.
pub open spec fn below(a: ArenaView, handle: NodeHandle) -> Option<NodeHandle> {
    match a.edges[handle.child as int].index {
        Target::LeafRef(_) => None,
        Target::NodeRef(x) => if a.nodes[x as int].last_child - a.nodes[x as int].first_child != 1 {
            None
        } else {
            Some(NodeHandle { parent: x, child: a.nodes[x as int].first_child })
        },
    }
}

/// The vertical pass down from `current` by the simplified standard
/// rules: as long as the edge leads to a node with exactly one child,
/// that node is contracted into its child, and the pass goes on below the
/// record that stayed. It stops at a leaf and at a node with other than
/// one child.
pub open spec fn simple_chain(s: State, round: Round, current: NodeHandle, count: int) -> State
    decreases count - current.parent,
{
    match below(s.arena, current) {
        None => s,
        Some(second) => {
            let next = merge_model(s, round, current.child as int, second.child as int, MergeType::AB);
            match below(next.arena, current) {
                None => next,
                Some(on) => if current.parent < on.parent < count {
                    simple_chain(next, round, on, count)
                } else {
                    next
                },
            }
        },
    }
}

/// Where a chain goes on after a contraction at `at`, if it does.
pub open spec fn chain_on(s: State, at: NodeHandle, current: NodeHandle, count: int) -> Option<NodeHandle> {
    match below(s.arena, at) {
        None => None,
        Some(on) => if current.parent < on.parent < count {
            Some(on)
        } else {
            None
        },
    }
}

/// The vertical pass down from `current` by the advanced rules. A node
/// with exactly one child is contracted at once if the cluster is known.
/// Else the contraction one step further down goes first if its cluster
/// is known. Else, with `fallback`, the node at hand is contracted;
/// without, the pass goes on two steps further down.
pub open spec fn advanced_chain(s: State, round: Round, current: NodeHandle, count: int, fallback: bool) -> State
    decreases count - current.parent,
{
    match below(s.arena, current) {
        None => s,
        Some(second) => {
            let here = merge_model(s, round, current.child as int, second.child as int, MergeType::AB);
            if known(s, current.child as int, second.child as int, MergeType::AB) {
                match chain_on(here, current, current, count) {
                    None => here,
                    Some(on) => advanced_chain(here, round, on, count, fallback),
                }
            } else {
                match below(s.arena, second) {
                    None => if fallback {
                        here
                    } else {
                        s
                    },
                    Some(third) => if known(s, second.child as int, third.child as int, MergeType::AB) {
                        let there = merge_model(
                            s,
                            round,
                            second.child as int,
                            third.child as int,
                            MergeType::AB,
                        );
                        match chain_on(there, second, current, count) {
                            None => there,
                            Some(on) => advanced_chain(there, round, on, count, fallback),
                        }
                    } else if fallback {
                        match chain_on(here, current, current, count) {
                            None => here,
                            Some(on) => advanced_chain(here, round, on, count, fallback),
                        }
                    } else if current.parent < third.parent < count {
                        advanced_chain(s, round, third, count, fallback)
                    } else {
                        s
                    },
                }
            }
        },
    }
}

/// The vertical pass down from one child slot by the policy of the round.
pub open spec fn vertical_at(s: State, round: Round, handle: NodeHandle, count: int) -> State {
    match round.rule {
        MergeRule::SimplifiedStandardRules => simple_chain(s, round, handle, count),
        MergeRule::FastAdvancedRules => advanced_chain(s, round, handle, count, true),
        MergeRule::SlowAdvancedRules => advanced_chain(s, round, handle, count, round.step % 5 == 0),
    }
}

/// The vertical pass below node `parent`, at its slots from `slot` up to
/// `last`.
pub open spec fn vertical_slots(s: State, round: Round, parent: usize, slot: int, last: int, count: int) -> State
    decreases last - slot,
{
    if slot >= last {
        s
    } else {
        vertical_slots(
            vertical_at(s, round, NodeHandle { parent, child: slot as usize }, count),
            round,
            parent,
            slot + 1,
            last,
            count,
        )
    }
}

/// The vertical pass over the nodes from `index` up to `count`: below
/// every live node that has more than one child, and below the synthetic
/// root, a chain starts at each child slot.
pub open spec fn vertical_from(s: State, round: Round, index: int, count: int) -> State
    decreases count - index,
{
    if index >= count {
        s
    } else {
        let node = s.arena.nodes[index];
        let next = if !node.deleted && (node.last_child - node.first_child > 1 || index == 0) {
            vertical_slots(
                s,
                round,
                index as usize,
                node.first_child as int,
                node.last_child as int,
                count,
            )
        } else {
            s
        };
        vertical_from(next, round, index + 1, count)
    }
}

/// What holds for all merges of round `step` under `flags`.
pub open spec fn round_of(flags: Flags, step: usize) -> Round {
    Round { rule: flags.merge_rule, step, ceiling: flags.ceiling_at(step) }
}

/// One round: the horizontal pass, then the vertical pass.
pub open spec fn round_model(s: State, flags: Flags, step: usize) -> State {
    let count = s.arena.nodes.len() as int;
    vertical_from(
        horizontal_from(s, round_of(flags, step), 0, count),
        round_of(flags, step),
        0,
        count,
    )
}

/// The one child of the synthetic root is a leaf: the tree has come down
/// to one id.
pub open spec fn done(a: ArenaView) -> bool {
    a.edges[a.nodes[0].first_child as int].index is LeafRef
}

/// The id that the one child of the synthetic root carries, once it is a
/// leaf.
pub open spec fn root_of(a: ArenaView) -> usize {
    match a.edges[a.nodes[0].first_child as int].index {
        Target::LeafRef(leaf) => a.leafs[leaf as int].data.id(),
        Target::NodeRef(_) => 0,
    }
}

/// What the rounds have come to, and how many they were.
pub struct Built {
    pub state: State,
    pub rounds: usize,
}

/// The rounds after round `step`, at most `fuel` of them: round after
/// round, until the tree has come down to one id.
pub open spec fn rounds_model(s: State, flags: Flags, step: usize, fuel: nat) -> Built
    decreases fuel,
{
    if done(s.arena) || fuel == 0 || step == usize::MAX {
        Built { state: s, rounds: step }
    } else {
        rounds_model(
            round_model(s, flags, (step + 1) as usize),
            flags,
            (step + 1) as usize,
            (fuel - 1) as nat,
        )
    }
}

} // verus!
