//! From the tables to the flat form: a walk from the root that meets
//! every cluster once, from an explicit stack.

use vstd::prelude::*;
use crate::dag::{Dag};
use crate::flat::{decode, too_many, zeros_before, Decoded, Flat};
use crate::io_tree::Tree;
use crate::reach::reaches;
use crate::round_trip::{
    encodes, entries, lemma_codes_small, lemma_walk_decodes, lemma_walk_meets_all, stands_for,
};
use crate::structs::{Cluster};
use crate::tables::Tables;


verus! {

/// How far the walk has come with a cluster on the stack.
#[derive(Clone, Copy, Debug, PartialEq, Eq, Structural)]
pub enum Stage {
    /// The cluster was met and has its place in the flat form, no more.
    First,
    /// Its first child was written; the second is still to come.
    Second,
    /// Both children were written; what is below them is walked through.
    Last,
}

/// A cluster on the work stack: its place in the table, how far the walk
/// has come with it, and its place in the flat form.
#[derive(Clone, Copy, Debug)]
pub struct Step {
    pub cluster: usize,
    pub stage: Stage,
    pub own: usize,
}

/// What the walk has found out about the clusters of the flat form, each
/// at its place: the cluster of the table that stands there, how many
/// clusters were open above it when it was met, how many clusters were
/// finished when it was met, when its second child was due and when it
/// was finished itself, and how far the walk has come with it (3 when it
/// is finished).
pub struct Trace {
    pub place: Seq<usize>,
    pub depth: Seq<nat>,
    pub entered: Seq<nat>,
    pub halfway: Seq<nat>,
    pub finished: Seq<nat>,
    pub stage: Seq<nat>,
    /// The number of clusters that are finished.
    pub done: nat,
}

/// The number that stands for a stage in a trace.
pub open spec fn stage_code(stage: Stage) -> nat {
    match stage {
        Stage::First => 0,
        Stage::Second => 1,
        Stage::Last => 2,
    }
}

/// An upper bound on the visits that the walk below cluster `k` takes.
pub open spec fn weight(k: nat) -> nat
    decreases k,
{
    if k == 0 {
        3
    } else {
        3 + 2 * weight((k - 1) as nat)
    }
}

proof fn lemma_weight_grows(a: nat, b: nat)
    requires
        a <= b,
    ensures
        weight(a) <= weight(b),
    decreases b,
{
    if a < b {
        lemma_weight_grows(a, (b - 1) as nat);
    }
}

/// The visits that a cluster on the stack still has before it, with all
/// that is below it, at most.
pub open spec fn visits_ahead(step: Step) -> nat {
    match step.stage {
        Stage::First => weight(step.cluster as nat),
        Stage::Second => if step.cluster == 0 {
            2
        } else {
            2 + weight((step.cluster - 1) as nat)
        },
        Stage::Last => 1,
    }
}

/// The visits that the clusters on the stack still have before them, at
/// most.
pub open spec fn work_ahead(stack: Seq<Step>) -> nat
    decreases stack.len(),
{
    if stack.len() == 0 {
        0
    } else {
        work_ahead(stack.drop_last()) + visits_ahead(stack.last())
    }
}

proof fn lemma_work_pushed(stack: Seq<Step>, step: Step)
    ensures
        work_ahead(stack.push(step)) == work_ahead(stack) + visits_ahead(step),
{
    assert(stack.push(step).drop_last() =~= stack);
}

/// Distinct numbers below `bound` are `bound` many at most.
pub(crate) proof fn lemma_distinct_below(items: Seq<usize>, bound: nat)
    requires
        forall|i: int| 0 <= i < items.len() ==> #[trigger] items[i] < bound,
        forall|i: int, j: int| 0 <= i < j < items.len() ==> items[i] != items[j],
    ensures
        items.len() <= bound,
    decreases bound,
{
    if items.len() > 0 {
        if bound == 0 {
            assert(items[0] < bound);
        } else {
            // take out the item that equals bound - 1, if there is one
            let top = (bound - 1) as usize;
            if exists|i: int| 0 <= i < items.len() && items[i] == top {
                let at = choose|i: int| 0 <= i < items.len() && items[i] == top;
                let others = items.remove(at);
                assert forall|i: int| 0 <= i < others.len() implies #[trigger] others[i] < bound - 1 by {
                    if i < at {
                        assert(others[i] == items[i]);
                        assert(items[i] != items[at]);
                    } else {
                        assert(others[i] == items[i + 1]);
                        assert(items[at] != items[i + 1]);
                    }
                }
                assert forall|i: int, j: int| 0 <= i < j < others.len() implies others[i] != others[j] by {
                    let oi = if i < at {
                        i
                    } else {
                        i + 1
                    };
                    let oj = if j < at {
                        j
                    } else {
                        j + 1
                    };
                    assert(others[i] == items[oi]);
                    assert(others[j] == items[oj]);
                }
                lemma_distinct_below(others, (bound - 1) as nat);
            } else {
                assert forall|i: int| 0 <= i < items.len() implies #[trigger] items[i] < bound - 1 by {
                    assert(items[i] < bound);
                }
                lemma_distinct_below(items, (bound - 1) as nat);
            }
        }
    }
}

/// The entry `slot` names `child`: the label itself, or a cluster of the
/// flat form that stands for `child` and was finished before `before`
/// clusters were.
pub open spec fn names(dag: Dag, t: Trace, slot: Option<usize>, child: usize, before: nat) -> bool {
    &&& slot is Some
    &&& if child < dag.labels.len() {
        slot->0 == child
    } else {
        let at = slot->0 - dag.labels.len();
        &&& slot->0 >= dag.labels.len()
        &&& at < t.place.len()
        &&& t.place[at] == child - dag.labels.len()
        &&& t.stage[at] == 3
        &&& t.finished[at] < before
    }
}

/// Cluster `below` of the flat form stands for `child`, was met when
/// `entered` clusters were finished, one level below cluster `i`.
pub open spec fn begins(dag: Dag, t: Trace, i: int, below: int, child: usize, entered: nat) -> bool {
    &&& child >= dag.labels.len()
    &&& 0 <= below < t.place.len()
    &&& t.place[below] == child - dag.labels.len()
    &&& t.entered[below] == entered
    &&& t.depth[below] == t.depth[i] + 1
}

/// Where the second child of cluster `i` of the flat form stands, if it
/// is a cluster of its own.
pub open spec fn right_of(t: Trace, i: int) -> int {
    (t.halfway[i] + t.depth[i] + 1) as int
}

/// What is written for cluster `i` of the flat form fits the trace and
/// the table, as far as the walk has come with it.
pub open spec fn recorded(
    dag: Dag,
    t: Trace,
    structure: Seq<bool>,
    slots: Seq<Option<usize>>,
    merge_types: Seq<usize>,
    i: int,
) -> bool {
    let c = dag.clusters[t.place[i] as int];
    &&& t.place[i] < dag.clusters.len()
    &&& t.stage[i] <= 3
    &&& i == t.entered[i] + t.depth[i]
    &&& (t.stage[i] == 0 ==> i >= merge_types.len())
    &&& (t.stage[i] >= 1 ==> {
        &&& i < merge_types.len()
        &&& merge_types[i] == c.merge_type.code()
        &&& 2 * i + 1 < structure.len()
        &&& if structure[2 * i] {
            slots[2 * i] is None && begins(dag, t, i, i + 1, c.first_child, t.entered[i])
        } else {
            names(dag, t, slots[2 * i], c.first_child, t.entered[i])
        }
    })
    &&& (t.stage[i] == 1 ==> !structure[2 * i + 1] && slots[2 * i + 1] is None)
    &&& (t.stage[i] >= 2 ==> {
        &&& if structure[2 * i] {
            t.stage[i + 1] == 3 && t.halfway[i] == t.finished[i + 1] + 1
        } else {
            t.halfway[i] == t.entered[i]
        }
        &&& if structure[2 * i + 1] {
            slots[2 * i + 1] is None && begins(dag, t, i, right_of(t, i), c.second_child, t.halfway[i])
        } else {
            names(dag, t, slots[2 * i + 1], c.second_child, t.halfway[i])
        }
    })
    &&& (t.stage[i] == 3 ==> {
        &&& t.finished[i] < t.done
        &&& if structure[2 * i + 1] {
            t.stage[right_of(t, i)] == 3 && t.finished[i] == t.finished[right_of(t, i)] + 1
        } else {
            t.finished[i] == t.halfway[i]
        }
    })
}

/// All the parts of a trace speak of the same clusters.
pub open spec fn sized(t: Trace) -> bool {
    &&& t.depth.len() == t.place.len()
    &&& t.entered.len() == t.place.len()
    &&& t.halfway.len() == t.place.len()
    &&& t.finished.len() == t.place.len()
    &&& t.stage.len() == t.place.len()
}

/// The trace `after` says of every cluster what `before` said, and maybe
/// more: nothing that was found out has changed.
pub open spec fn continues(before: Trace, after: Trace) -> bool {
    &&& before.place.len() <= after.place.len()
    &&& before.done <= after.done
    &&& forall|i: int| 0 <= i < before.place.len() ==> #[trigger] kept_at(before, after, i)
}

/// The trace `after` says of cluster `i` what `before` said, and maybe
/// more.
pub open spec fn kept_at(before: Trace, after: Trace, i: int) -> bool {
    &&& after.place[i] == before.place[i]
    &&& after.depth[i] == before.depth[i]
    &&& after.entered[i] == before.entered[i]
    &&& after.stage[i] >= before.stage[i]
    &&& (before.stage[i] >= 2 ==> after.halfway[i] == before.halfway[i])
    &&& (before.stage[i] == 3 ==> after.stage[i] == 3 && after.finished[i] == before.finished[i])
}

/// What was written for a cluster stays true while the walk goes on
/// elsewhere.
proof fn lemma_recorded_kept(
    dag: Dag,
    t: Trace,
    structure: Seq<bool>,
    slots: Seq<Option<usize>>,
    merge_types: Seq<usize>,
    later: Trace,
    later_structure: Seq<bool>,
    later_slots: Seq<Option<usize>>,
    later_merge_types: Seq<usize>,
    i: int,
)
    requires
        sized(t),
        sized(later),
        0 <= i < t.place.len(),
        recorded(dag, t, structure, slots, merge_types, i),
        continues(t, later),
        later.stage[i] == t.stage[i],
        structure.len() == slots.len(),
        structure.len() <= later_structure.len(),
        later_structure.len() == later_slots.len(),
        merge_types.is_prefix_of(later_merge_types),
        t.stage[i] == 0 ==> i >= later_merge_types.len(),
        t.stage[i] >= 1 ==> later_structure[2 * i] == structure[2 * i] && later_slots[2 * i]
            == slots[2 * i] && later_structure[2 * i + 1] == structure[2 * i + 1]
            && later_slots[2 * i + 1] == slots[2 * i + 1],
    ensures
        recorded(dag, later, later_structure, later_slots, later_merge_types, i),
{
    let c = dag.clusters[t.place[i] as int];
    let labels = dag.labels.len();
    assert(kept_at(t, later, i));
    if t.stage[i] >= 1 {
        assert(later_merge_types[i] == merge_types[i]);
        if structure[2 * i] {
            assert(kept_at(t, later, i + 1));
            assert(begins(dag, later, i, i + 1, c.first_child, later.entered[i]));
        } else {
            if c.first_child >= labels {
                assert(kept_at(t, later, slots[2 * i]->0 - labels));
            }
            assert(names(dag, later, later_slots[2 * i], c.first_child, later.entered[i]));
        }
    }
    if t.stage[i] >= 2 {
        assert(right_of(later, i) == right_of(t, i));
        if structure[2 * i + 1] {
            assert(kept_at(t, later, right_of(t, i)));
            assert(begins(dag, later, i, right_of(later, i), c.second_child, later.halfway[i]));
        } else {
            if c.second_child >= labels {
                assert(kept_at(t, later, slots[2 * i + 1]->0 - labels));
            }
            assert(names(dag, later, later_slots[2 * i + 1], c.second_child, later.halfway[i]));
        }
    }
}

/// The walk as a mathematical value: what was written of the flat form
/// (the entries still at the places of their bits), the entry under which
/// each finished cluster of the table is known, the stack, and the trace.
pub struct WalkView {
    pub structure: Seq<bool>,
    pub slots: Seq<Option<usize>>,
    pub merge_types: Seq<usize>,
    pub cluster_pointer: Seq<Option<usize>>,
    pub stack: Seq<Step>,
    pub trace: Trace,
}

/// The top of the stack is a cluster that was met and not visited yet.
pub open spec fn top_is_first(stack: Seq<Step>) -> bool {
    stack.len() > 0 && stack.last().stage == Stage::First
}

/// The parts of the walk have the sizes that belong together.
pub open spec fn shaped(dag: Dag, v: WalkView) -> bool {
    &&& sized(v.trace)
    &&& dag.wf()
    &&& dag.labels.len() + dag.clusters.len() <= usize::MAX
    &&& v.cluster_pointer.len() == dag.clusters.len()
    &&& v.structure.len() == 2 * v.merge_types.len()
    &&& v.slots.len() == v.structure.len()
    &&& v.trace.place.len() == v.merge_types.len() + if top_is_first(v.stack) {
        1nat
    } else {
        0nat
    }
    &&& v.trace.done + v.stack.len() == v.trace.place.len()
}

/// Cluster `i` of the flat form is in order: what is written for it fits,
/// it is on the stack at its depth as long as it is not finished, and the
/// table's cluster is known under its entry once it is.
pub open spec fn index_ok(dag: Dag, v: WalkView, i: int) -> bool {
    let t = v.trace;
    &&& recorded(dag, t, v.structure, v.slots, v.merge_types, i)
    &&& (t.stage[i] < 3 ==> t.depth[i] < v.stack.len() && v.stack[t.depth[i] as int].own == i)
    &&& (t.stage[i] == 3 ==> v.cluster_pointer[t.place[i] as int] == Some(
        (i + dag.labels.len()) as usize,
    ))
}

/// The frame at place `f` of the stack is in order: it speaks of a
/// cluster of the flat form at the stage that the trace knows, and the
/// frame above it is the child that it waits for.
pub open spec fn frame_ok(v: WalkView, f: int) -> bool {
    let t = v.trace;
    let s = v.stack[f];
    &&& s.own < t.place.len()
    &&& t.place[s.own as int] == s.cluster
    &&& t.stage[s.own as int] == stage_code(s.stage)
    &&& t.depth[s.own as int] == f
    &&& (s.stage == Stage::First ==> f == v.stack.len() - 1)
    &&& (f + 1 < v.stack.len() ==> match s.stage {
        Stage::First => false,
        Stage::Second => v.structure[2 * s.own] && v.stack[f + 1].own == s.own + 1,
        Stage::Last => v.structure[2 * s.own + 1] && v.stack[f + 1].own == right_of(t, s.own as int),
    })
}

/// What the top of the stack waits for has come: as many clusters are
/// finished as its next visit counts on.
pub open spec fn top_ok(v: WalkView) -> bool {
    let t = v.trace;
    v.stack.len() > 0 ==> {
        let s = v.stack.last();
        match s.stage {
            Stage::First => t.done == t.entered[s.own as int],
            Stage::Second => if v.structure[2 * s.own] {
                t.stage[s.own + 1] == 3 && t.done == t.finished[s.own + 1] + 1
            } else {
                t.done == t.entered[s.own as int]
            },
            Stage::Last => if v.structure[2 * s.own + 1] {
                t.stage[right_of(t, s.own as int)] == 3 && t.done == t.finished[right_of(
                    t,
                    s.own as int,
                )] + 1
            } else {
                t.done == t.halfway[s.own as int]
            },
        }
    }
}

/// The walk is in order.
pub open spec fn walks(dag: Dag, v: WalkView) -> bool {
    let t = v.trace;
    &&& shaped(dag, v)
    &&& forall|i: int| 0 <= i < t.place.len() ==> #[trigger] index_ok(dag, v, i)
    &&& forall|i: int, j: int|
        0 <= i < j < t.place.len() ==> #[trigger] t.place[i] != #[trigger] t.place[j]
    &&& forall|i: int, j: int|
        0 <= i < j < t.place.len() && t.stage[i] == 3 && t.stage[j] == 3 ==> #[trigger] t.finished[i]
            != #[trigger] t.finished[j]
    &&& forall|k: int|
        0 <= k < v.cluster_pointer.len() ==> ((#[trigger] v.cluster_pointer[k]) matches Some(e)
            ==> e >= dag.labels.len() && e - dag.labels.len() < t.place.len() && t.place[e
            - dag.labels.len()] == k && t.stage[e - dag.labels.len()] == 3)
    &&& forall|f: int| 0 <= f < v.stack.len() ==> #[trigger] frame_ok(v, f)
    &&& forall|f: int, g: int|
        0 <= f < g < v.stack.len() ==> (#[trigger] v.stack[f]).cluster > (#[trigger] v.stack[g]).cluster
    &&& top_ok(v)
}

/// The trace in which cluster `i` has come to `stage`.
pub open spec fn staged(t: Trace, i: int, stage: nat) -> Trace {
    Trace {
        place: t.place,
        depth: t.depth,
        entered: t.entered,
        halfway: t.halfway,
        finished: t.finished,
        stage: t.stage.update(i, stage),
        done: t.done,
    }
}

/// The trace in which one more cluster was met, `depth` levels down.
pub open spec fn met(t: Trace, place: usize, depth: nat) -> Trace {
    Trace {
        place: t.place.push(place),
        depth: t.depth.push(depth),
        entered: t.entered.push(t.done),
        halfway: t.halfway.push(0),
        finished: t.finished.push(0),
        stage: t.stage.push(0),
        done: t.done,
    }
}

/// The trace in which the second child of cluster `i` is due now.
pub open spec fn halved(t: Trace, i: int) -> Trace {
    Trace {
        place: t.place,
        depth: t.depth,
        entered: t.entered,
        halfway: t.halfway.update(i, t.done),
        finished: t.finished,
        stage: t.stage,
        done: t.done,
    }
}

/// The trace in which cluster `i` is finished now.
pub open spec fn closed(t: Trace, i: int) -> Trace {
    Trace {
        place: t.place,
        depth: t.depth,
        entered: t.entered,
        halfway: t.halfway,
        finished: t.finished.update(i, t.done),
        stage: t.stage.update(i, 3),
        done: t.done + 1,
    }
}

/// The walk after the first visit of the cluster on top of the stack: its
/// merge type and the bit and entry of its first child are written, the
/// place of its second child is kept free, and if the first child is a
/// cluster that was not met before, it is on top of the stack now.
pub open spec fn first_visited(dag: Dag, v: WalkView, entry: Option<usize>) -> WalkView {
    let s = v.stack.last();
    let rest = v.stack.drop_last();
    let c = dag.clusters[s.cluster as int];
    let waiting = Step { cluster: s.cluster, stage: Stage::Second, own: s.own };
    let visited = staged(v.trace, s.own as int, 1);
    WalkView {
        structure: v.structure.push(entry is None).push(false),
        slots: v.slots.push(entry).push(None),
        merge_types: v.merge_types.push(c.merge_type.code() as usize),
        cluster_pointer: v.cluster_pointer,
        stack: if entry is None {
            rest.push(waiting).push(
                Step {
                    cluster: (c.first_child - dag.labels.len()) as usize,
                    stage: Stage::First,
                    own: (s.own + 1) as usize,
                },
            )
        } else {
            rest.push(waiting)
        },
        trace: if entry is None {
            met(visited, (c.first_child - dag.labels.len()) as usize, rest.len() + 1)
        } else {
            visited
        },
    }
}

/// The entry under which `child` is written without being walked into:
/// the label itself, or the entry of the finished cluster; `None` if it is
/// a cluster that is not finished.
pub open spec fn entry_of(dag: Dag, v: WalkView, child: usize) -> Option<usize> {
    if child < dag.labels.len() {
        Some(child)
    } else {
        v.cluster_pointer[child - dag.labels.len()]
    }
}

/// The walk after the second visit of the cluster on top of the stack.
/// If its second child has an entry, the entry is written and the cluster
/// is finished. Else the bit of the second child is set, the cluster
/// waits for its last visit, and the child is on top of the stack.
pub open spec fn second_visited(dag: Dag, v: WalkView, entry: Option<usize>) -> WalkView {
    let s = v.stack.last();
    let rest = v.stack.drop_last();
    let c = dag.clusters[s.cluster as int];
    let half = halved(v.trace, s.own as int);
    if entry is None {
        WalkView {
            structure: v.structure.update(2 * s.own + 1, true),
            slots: v.slots,
            merge_types: v.merge_types,
            cluster_pointer: v.cluster_pointer,
            stack: rest.push(Step { cluster: s.cluster, stage: Stage::Last, own: s.own }).push(
                Step {
                    cluster: (c.second_child - dag.labels.len()) as usize,
                    stage: Stage::First,
                    own: v.merge_types.len() as usize,
                },
            ),
            trace: met(
                staged(half, s.own as int, 2),
                (c.second_child - dag.labels.len()) as usize,
                rest.len() + 1,
            ),
        }
    } else {
        WalkView {
            structure: v.structure,
            slots: v.slots.update(2 * s.own + 1, entry),
            merge_types: v.merge_types,
            cluster_pointer: v.cluster_pointer.update(
                s.cluster as int,
                Some((s.own + dag.labels.len()) as usize),
            ),
            stack: rest,
            trace: closed(half, s.own as int),
        }
    }
}

/// The walk after the last visit of the cluster on top of the stack: the
/// cluster is finished.
pub open spec fn last_visited(dag: Dag, v: WalkView) -> WalkView {
    let s = v.stack.last();
    WalkView {
        structure: v.structure,
        slots: v.slots,
        merge_types: v.merge_types,
        cluster_pointer: v.cluster_pointer.update(
            s.cluster as int,
            Some((s.own + dag.labels.len()) as usize),
        ),
        stack: v.stack.drop_last(),
        trace: closed(v.trace, s.own as int),
    }
}

/// The walk after the next visit of the cluster on top of the stack.
pub open spec fn visited(dag: Dag, v: WalkView) -> WalkView {
    let s = v.stack.last();
    let c = dag.clusters[s.cluster as int];
    match s.stage {
        Stage::First => first_visited(dag, v, entry_of(dag, v, c.first_child)),
        Stage::Second => second_visited(dag, v, entry_of(dag, v, c.second_child)),
        Stage::Last => last_visited(dag, v),
    }
}

/// The walk after at most `fuel` more visits: visit after visit, until no
/// cluster is on the stack.
pub open spec fn walked(dag: Dag, v: WalkView, fuel: nat) -> WalkView
    decreases fuel,
{
    if v.stack.len() == 0 || fuel == 0 {
        v
    } else {
        walked(dag, visited(dag, v), (fuel - 1) as nat)
    }
}

/// The walk before its first visit: nothing is written, no cluster is
/// finished, and the root is on the stack.
pub open spec fn start_of(dag: Dag, root: int) -> WalkView {
    let first = (root - dag.labels.len()) as usize;
    WalkView {
        structure: Seq::empty(),
        slots: Seq::empty(),
        merge_types: Seq::empty(),
        cluster_pointer: Seq::new(dag.clusters.len(), |k: int| None),
        stack: seq![Step { cluster: first, stage: Stage::First, own: 0 }],
        trace: Trace {
            place: seq![first],
            depth: seq![0nat],
            entered: seq![0nat],
            halfway: seq![0nat],
            finished: seq![0nat],
            stage: seq![0nat],
            done: 0,
        },
    }
}

/// The entries that are there, in their order.
pub open spec fn packed(slots: Seq<Option<usize>>) -> Seq<usize>
    decreases slots.len(),
{
    if slots.len() == 0 {
        Seq::empty()
    } else {
        match slots.last() {
            Some(entry) => packed(slots.drop_last()).push(entry),
            None => packed(slots.drop_last()),
        }
    }
}

/// The flat form of `dag` from `root`. A root that is a label has no
/// cluster to write. Else the walk starts at the root and goes on until
/// every cluster that it met is finished; the bits and the merge types are
/// those that it wrote, and the entries are those of its false bits.
pub open spec fn flat_of(dag: Dag, root: int) -> Flat {
    if root < dag.labels.len() {
        Flat {
            structure: Seq::empty(),
            pointer: Seq::empty(),
            merge_types: Seq::empty(),
            labels: dag.labels.len(),
        }
    } else {
        let begin = start_of(dag, root);
        let end = walked(dag, begin, work_ahead(begin.stack));
        Flat {
            structure: end.structure,
            pointer: packed(end.slots),
            merge_types: end.merge_types,
            labels: dag.labels.len(),
        }
    }
}

/// What the walk knows of the cluster on top of the stack before its
/// first visit.
proof fn lemma_top_first(dag: Dag, v: WalkView)
    requires
        walks(dag, v),
        top_is_first(v.stack),
    ensures
        ({
            let s = v.stack.last();
            let c = dag.clusters[s.cluster as int];
            &&& s.own == v.merge_types.len()
            &&& s.own + 1 == v.trace.place.len()
            &&& s.cluster < dag.clusters.len()
            &&& v.trace.place[s.own as int] == s.cluster
            &&& v.trace.stage[s.own as int] == 0
            &&& v.trace.depth[s.own as int] == v.stack.len() - 1
            &&& v.trace.done == v.trace.entered[s.own as int]
            &&& s.own == v.trace.done + v.stack.len() - 1
            &&& c.first_child < dag.labels.len() + s.cluster
            &&& c.second_child < dag.labels.len() + s.cluster
        }),
{
    let top = v.stack.len() - 1;
    let s = v.stack.last();
    assert(frame_ok(v, top));
    assert(index_ok(dag, v, s.own as int));
}

/// The clusters of the flat form are no more than those of the table.
proof fn lemma_begun_bounded(dag: Dag, v: WalkView)
    requires
        walks(dag, v),
    ensures
        v.trace.place.len() <= dag.clusters.len(),
        v.trace.place.len() + dag.labels.len() <= usize::MAX,
{
    let t = v.trace;
    assert forall|i: int| 0 <= i < t.place.len() implies #[trigger] t.place[i] < dag.clusters.len() by {
        assert(index_ok(dag, v, i));
    }
    lemma_distinct_below(t.place, dag.clusters.len());
}

/// A cluster that is met for the first time is none of those that the
/// trace knows.
proof fn lemma_fresh_cluster(dag: Dag, v: WalkView, child: usize)
    requires
        walks(dag, v),
        v.stack.len() > 0,
        child < v.stack.last().cluster,
        child < v.cluster_pointer.len(),
        v.cluster_pointer[child as int] is None,
    ensures
        forall|i: int| 0 <= i < v.trace.place.len() ==> #[trigger] v.trace.place[i] != child,
{
    let t = v.trace;
    assert forall|i: int| 0 <= i < t.place.len() implies #[trigger] t.place[i] != child by {
        assert(index_ok(dag, v, i));
        if t.stage[i] < 3 {
            let d = t.depth[i] as int;
            assert(frame_ok(v, d));
            if d < v.stack.len() - 1 {
                assert(v.stack[d].cluster > v.stack[v.stack.len() - 1].cluster);
            }
        }
    }
}

/// What the walk knows of the cluster on top of the stack once it was
/// visited.
proof fn lemma_top_visited(dag: Dag, v: WalkView)
    requires
        walks(dag, v),
        v.stack.len() > 0,
        v.stack.last().stage != Stage::First,
    ensures
        ({
            let s = v.stack.last();
            let c = dag.clusters[s.cluster as int];
            &&& v.trace.place.len() == v.merge_types.len()
            &&& s.own < v.merge_types.len()
            &&& 2 * s.own + 1 < v.structure.len()
            &&& s.cluster < dag.clusters.len()
            &&& v.trace.place[s.own as int] == s.cluster
            &&& v.trace.stage[s.own as int] == stage_code(s.stage)
            &&& v.trace.depth[s.own as int] == v.stack.len() - 1
            &&& s.own == v.trace.entered[s.own as int] + v.trace.depth[s.own as int]
            &&& c.first_child < dag.labels.len() + s.cluster
            &&& c.second_child < dag.labels.len() + s.cluster
            &&& forall|i: int| 0 <= i < v.trace.place.len() ==> #[trigger] v.trace.stage[i] >= 1
        }),
{
    let top = v.stack.len() - 1;
    let s = v.stack.last();
    assert(frame_ok(v, top));
    assert(index_ok(dag, v, s.own as int));
    assert forall|i: int| 0 <= i < v.trace.place.len() implies #[trigger] v.trace.stage[i] >= 1 by {
        assert(index_ok(dag, v, i));
    }
}

/// The walk `a` is the walk `v` after a visit of the cluster on top of its
/// stack: the trace goes on, what was written for other clusters is
/// untouched, the stack below the top is the same, and so is every entry
/// but the one of the visited cluster.
pub open spec fn steps_from(v: WalkView, a: WalkView) -> bool {
    let t = v.trace;
    let ta = a.trace;
    let s = v.stack.last();
    let rest = v.stack.drop_last();
    &&& v.stack.len() > 0
    &&& sized(ta)
    &&& continues(t, ta)
    &&& v.structure.len() <= a.structure.len()
    &&& a.structure.len() == a.slots.len()
    &&& v.merge_types.is_prefix_of(a.merge_types)
    &&& forall|pos: int|
        0 <= pos < v.structure.len() && pos != 2 * s.own && pos != 2 * s.own + 1 ==> #[trigger] a.structure[pos]
            == v.structure[pos] && a.slots[pos] == v.slots[pos]
    &&& a.stack.len() >= rest.len()
    &&& forall|d: int| 0 <= d < rest.len() ==> #[trigger] a.stack[d] == v.stack[d]
    &&& (a.stack.len() > rest.len() ==> a.stack[rest.len() as int].own == s.own)
    &&& (a.stack.len() > rest.len() + 1 ==> a.stack[rest.len() as int].stage != Stage::First)
    &&& a.cluster_pointer.len() == v.cluster_pointer.len()
    &&& forall|k: int|
        0 <= k < v.cluster_pointer.len() && k != s.cluster ==> #[trigger] a.cluster_pointer[k]
            == v.cluster_pointer[k]
    &&& forall|i: int| 0 <= i < t.place.len() && i != s.own ==> #[trigger] ta.stage[i] == t.stage[i]
}

/// A cluster other than the visited one is in order after the visit.
#[verifier::rlimit(30)]
proof fn lemma_index_kept(dag: Dag, v: WalkView, a: WalkView, i: int)
    requires
        walks(dag, v),
        steps_from(v, a),
        0 <= i < v.trace.place.len(),
        i != v.stack.last().own,
    ensures
        index_ok(dag, a, i),
{
    let t = v.trace;
    let ta = a.trace;
    let s = v.stack.last();
    let top = v.stack.len() - 1;
    assert(index_ok(dag, v, i));
    assert(frame_ok(v, top));
    assert(kept_at(t, ta, i));
    assert(ta.stage[i] == t.stage[i]);
    if t.stage[i] >= 1 {
        assert(a.structure[2 * i] == v.structure[2 * i]);
        assert(a.structure[2 * i + 1] == v.structure[2 * i + 1]);
    } else {
        // only the top of the stack can be a cluster that was not visited
        assert(frame_ok(v, t.depth[i] as int));
    }
    lemma_recorded_kept(
        dag,
        t,
        v.structure,
        v.slots,
        v.merge_types,
        ta,
        a.structure,
        a.slots,
        a.merge_types,
        i,
    );
    if t.stage[i] < 3 {
        let d = t.depth[i] as int;
        assert(d != top);
        assert(a.stack[d] == v.stack[d]);
    } else {
        if i < s.own {
            assert(t.place[i] != t.place[s.own as int]);
        } else {
            assert(t.place[s.own as int] != t.place[i]);
        }
    }
}

/// A frame below the top of the stack is in order after the visit.
proof fn lemma_frame_kept(dag: Dag, v: WalkView, a: WalkView, f: int)
    requires
        walks(dag, v),
        steps_from(v, a),
        0 <= f < v.stack.len() - 1,
    ensures
        frame_ok(a, f),
{
    let t = v.trace;
    let ta = a.trace;
    let own = v.stack[f].own as int;
    assert(frame_ok(v, f));
    assert(frame_ok(v, v.stack.len() - 1));
    assert(a.stack[f] == v.stack[f]);
    assert(index_ok(dag, v, own));
    assert(kept_at(t, ta, own));
    assert(ta.stage[own] == t.stage[own]);
    if v.stack[f].stage == Stage::Last {
        assert(right_of(ta, own) == right_of(t, own));
    }
    if f + 1 < v.stack.len() - 1 {
        assert(a.stack[f + 1] == v.stack[f + 1]);
    }
    assert(a.structure[2 * own] == v.structure[2 * own]);
    assert(a.structure[2 * own + 1] == v.structure[2 * own + 1]);
}

/// The frames below the top keep their order, and what finished clusters
/// are known under stays true, after a visit.
#[verifier::rlimit(30)]
proof fn lemma_rest_kept(dag: Dag, v: WalkView, a: WalkView)
    requires
        walks(dag, v),
        steps_from(v, a),
    ensures
        forall|f: int| 0 <= f < v.stack.len() - 1 ==> #[trigger] frame_ok(a, f),
        forall|f: int, g: int|
            0 <= f < g < v.stack.len() - 1 ==> (#[trigger] a.stack[f]).cluster > (
            #[trigger] a.stack[g]).cluster,
        forall|f: int|
            0 <= f < v.stack.len() - 1 ==> (#[trigger] a.stack[f]).cluster > v.stack.last().cluster,
        forall|k: int|
            0 <= k < a.cluster_pointer.len() && k != v.stack.last().cluster ==> ((
            #[trigger] a.cluster_pointer[k]) matches Some(e) ==> e >= dag.labels.len() && e
                - dag.labels.len() < a.trace.place.len() && a.trace.place[e - dag.labels.len()] == k
                && a.trace.stage[e - dag.labels.len()] == 3),
        forall|i: int, j: int|
            0 <= i < j < v.trace.place.len() ==> #[trigger] a.trace.place[i] != #[trigger] a.trace.place[j],
        forall|i: int| 0 <= i < v.trace.place.len() && i != v.stack.last().own ==> #[trigger] index_ok(dag, a, i),
{
    let t = v.trace;
    let ta = a.trace;
    let labels = dag.labels.len();
    assert forall|f: int| 0 <= f < v.stack.len() - 1 implies #[trigger] frame_ok(a, f) by {
        lemma_frame_kept(dag, v, a, f);
    }
    assert forall|f: int, g: int| 0 <= f < g < v.stack.len() - 1 implies (#[trigger] a.stack[f]).cluster
        > (#[trigger] a.stack[g]).cluster by {
        assert(v.stack[f].cluster > v.stack[g].cluster);
    }
    assert forall|f: int| 0 <= f < v.stack.len() - 1 implies (#[trigger] a.stack[f]).cluster
        > v.stack.last().cluster by {
        assert(v.stack[f].cluster > v.stack[v.stack.len() - 1].cluster);
    }
    assert forall|k: int| 0 <= k < a.cluster_pointer.len() && k != v.stack.last().cluster implies ((
    #[trigger] a.cluster_pointer[k]) matches Some(e) ==> e >= labels && e - labels < ta.place.len()
        && ta.place[e - labels] == k && ta.stage[e - labels] == 3) by {
        if a.cluster_pointer[k] is Some {
            let e = v.cluster_pointer[k]->0;
            assert(kept_at(t, ta, e - labels));
        }
    }
    assert forall|i: int, j: int| 0 <= i < j < t.place.len() implies #[trigger] ta.place[i]
        != #[trigger] ta.place[j] by {
        assert(kept_at(t, ta, i));
        assert(kept_at(t, ta, j));
        assert(t.place[i] != t.place[j]);
    }
    assert forall|i: int| 0 <= i < t.place.len() && i != v.stack.last().own implies #[trigger] index_ok(
        dag,
        a,
        i,
    ) by {
        lemma_index_kept(dag, v, a, i);
    }
}

/// The first visit leaves the walk in order and brings it forward.
#[verifier::rlimit(30)]
proof fn lemma_first_visit(dag: Dag, v: WalkView, entry: Option<usize>)
    requires
        walks(dag, v),
        top_is_first(v.stack),
        entry == entry_of(dag, v, dag.clusters[v.stack.last().cluster as int].first_child),
    ensures
        walks(dag, first_visited(dag, v, entry)),
        work_ahead(first_visited(dag, v, entry).stack) < work_ahead(v.stack),
        continues(v.trace, first_visited(dag, v, entry).trace),
{
    let a = first_visited(dag, v, entry);
    let t = v.trace;
    let ta = a.trace;
    let s = v.stack.last();
    let rest = v.stack.drop_last();
    let own = s.own as int;
    let c = dag.clusters[s.cluster as int];
    let labels = dag.labels.len();
    let waiting = Step { cluster: s.cluster, stage: Stage::Second, own: s.own };
    let child = (c.first_child - labels) as usize;
    lemma_top_first(dag, v);
    lemma_begun_bounded(dag, v);
    if entry is None {
        lemma_fresh_cluster(dag, v, child);
    }
    // the measure
    lemma_work_pushed(rest, waiting);
    assert(v.stack =~= rest.push(s));
    lemma_work_pushed(rest, s);
    if entry is None {
        lemma_work_pushed(rest.push(waiting), a.stack.last());
        lemma_weight_grows(child as nat, (s.cluster - 1) as nat);
    }
    // the walk goes on
    assert(continues(t, ta)) by {
        assert forall|i: int| 0 <= i < t.place.len() implies #[trigger] kept_at(t, ta, i) by {}
    }
    assert(steps_from(v, a));
    lemma_rest_kept(dag, v, a);
    assert(index_ok(dag, v, own));
    assert(index_ok(dag, a, own)) by {
        if entry is None {
            assert(begins(dag, ta, own, own + 1, c.first_child, ta.entered[own]));
        } else {
            if c.first_child >= labels {
                let e = entry->0;
                assert(v.cluster_pointer[child as int] == Some(e));
                assert(index_ok(dag, v, e - labels));
            }
            assert(names(dag, ta, a.slots[2 * own], c.first_child, ta.entered[own]));
        }
        assert(recorded(dag, ta, a.structure, a.slots, a.merge_types, own));
    }
    if entry is None {
        assert(index_ok(dag, a, own + 1));
    }
    assert(frame_ok(a, rest.len() as int));
    if entry is None {
        assert(frame_ok(a, (rest.len() + 1) as int));
    }
    assert((forall|k: int|
        0 <= k < a.cluster_pointer.len() ==> ((#[trigger] a.cluster_pointer[k]) matches Some(e)
            ==> e >= labels && e - labels < ta.place.len() && ta.place[e - labels] == k
            && ta.stage[e - labels] == 3))) by {
        assert forall|k: int| 0 <= k < a.cluster_pointer.len() implies ((
        #[trigger] a.cluster_pointer[k]) matches Some(e) ==> e >= labels && e - labels
            < ta.place.len() && ta.place[e - labels] == k && ta.stage[e - labels] == 3) by {
            if k == s.cluster && a.cluster_pointer[k] is Some {
                let e = v.cluster_pointer[k]->0;
                assert(kept_at(t, ta, e - labels));
            }
        }
    }
    assert forall|i: int, j: int|
        0 <= i < j < ta.place.len() && ta.stage[i] == 3 && ta.stage[j] == 3 implies #[trigger] ta.finished[i]
        != #[trigger] ta.finished[j] by {
        assert(t.finished[i] != t.finished[j]);
    }
    assert(top_ok(a));
    assert(shaped(dag, a));
}

/// The second visit leaves the walk in order and brings it forward, where
/// the second child is walked into.
#[verifier::rlimit(30)]
proof fn lemma_second_begun(dag: Dag, v: WalkView)
    requires
        walks(dag, v),
        v.stack.len() > 0,
        v.stack.last().stage == Stage::Second,
        entry_of(dag, v, dag.clusters[v.stack.last().cluster as int].second_child) is None,
    ensures
        walks(dag, second_visited(dag, v, None)),
        work_ahead(second_visited(dag, v, None).stack) < work_ahead(v.stack),
        continues(v.trace, second_visited(dag, v, None).trace),
{
    let a = second_visited(dag, v, None);
    let t = v.trace;
    let ta = a.trace;
    let s = v.stack.last();
    let rest = v.stack.drop_last();
    let own = s.own as int;
    let c = dag.clusters[s.cluster as int];
    let labels = dag.labels.len();
    let child = (c.second_child - labels) as usize;
    let waiting = Step { cluster: s.cluster, stage: Stage::Last, own: s.own };
    lemma_top_visited(dag, v);
    lemma_begun_bounded(dag, v);
    assert(index_ok(dag, v, own));
    assert(v.stack =~= rest.push(s));
    lemma_work_pushed(rest, s);
    lemma_fresh_cluster(dag, v, child);
    lemma_work_pushed(rest, waiting);
    lemma_work_pushed(rest.push(waiting), a.stack.last());
    lemma_weight_grows(child as nat, (s.cluster - 1) as nat);
    assert(right_of(ta, own) == t.place.len());
    assert(continues(t, ta)) by {
        assert forall|i: int| 0 <= i < t.place.len() implies #[trigger] kept_at(t, ta, i) by {}
    }
    assert(steps_from(v, a));
    lemma_rest_kept(dag, v, a);
    assert(index_ok(dag, a, own)) by {
        lemma_own_first_kept(dag, v, a);
        assert(begins(dag, ta, own, right_of(ta, own), c.second_child, ta.halfway[own]));
        assert(recorded(dag, ta, a.structure, a.slots, a.merge_types, own));
    }
    assert(index_ok(dag, a, t.place.len() as int));
    assert(frame_ok(a, rest.len() as int));
    assert(frame_ok(a, (rest.len() + 1) as int));
    assert forall|k: int| 0 <= k < a.cluster_pointer.len() implies ((
    #[trigger] a.cluster_pointer[k]) matches Some(e) ==> e >= labels && e - labels < ta.place.len()
        && ta.place[e - labels] == k && ta.stage[e - labels] == 3) by {
        if k == s.cluster && a.cluster_pointer[k] is Some {
            let e = v.cluster_pointer[k]->0;
            assert(kept_at(t, ta, e - labels));
        }
    }
    assert forall|i: int, j: int|
        0 <= i < j < ta.place.len() && ta.stage[i] == 3 && ta.stage[j] == 3 implies #[trigger] ta.finished[i]
        != #[trigger] ta.finished[j] by {
        assert(t.finished[i] != t.finished[j]);
    }
    assert(top_ok(a));
    assert(shaped(dag, a));
}

/// What was written for the first child of the visited cluster stays true
/// after the visit.
proof fn lemma_own_first_kept(dag: Dag, v: WalkView, a: WalkView)
    requires
        walks(dag, v),
        steps_from(v, a),
        v.stack.last().stage != Stage::First,
        a.structure[2 * v.stack.last().own] == v.structure[2 * v.stack.last().own],
        a.slots[2 * v.stack.last().own] == v.slots[2 * v.stack.last().own],
    ensures
        ({
            let own = v.stack.last().own as int;
            let c = dag.clusters[v.stack.last().cluster as int];
            &&& a.trace.entered[own] == v.trace.entered[own]
            &&& a.trace.depth[own] == v.trace.depth[own]
            &&& a.trace.place[own] == v.trace.place[own]
            &&& if a.structure[2 * own] {
                a.slots[2 * own] is None && begins(dag, a.trace, own, own + 1, c.first_child, a.trace.entered[own])
                    && (v.trace.stage[own + 1] == 3 ==> a.trace.stage[own + 1] == 3
                    && a.trace.finished[own + 1] == v.trace.finished[own + 1])
            } else {
                names(dag, a.trace, a.slots[2 * own], c.first_child, a.trace.entered[own])
            }
        }),
{
    let t = v.trace;
    let ta = a.trace;
    let s = v.stack.last();
    let own = s.own as int;
    let c = dag.clusters[s.cluster as int];
    let labels = dag.labels.len();
    lemma_top_visited(dag, v);
    assert(index_ok(dag, v, own));
    assert(kept_at(t, ta, own));
    if v.structure[2 * own] {
        assert(kept_at(t, ta, own + 1));
        assert(begins(dag, ta, own, own + 1, c.first_child, ta.entered[own]));
    } else {
        if c.first_child >= labels {
            assert(kept_at(t, ta, v.slots[2 * own]->0 - labels));
        }
        assert(names(dag, ta, a.slots[2 * own], c.first_child, ta.entered[own]));
    }
}

/// After the cluster on top of the stack was finished, all that is below
/// it on the stack, and all else, is in order.
#[verifier::rlimit(30)]
proof fn lemma_closed_rest(dag: Dag, v: WalkView, a: WalkView)
    requires
        walks(dag, v),
        steps_from(v, a),
        v.stack.last().stage != Stage::First,
        a.stack == v.stack.drop_last(),
        a.structure == v.structure,
        a.merge_types == v.merge_types,
        a.trace.place == v.trace.place,
        a.trace.stage == v.trace.stage.update(v.stack.last().own as int, 3),
        a.trace.finished == v.trace.finished.update(v.stack.last().own as int, v.trace.done),
        a.trace.done == v.trace.done + 1,
        a.cluster_pointer == v.cluster_pointer.update(
            v.stack.last().cluster as int,
            Some((v.stack.last().own + dag.labels.len()) as usize),
        ),
        index_ok(dag, a, v.stack.last().own as int),
    ensures
        walks(dag, a),
{
    let t = v.trace;
    let ta = a.trace;
    let s = v.stack.last();
    let rest = v.stack.drop_last();
    let own = s.own as int;
    let labels = dag.labels.len();
    lemma_top_visited(dag, v);
    lemma_begun_bounded(dag, v);
    lemma_rest_kept(dag, v, a);
    assert forall|i: int| 0 <= i < ta.place.len() implies #[trigger] index_ok(dag, a, i) by {}
    assert forall|k: int| 0 <= k < a.cluster_pointer.len() implies ((
    #[trigger] a.cluster_pointer[k]) matches Some(e) ==> e >= labels && e - labels < ta.place.len()
        && ta.place[e - labels] == k && ta.stage[e - labels] == 3) by {}
    assert forall|i: int, j: int|
        0 <= i < j < ta.place.len() && ta.stage[i] == 3 && ta.stage[j] == 3 implies #[trigger] ta.finished[i]
        != #[trigger] ta.finished[j] by {
        if i != own && j != own {
            assert(t.finished[i] != t.finished[j]);
        } else if i == own {
            assert(index_ok(dag, v, j));
        } else {
            assert(index_ok(dag, v, i));
        }
    }
    if rest.len() > 0 {
        let below = rest.len() - 1;
        let p = v.stack[below].own as int;
        assert(frame_ok(v, below));
        assert(frame_ok(a, below));
        assert(a.stack.last() == v.stack[below]);
        assert(kept_at(t, ta, p));
        assert(v.stack[below + 1] == s);
        if v.stack[below].stage == Stage::Last {
            assert(right_of(ta, p) == right_of(t, p));
        }
    }
    assert(top_ok(a));
    assert(shaped(dag, a));
}

/// The second visit leaves the walk in order and brings it forward, where
/// the second child is written as an entry.
#[verifier::rlimit(30)]
proof fn lemma_second_closed(dag: Dag, v: WalkView, entry: Option<usize>)
    requires
        walks(dag, v),
        v.stack.len() > 0,
        v.stack.last().stage == Stage::Second,
        entry == entry_of(dag, v, dag.clusters[v.stack.last().cluster as int].second_child),
        entry is Some,
    ensures
        walks(dag, second_visited(dag, v, entry)),
        work_ahead(second_visited(dag, v, entry).stack) < work_ahead(v.stack),
        continues(v.trace, second_visited(dag, v, entry).trace),
{
    let a = second_visited(dag, v, entry);
    let t = v.trace;
    let ta = a.trace;
    let s = v.stack.last();
    let rest = v.stack.drop_last();
    let own = s.own as int;
    let c = dag.clusters[s.cluster as int];
    let labels = dag.labels.len();
    let child = (c.second_child - labels) as usize;
    lemma_top_visited(dag, v);
    lemma_begun_bounded(dag, v);
    assert(index_ok(dag, v, own));
    assert(v.stack =~= rest.push(s));
    lemma_work_pushed(rest, s);
    assert(continues(t, ta)) by {
        assert forall|i: int| 0 <= i < t.place.len() implies #[trigger] kept_at(t, ta, i) by {}
    }
    assert(steps_from(v, a));
    assert(index_ok(dag, a, own)) by {
        lemma_own_first_kept(dag, v, a);
        if c.second_child >= labels {
            let e = entry->0;
            assert(v.cluster_pointer[child as int] == Some(e));
            assert(index_ok(dag, v, e - labels));
            assert(kept_at(t, ta, e - labels));
        }
        assert(names(dag, ta, a.slots[2 * own + 1], c.second_child, ta.halfway[own]));
        assert(recorded(dag, ta, a.structure, a.slots, a.merge_types, own));
    }
    lemma_closed_rest(dag, v, a);
}

/// The second visit leaves the walk in order and brings it forward.
proof fn lemma_second_visit(dag: Dag, v: WalkView, entry: Option<usize>)
    requires
        walks(dag, v),
        v.stack.len() > 0,
        v.stack.last().stage == Stage::Second,
        entry == entry_of(dag, v, dag.clusters[v.stack.last().cluster as int].second_child),
    ensures
        walks(dag, second_visited(dag, v, entry)),
        work_ahead(second_visited(dag, v, entry).stack) < work_ahead(v.stack),
        continues(v.trace, second_visited(dag, v, entry).trace),
{
    if entry is None {
        lemma_second_begun(dag, v);
    } else {
        lemma_second_closed(dag, v, entry);
    }
}

/// Rows of bits that agree up to `pos` have as many false bits before it.
proof fn lemma_zeros_same(a: Seq<bool>, b: Seq<bool>, pos: int)
    requires
        0 <= pos <= a.len(),
        pos <= b.len(),
        forall|j: int| 0 <= j < pos ==> a[j] == b[j],
    ensures
        zeros_before(a, pos) == zeros_before(b, pos),
    decreases pos,
{
    if pos > 0 {
        lemma_zeros_same(a, b, pos - 1);
    }
}

/// A false bit that is set is one false bit less.
proof fn lemma_zeros_set(bits: Seq<bool>, at: int, pos: int)
    requires
        0 <= at < pos <= bits.len(),
        !bits[at],
    ensures
        zeros_before(bits.update(at, true), pos) + 1 == zeros_before(bits, pos),
    decreases pos,
{
    if pos - 1 == at {
        lemma_zeros_same(bits.update(at, true), bits, at);
    } else {
        lemma_zeros_set(bits, at, pos - 1);
    }
}

/// The walk has written one true bit for every cluster that it met, the
/// root left out.
pub open spec fn tallies(v: WalkView) -> bool {
    zeros_before(v.structure, v.structure.len() as int) + v.trace.place.len() == v.structure.len()
        + 1
}

/// The next visit writes a true bit for the cluster that it meets, if it
/// meets one.
proof fn lemma_visit_tallies(dag: Dag, v: WalkView)
    requires
        walks(dag, v),
        v.stack.len() > 0,
        tallies(v),
    ensures
        tallies(visited(dag, v)),
{
    let s = v.stack.last();
    let c = dag.clusters[s.cluster as int];
    let a = visited(dag, v);
    let len = v.structure.len() as int;
    match s.stage {
        Stage::First => {
            let entry = entry_of(dag, v, c.first_child);
            let one = v.structure.push(entry is None);
            lemma_zeros_same(one, v.structure, len);
            lemma_zeros_same(a.structure, one, len + 1);
            assert(zeros_before(a.structure, len + 2) == zeros_before(a.structure, len + 1) + 1);
            assert(zeros_before(one, len + 1) == zeros_before(one, len) + if entry is None {
                0nat
            } else {
                1nat
            });
        },
        Stage::Second => {
            lemma_top_visited(dag, v);
            let entry = entry_of(dag, v, c.second_child);
            if entry is None {
                assert(index_ok(dag, v, s.own as int));
                lemma_zeros_set(v.structure, 2 * s.own + 1, len);
            }
        },
        Stage::Last => {},
    }
}

/// The walk from a root that is a cluster is in order before its first
/// visit.
pub(crate) proof fn lemma_start_walks(dag: Dag, root: int)
    requires
        dag.wf(),
        dag.ids() <= usize::MAX,
        dag.labels.len() <= root < dag.ids(),
    ensures
        walks(dag, start_of(dag, root)),
{
    let v = start_of(dag, root);
    assert(v.stack.last() == v.stack[0]);
    assert(index_ok(dag, v, 0));
    assert(frame_ok(v, 0));
}

/// The next visit leaves the walk in order and brings it forward.
pub(crate) proof fn lemma_visit(dag: Dag, v: WalkView)
    requires
        walks(dag, v),
        v.stack.len() > 0,
    ensures
        walks(dag, visited(dag, v)),
        work_ahead(visited(dag, v).stack) < work_ahead(v.stack),
        v.stack.last().cluster < dag.clusters.len(),
        dag.clusters[v.stack.last().cluster as int].first_child < dag.labels.len()
            + v.stack.last().cluster,
        dag.clusters[v.stack.last().cluster as int].second_child < dag.labels.len()
            + v.stack.last().cluster,
{
    let s = v.stack.last();
    let c = dag.clusters[s.cluster as int];
    match s.stage {
        Stage::First => {
            lemma_top_first(dag, v);
            lemma_first_visit(dag, v, entry_of(dag, v, c.first_child));
        },
        Stage::Second => {
            lemma_top_visited(dag, v);
            lemma_second_visit(dag, v, entry_of(dag, v, c.second_child));
        },
        Stage::Last => {
            lemma_top_visited(dag, v);
            lemma_last_visit(dag, v);
        },
    }
}

/// The last visit leaves the walk in order and brings it forward.
#[verifier::rlimit(30)]
proof fn lemma_last_visit(dag: Dag, v: WalkView)
    requires
        walks(dag, v),
        v.stack.len() > 0,
        v.stack.last().stage == Stage::Last,
    ensures
        walks(dag, last_visited(dag, v)),
        work_ahead(last_visited(dag, v).stack) < work_ahead(v.stack),
        continues(v.trace, last_visited(dag, v).trace),
{
    let a = last_visited(dag, v);
    let t = v.trace;
    let ta = a.trace;
    let s = v.stack.last();
    let rest = v.stack.drop_last();
    let own = s.own as int;
    let c = dag.clusters[s.cluster as int];
    let labels = dag.labels.len();
    lemma_top_visited(dag, v);
    lemma_begun_bounded(dag, v);
    assert(index_ok(dag, v, own));
    assert(v.stack =~= rest.push(s));
    lemma_work_pushed(rest, s);
    assert(continues(t, ta)) by {
        assert forall|i: int| 0 <= i < t.place.len() implies #[trigger] kept_at(t, ta, i) by {}
    }
    assert(steps_from(v, a));
    assert(index_ok(dag, a, own)) by {
        lemma_own_first_kept(dag, v, a);
        assert(right_of(ta, own) == right_of(t, own));
        if v.structure[2 * own + 1] {
            assert(kept_at(t, ta, right_of(t, own)));
            assert(begins(dag, ta, own, right_of(ta, own), c.second_child, ta.halfway[own]));
        } else {
            if c.second_child >= labels {
                assert(kept_at(t, ta, v.slots[2 * own + 1]->0 - labels));
            }
            assert(names(dag, ta, a.slots[2 * own + 1], c.second_child, ta.halfway[own]));
        }
        assert(recorded(dag, ta, a.structure, a.slots, a.merge_types, own));
    }
    lemma_closed_rest(dag, v, a);
}

/// The walk: what was written of the flat form, with the entries still at
/// the places of their bits, the entry under which each finished cluster
/// is known, the work stack, and what the walk has found out.
pub struct Walker {
    pub structure: Vec<bool>,
    pub slots: Vec<Option<usize>>,
    pub merge_types: Vec<usize>,
    pub cluster_pointer: Vec<Option<usize>>,
    pub work_stack: Vec<Step>,
    pub trace: Ghost<Trace>,
}

impl View for Walker {
    type V = WalkView;

    open spec fn view(&self) -> WalkView {
        WalkView {
            structure: self.structure@,
            slots: self.slots@,
            merge_types: self.merge_types@,
            cluster_pointer: self.cluster_pointer@,
            stack: self.work_stack@,
            trace: self.trace@,
        }
    }
}

impl Walker {
    /// The entry under which `child` is written without being walked
    /// into, if there is one.
    fn entry(&self, tables: &Tables, child: usize) -> (entry: Option<usize>)
        requires
            tables.wf(),
            self.cluster_pointer@.len() == tables@.clusters.len(),
            child < tables@.ids(),
        ensures
            entry == entry_of(tables@, self@, child),
    {
        let labels = tables.labels.len();
        if child < labels {
            Some(child)
        } else {
            self.cluster_pointer[child - labels]
        }
    }

    /// The first visit of the cluster on top of the stack.
    fn visit_first(&mut self, tables: &Tables)
        requires
            tables.wf(),
            walks(tables@, old(self)@),
            top_is_first(old(self).work_stack@),
        ensures
            walks(tables@, final(self)@),
            work_ahead(final(self).work_stack@) < work_ahead(old(self).work_stack@),
            continues(old(self).trace@, final(self).trace@),
            final(self)@ == visited(tables@, old(self)@),
    {
        let ghost v = self@;
        let ghost dag = tables@;
        proof {
            tables.lemma_wf();
            lemma_top_first(dag, v);
            lemma_begun_bounded(dag, v);
        }
        let step = self.work_stack.pop().unwrap();
        let labels = tables.labels.len();
        let cluster = tables.clusters.get(step.cluster + labels);
        let entry = self.entry(tables, cluster.first_child);
        self.merge_types.push(cluster.merge_type.get_usize());
        self.structure.push(entry.is_none());
        self.slots.push(entry);
        self.structure.push(false);
        self.slots.push(None);
        self.work_stack.push(Step { cluster: step.cluster, stage: Stage::Second, own: step.own });
        if entry.is_none() {
            self.work_stack.push(
                Step { cluster: cluster.first_child - labels, stage: Stage::First, own: step.own + 1 },
            );
        }
        proof {
            self.trace@ = first_visited(dag, v, entry).trace;
            assert(self@ =~= first_visited(dag, v, entry));
            lemma_first_visit(dag, v, entry);
        }
    }

    /// The second visit of the cluster on top of the stack.
    fn visit_second(&mut self, tables: &Tables)
        requires
            tables.wf(),
            walks(tables@, old(self)@),
            old(self).work_stack@.len() > 0,
            old(self).work_stack@.last().stage == Stage::Second,
        ensures
            walks(tables@, final(self)@),
            work_ahead(final(self).work_stack@) < work_ahead(old(self).work_stack@),
            continues(old(self).trace@, final(self).trace@),
            final(self)@ == visited(tables@, old(self)@),
    {
        let ghost v = self@;
        let ghost dag = tables@;
        proof {
            tables.lemma_wf();
            lemma_top_visited(dag, v);
            lemma_begun_bounded(dag, v);
        }
        let step = self.work_stack.pop().unwrap();
        let labels = tables.labels.len();
        let cluster = tables.clusters.get(step.cluster + labels);
        let entry = self.entry(tables, cluster.second_child);
        assert(2 * step.own + 1 < self.structure.len());
        if entry.is_none() {
            self.structure[2 * step.own + 1] = true;
            self.work_stack.push(Step { cluster: step.cluster, stage: Stage::Last, own: step.own });
            self.work_stack.push(
                Step {
                    cluster: cluster.second_child - labels,
                    stage: Stage::First,
                    own: self.merge_types.len(),
                },
            );
        } else {
            self.slots[2 * step.own + 1] = entry;
            self.cluster_pointer[step.cluster] = Some(step.own + labels);
        }
        proof {
            self.trace@ = second_visited(dag, v, entry).trace;
            assert(self@ =~= second_visited(dag, v, entry));
            lemma_second_visit(dag, v, entry);
        }
    }

    /// The last visit of the cluster on top of the stack.
    fn visit_last(&mut self, tables: &Tables)
        requires
            tables.wf(),
            walks(tables@, old(self)@),
            old(self).work_stack@.len() > 0,
            old(self).work_stack@.last().stage == Stage::Last,
        ensures
            walks(tables@, final(self)@),
            work_ahead(final(self).work_stack@) < work_ahead(old(self).work_stack@),
            continues(old(self).trace@, final(self).trace@),
            final(self)@ == visited(tables@, old(self)@),
    {
        let ghost v = self@;
        let ghost dag = tables@;
        proof {
            tables.lemma_wf();
            lemma_top_visited(dag, v);
            lemma_begun_bounded(dag, v);
        }
        let step = self.work_stack.pop().unwrap();
        let labels = tables.labels.len();
        self.cluster_pointer[step.cluster] = Some(step.own + labels);
        proof {
            self.trace@ = last_visited(dag, v).trace;
            assert(self@ =~= last_visited(dag, v));
            lemma_last_visit(dag, v);
        }
    }
}

/// The entries in the order of their bits, without the places of the true
/// bits.
pub fn compress(structure: &Vec<bool>, slots: &Vec<Option<usize>>) -> (pointer: Vec<usize>)
    requires
        slots@.len() == structure@.len(),
        forall|pos: int| 0 <= pos < slots@.len() ==> ((#[trigger] slots@[pos]) is None <==> structure@[pos]),
    ensures
        pointer@.len() == zeros_before(structure@, structure@.len() as int),
        forall|pos: int|
            0 <= pos < structure@.len() && !structure@[pos] ==> zeros_before(structure@, pos)
                < pointer@.len() && pointer@[zeros_before(structure@, pos) as int] == (
            #[trigger] slots@[pos])->0,
        pointer@ == packed(slots@),
{
    let mut pointer: Vec<usize> = Vec::new();
    let mut pos: usize = 0;
    while pos < slots.len()
        invariant
            pos <= slots@.len(),
            slots@.len() == structure@.len(),
            forall|p: int| 0 <= p < slots@.len() ==> ((#[trigger] slots@[p]) is None <==> structure@[p]),
            pointer@.len() == zeros_before(structure@, pos as int),
            forall|p: int|
                0 <= p < pos && !structure@[p] ==> zeros_before(structure@, p) < pointer@.len()
                    && pointer@[zeros_before(structure@, p) as int] == (#[trigger] slots@[p])->0,
            pointer@ == packed(slots@.take(pos as int)),
        decreases slots@.len() - pos,
    {
        proof {
            assert(slots@.take(pos + 1).drop_last() =~= slots@.take(pos as int));
        }
        match slots[pos] {
            Some(entry) => {
                pointer.push(entry);
            },
            None => {},
        }
        pos += 1;
    }
    proof {
        assert(slots@.take(pos as int) =~= slots@);
    }
    pointer
}

/// The flat form of the tables from `root`: the bits, the entries, the
/// merge types and the labels.
///
/// A walk from the root meets every cluster that the root reaches once.
/// Where it meets a cluster first, the cluster gets the next place in the
/// flat form and its child's bit is true; a label, or a cluster that is
/// finished, is written as an entry under a false bit. A root that is a
/// label has no cluster to write.
///
/// What is written is `flat_of` the tables and the root: what the walk
/// writes, visit by visit. It has an entry more than merge types, every
/// merge type is one of the three, and there is one for every cluster if
/// the root reaches them all. The flat form decodes to one cluster for
/// every merge type, and the root that it decodes to stands for the same
/// trees as `root` and is built as it is.
pub fn traverse(tables: &Tables, root: usize) -> (flat: (Vec<bool>, Vec<usize>, Vec<usize>, Vec<String>))
    requires
        tables.wf(),
        root < tables@.ids(),
        root >= tables@.labels.len() || root + 1 == tables@.labels.len(),
    ensures
        ({
            let written = Flat {
                structure: flat.0@,
                pointer: flat.1@,
                merge_types: flat.2@,
                labels: flat.3@.len(),
            };
            &&& flat.3@.len() == tables@.labels.len()
            &&& forall|i: int| 0 <= i < flat.3@.len() ==> #[trigger] flat.3@[i]@ == tables@.labels[i]
            &&& written.merge_types.len() <= tables@.clusters.len()
            &&& written.structure.len() == 2 * written.merge_types.len()
            &&& written.pointer.len() == zeros_before(written.structure, written.structure.len() as int)
            &&& written == flat_of(tables@, root as int)
            &&& (written.merge_types.len() > 0 ==> written.pointer.len() == written.merge_types.len()
                + 1)
            &&& (forall|i: int|
                0 <= i < written.merge_types.len() ==> #[trigger] written.merge_types[i] < 3)
            &&& ((forall|c: int|
                tables@.labels.len() <= c < tables@.ids() ==> #[trigger] reaches(
                    tables@,
                    root as int,
                    c,
                )) ==> written.merge_types.len() == tables@.clusters.len())
            &&& (root < tables@.labels.len() ==> written.merge_types.len() == 0)
            &&& (root >= tables@.labels.len() ==> exists|t: Trace| encodes(tables@, root, written, t))
            &&& !too_many(written)
            &&& decode(written) is Some
            &&& decode(written)->0.clusters.len() == written.merge_types.len()
            &&& (Dag { labels: tables@.labels, clusters: decode(written)->0.clusters }).wf()
            &&& (Dag { labels: tables@.labels, clusters: decode(written)->0.clusters }).canonical()
            &&& stands_for(
                tables@,
                Dag { labels: tables@.labels, clusters: decode(written)->0.clusters },
                decode(written)->0.root,
                root as int,
            )
        }),
{
    let ghost dag = tables@;
    let labels = tables.labels.to_vec();
    let label_count = tables.labels.len();
    proof {
        tables.lemma_wf();
    }
    if root < label_count {
        proof {
            let written = Flat {
                structure: Seq::empty(),
                pointer: Seq::empty(),
                merge_types: Seq::empty(),
                labels: labels@.len(),
            };
            let later = Dag { labels: dag.labels, clusters: Seq::empty() };
            assert(written == flat_of(dag, root as int));
            if dag.clusters.len() > 0 {
                assert(!reaches(dag, root as int, dag.labels.len() as int));
            }
            assert(decode(written) == Some(Decoded { clusters: Seq::empty(), root }));
            assert forall|kids: Seq<Tree>| #[trigger] later.expand(root as int, kids) == dag.expand(
                root as int,
                kids,
            ) by {}
        }
        return (Vec::new(), Vec::new(), Vec::new(), labels);
    }
    let count = tables.clusters.len();
    let mut cluster_pointer: Vec<Option<usize>> = Vec::new();
    let mut filled: usize = 0;
    while filled < count
        invariant
            filled <= count,
            cluster_pointer@.len() == filled,
            forall|k: int| 0 <= k < filled ==> (#[trigger] cluster_pointer@[k]) is None,
        decreases count - filled,
    {
        cluster_pointer.push(None);
        filled += 1;
    }
    let first = Step { cluster: root - label_count, stage: Stage::First, own: 0 };
    let mut walker = Walker {
        structure: Vec::new(),
        slots: Vec::new(),
        merge_types: Vec::new(),
        cluster_pointer,
        work_stack: Vec::new(),
        trace: Ghost(
            Trace {
                place: seq![(root - label_count) as usize],
                depth: seq![0nat],
                entered: seq![0nat],
                halfway: seq![0nat],
                finished: seq![0nat],
                stage: seq![0nat],
                done: 0,
            },
        ),
    };
    walker.work_stack.push(first);
    let ghost begin = start_of(dag, root as int);
    let ghost fuel = work_ahead(begin.stack);
    proof {
        assert(count == dag.clusters.len());
        assert(walker.cluster_pointer@ =~= begin.cluster_pointer);
        assert(walker.work_stack@ =~= begin.stack);
        assert(walker.structure@ =~= begin.structure);
        assert(walker.slots@ =~= begin.slots);
        assert(walker.merge_types@ =~= begin.merge_types);
        assert(walker.trace@ == begin.trace);
        assert(walker@ == begin);
    }
    proof {
        let v = walker@;
        assert(v.stack.last() == first);
        assert(index_ok(dag, v, 0));
        assert(frame_ok(v, 0));
        assert(walks(dag, v));
    }
    while walker.work_stack.len() > 0
        invariant
            tables.wf(),
            dag == tables@,
            walks(dag, walker@),
            walker.trace@.place.len() >= 1,
            walker.trace@.place[0] == root - dag.labels.len(),
            root >= dag.labels.len(),
            begin == start_of(dag, root as int),
            tallies(walker@),
            walker.trace@.depth[0] == 0,
            walker.work_stack@.len() > 0 ==> walker.trace@.stage[0] < 3,
            walker.trace@.stage[0] == 3 ==> walker.trace@.finished[0] + 1 == walker.trace@.done,
            fuel >= work_ahead(walker.work_stack@),
            walked(dag, walker@, fuel) == walked(dag, begin, work_ahead(begin.stack)),
        decreases work_ahead(walker.work_stack@),
    {
        let ghost before = walker.trace@;
        let ghost seen = walker@;
        proof {
            assert(walked(dag, walker@, fuel) == walked(dag, visited(dag, walker@), (fuel - 1) as nat));
            fuel = (fuel - 1) as nat;
            assert(frame_ok(seen, seen.stack.len() - 1));
            assert(index_ok(dag, seen, 0));
            assert(frame_ok(seen, 0));
            lemma_visit_tallies(dag, seen);
        }
        let stage = walker.work_stack[walker.work_stack.len() - 1].stage;
        match stage {
            Stage::First => {
                walker.visit_first(tables);
            },
            Stage::Second => {
                walker.visit_second(tables);
            },
            Stage::Last => {
                walker.visit_last(tables);
            },
        }
        proof {
            assert(kept_at(before, walker.trace@, 0));
            assert(walker@ == visited(dag, seen));
            let top = seen.stack.last();
            if top.own != 0 {
                assert(seen.stack.len() > 1);
                assert(walker.trace@.stage[0] == before.stage[0]);
                assert(walker.work_stack@.len() > 0);
            }
        }
    }
    proof {
        let v = walker@;
        let t = v.trace;
        lemma_begun_bounded(dag, v);
        assert forall|i: int| 0 <= i < t.place.len() implies t.stage[i] == 3 && #[trigger] recorded(
            dag,
            t,
            v.structure,
            v.slots,
            v.merge_types,
            i,
        ) by {
            assert(index_ok(dag, v, i));
        }
        assert forall|pos: int| 0 <= pos < v.slots.len() implies ((#[trigger] v.slots[pos]) is None
            <==> v.structure[pos]) by {
            let i = pos / 2;
            assert(recorded(dag, t, v.structure, v.slots, v.merge_types, i));
            assert(pos == 2 * i || pos == 2 * i + 1);
        }
    }
    let pointer = compress(&walker.structure, &walker.slots);
    proof {
        let v = walker@;
        let t = v.trace;
        let written = Flat {
            structure: walker.structure@,
            pointer: pointer@,
            merge_types: walker.merge_types@,
            labels: labels@.len(),
        };
        assert(entries(written) =~= v.slots);
        assert(written.labels == dag.labels.len());
        assert(walked(dag, v, fuel) == v);
        assert(written == flat_of(dag, root as int));
        assert(t.done == written.merge_types.len());
        assert(written.structure.len() == 2 * written.merge_types.len());
        assert forall|i: int| 0 <= i < t.place.len() implies #[trigger] recorded(
            dag,
            t,
            written.structure,
            entries(written),
            written.merge_types,
            i,
        ) by {
            assert(index_ok(dag, v, i));
        }
        assert forall|i: int| 0 <= i < t.place.len() implies #[trigger] t.stage[i] == 3 by {
            assert(index_ok(dag, v, i));
        }
        assert forall|i: int, j: int| 0 <= i < j < t.place.len() implies #[trigger] t.finished[i]
            != #[trigger] t.finished[j] by {
            assert(index_ok(dag, v, i));
            assert(index_ok(dag, v, j));
        }
        assert(dag.wf());
        assert(shaped(dag, v));
        assert(!top_is_first(v.stack));
        assert(sized(t));
        assert(t.place.len() == written.merge_types.len());
        assert(written.labels + written.merge_types.len() <= usize::MAX);
        assert(written.merge_types.len() >= 1);
        assert(root >= dag.labels.len());
        assert(t.place[0] == root - dag.labels.len());
        assert(t.finished[0] + 1 == t.done);
        assert(dag.canonical());
        assert(encodes(dag, root, written, t));
        lemma_walk_decodes(dag, root, written, t);
        lemma_codes_small(dag, root, written, t);
        if forall|c: int| dag.labels.len() <= c < dag.ids() ==> #[trigger] reaches(dag, root as int, c) {
            lemma_walk_meets_all(dag, root, written, t);
        }
        assert(written.pointer.len() == zeros_before(written.structure, written.structure.len() as int));
    }
    (walker.structure, pointer, walker.merge_types, labels)
}

} // verus!
