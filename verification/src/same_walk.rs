//! Why a table that is built as another is written as the other: the two
//! walks go the same way, visit for visit.

use vstd::prelude::*;
use crate::dag::Dag;
use crate::round_trip::{alike, lemma_alike_one};
use crate::traverse::{
    entry_of, flat_of, lemma_start_walks, lemma_visit, start_of, visited, walked, walks, work_ahead,
    WalkView,
};

verus! {

/// One id of a table without duplicates is built as two ids of another
/// only if the two are one.
pub proof fn lemma_alike_same(dag: Dag, later: Dag, source: int, first: int, second: int)
    requires
        later.canonical(),
        later.labels.len() == dag.labels.len(),
        alike(dag, later, source, first),
        alike(dag, later, source, second),
    ensures
        first == second,
    decreases source,
{
    if source >= dag.labels.len() {
        let c = dag.clusters[source - dag.labels.len()];
        let d = later.clusters[first - later.labels.len()];
        let e = later.clusters[second - later.labels.len()];
        lemma_alike_same(dag, later, c.first_child as int, d.first_child as int, e.first_child as int);
        lemma_alike_same(dag, later, c.second_child as int, d.second_child as int, e.second_child as int);
        assert(d == e);
    }
}

/// The walk `w` through `later` is where the walk `v` through `dag` is:
/// they have written the same, the clusters on their stacks are built
/// alike, frame for frame, and clusters that are built alike are finished
/// in both or in neither, under the same entry.
pub open spec fn in_step(dag: Dag, later: Dag, v: WalkView, w: WalkView) -> bool {
    &&& w.structure == v.structure
    &&& w.slots == v.slots
    &&& w.merge_types == v.merge_types
    &&& w.stack.len() == v.stack.len()
    &&& forall|f: int|
        0 <= f < v.stack.len() ==> (#[trigger] w.stack[f]).stage == v.stack[f].stage && w.stack[f].own
            == v.stack[f].own && alike(
            dag,
            later,
            dag.labels.len() + v.stack[f].cluster,
            later.labels.len() + w.stack[f].cluster,
        )
    &&& forall|x: int, y: int|
        #[trigger] alike(dag, later, x, y) && dag.labels.len() <= x < dag.ids() && later.labels.len()
            <= y < later.ids() ==> w.cluster_pointer[y - later.labels.len()]
            == v.cluster_pointer[x - dag.labels.len()]
}

/// The two tables have the same labels, neither holds a cluster twice,
/// and each walk is in order.
pub open spec fn side_by_side(dag: Dag, later: Dag, v: WalkView, w: WalkView) -> bool {
    &&& dag.canonical()
    &&& later.canonical()
    &&& later.labels == dag.labels
    &&& walks(dag, v)
    &&& walks(later, w)
    &&& in_step(dag, later, v, w)
}

/// Children that are built alike are written under the same entry.
proof fn lemma_entry_alike(dag: Dag, later: Dag, v: WalkView, w: WalkView, child: usize, other: usize)
    requires
        side_by_side(dag, later, v, w),
        alike(dag, later, child as int, other as int),
        child < dag.ids(),
    ensures
        entry_of(later, w, other) == entry_of(dag, v, child),
{
}

/// After the next visit the two walks are in step again.
#[verifier::rlimit(50)]
proof fn lemma_step_alike(dag: Dag, later: Dag, v: WalkView, w: WalkView)
    requires
        side_by_side(dag, later, v, w),
        v.stack.len() > 0,
    ensures
        side_by_side(dag, later, visited(dag, v), visited(later, w)),
        work_ahead(visited(dag, v).stack) < work_ahead(v.stack),
        work_ahead(visited(later, w).stack) < work_ahead(w.stack),
{
    let labels = dag.labels.len();
    let top = v.stack.len() - 1;
    let s = v.stack.last();
    let r = w.stack.last();
    assert(r == w.stack[top]);
    assert(s == v.stack[top]);
    let c = dag.clusters[s.cluster as int];
    let d = later.clusters[r.cluster as int];
    lemma_visit(dag, v);
    lemma_visit(later, w);
    assert(alike(dag, later, labels + s.cluster, labels + r.cluster));
    assert(s.cluster < dag.clusters.len());
    assert(d.merge_type == c.merge_type);
    assert(alike(dag, later, c.first_child as int, d.first_child as int));
    assert(alike(dag, later, c.second_child as int, d.second_child as int));
    lemma_entry_alike(dag, later, v, w, c.first_child, d.first_child);
    lemma_entry_alike(dag, later, v, w, c.second_child, d.second_child);
    let a = visited(dag, v);
    let b = visited(later, w);
    assert(b.structure == a.structure);
    assert(b.slots == a.slots);
    assert(b.merge_types == a.merge_types);
    assert(b.stack.len() == a.stack.len());
    assert forall|f: int| 0 <= f < a.stack.len() implies (#[trigger] b.stack[f]).stage
        == a.stack[f].stage && b.stack[f].own == a.stack[f].own && alike(
        dag,
        later,
        labels + a.stack[f].cluster,
        labels + b.stack[f].cluster,
    ) by {
        if f < top {
            assert(a.stack[f] == v.stack[f]);
            assert(b.stack[f] == w.stack[f]);
        }
    }
    assert forall|x: int, y: int|
        #[trigger] alike(dag, later, x, y) && labels <= x < dag.ids() && labels <= y
            < later.ids() implies b.cluster_pointer[y - labels] == a.cluster_pointer[x - labels] by {
        assert(w.cluster_pointer[y - labels] == v.cluster_pointer[x - labels]);
        if x == labels + s.cluster {
            lemma_alike_same(dag, later, x, y, labels + r.cluster);
        }
        if y == labels + r.cluster {
            lemma_alike_one(dag, later, x, labels + s.cluster, y);
        }
    }
}

/// Two walks that are in step end in step, with nothing left on their
/// stacks.
proof fn lemma_walked_alike(dag: Dag, later: Dag, v: WalkView, w: WalkView, fuel: nat, other: nat)
    requires
        side_by_side(dag, later, v, w),
        fuel >= work_ahead(v.stack),
        other >= work_ahead(w.stack),
    ensures
        in_step(dag, later, walked(dag, v, fuel), walked(later, w, other)),
    decreases fuel,
{
    if v.stack.len() > 0 {
        lemma_step_alike(dag, later, v, w);
        lemma_walked_alike(
            dag,
            later,
            visited(dag, v),
            visited(later, w),
            (fuel - 1) as nat,
            (other - 1) as nat,
        );
    }
}

/// A table that is built as another from the root down is written as
/// the other.
pub proof fn lemma_same_flat(dag: Dag, later: Dag, root: int, other: int)
    requires
        dag.wf(),
        later.wf(),
        dag.canonical(),
        later.canonical(),
        later.labels == dag.labels,
        dag.ids() <= usize::MAX,
        later.ids() <= usize::MAX,
        0 <= root < dag.ids(),
        alike(dag, later, root, other),
    ensures
        flat_of(later, other) == flat_of(dag, root),
{
    if root >= dag.labels.len() {
        let v = start_of(dag, root);
        let w = start_of(later, other);
        lemma_start_walks(dag, root);
        lemma_start_walks(later, other);
        assert(in_step(dag, later, v, w));
        lemma_walked_alike(dag, later, v, w, work_ahead(v.stack), work_ahead(w.stack));
    }
}

} // verus!
