//! Why the flat form that a walk has written decodes to clusters that
//! stand for the same trees as the clusters that were walked.

use vstd::prelude::*;
use crate::dag::{added, lemma_expand_extends, lemma_with_keeps_table, Dag};
use crate::flat::{
    decode, decode_at, decode_child, finish, resolve, zeros_before, Decoding, Flat, Resolved,
};
use crate::io_tree::Tree;
use crate::reach::{lemma_reaches_below, reaches};
use crate::structs::{Cluster, MergeType};
use crate::traverse::{begins, names, recorded, right_of, sized, Trace};

verus! {

/// The entries of a flat form at the places of their bits.
pub open spec fn entries(flat: Flat) -> Seq<Option<usize>> {
    Seq::new(
        flat.structure.len(),
        |pos: int|
            if flat.structure[pos] || zeros_before(flat.structure, pos) >= flat.pointer.len() {
                None
            } else {
                Some(flat.pointer[zeros_before(flat.structure, pos) as int])
            },
    )
}

/// The flat form is what a finished walk from `root` through `dag` has
/// written, and `t` is what the walk has found out: it met every cluster
/// once and finished the root last.
pub open spec fn encodes(dag: Dag, root: usize, flat: Flat, t: Trace) -> bool {
    &&& dag.wf()
    &&& dag.canonical()
    &&& t.finished[0] + 1 == t.done
    &&& forall|i: int, j: int|
        0 <= i < j < t.place.len() ==> #[trigger] t.place[i] != #[trigger] t.place[j]
    &&& flat.labels == dag.labels.len()
    &&& flat.labels + flat.merge_types.len() <= usize::MAX
    &&& sized(t)
    &&& t.place.len() == flat.merge_types.len()
    &&& t.done == flat.merge_types.len()
    &&& flat.merge_types.len() >= 1
    &&& flat.structure.len() == 2 * flat.merge_types.len()
    &&& root >= dag.labels.len()
    &&& t.place[0] == root - dag.labels.len()
    &&& forall|i: int| 0 <= i < t.place.len() ==> #[trigger] t.stage[i] == 3
    &&& forall|i: int|
        0 <= i < t.place.len() ==> #[trigger] recorded(
            dag,
            t,
            flat.structure,
            entries(flat),
            flat.merge_types,
            i,
        )
    &&& forall|i: int, j: int|
        0 <= i < j < t.place.len() ==> #[trigger] t.finished[i] != #[trigger] t.finished[j]
}

/// The id `id` of `later` is built as the id `source` of `dag` is: both
/// are the same label, or both are clusters of the same merge type whose
/// first children are built alike, and whose second children are.
pub open spec fn alike(dag: Dag, later: Dag, source: int, id: int) -> bool
    decreases source,
{
    if source < dag.labels.len() {
        id == source
    } else {
        &&& source < dag.ids()
        &&& later.labels.len() <= id < later.ids()
        &&& ({
            let c = dag.clusters[source - dag.labels.len()];
            let d = later.clusters[id - later.labels.len()];
            &&& d.merge_type == c.merge_type
            &&& c.first_child < source
            &&& c.second_child < source
            &&& alike(dag, later, c.first_child as int, d.first_child as int)
            &&& alike(dag, later, c.second_child as int, d.second_child as int)
        })
    }
}

/// What is built alike stays so when clusters are appended.
pub proof fn lemma_alike_grows(dag: Dag, before: Dag, after: Dag, source: int, id: int)
    requires
        after.labels == before.labels,
        before.clusters.is_prefix_of(after.clusters),
        alike(dag, before, source, id),
    ensures
        alike(dag, after, source, id),
    decreases source,
{
    if source >= dag.labels.len() {
        let c = dag.clusters[source - dag.labels.len()];
        let d = before.clusters[id - before.labels.len()];
        assert(after.clusters[id - after.labels.len()] == d);
        lemma_alike_grows(dag, before, after, c.first_child as int, d.first_child as int);
        lemma_alike_grows(dag, before, after, c.second_child as int, d.second_child as int);
    }
}

/// Ids of two tables without duplicates that are built alike from one id
/// are one id.
pub proof fn lemma_alike_one(dag: Dag, later: Dag, first: int, second: int, id: int)
    requires
        dag.canonical(),
        later.labels.len() == dag.labels.len(),
        alike(dag, later, first, id),
        alike(dag, later, second, id),
        0 <= first,
        0 <= second,
    ensures
        first == second,
    decreases first,
{
    if first >= dag.labels.len() && second >= dag.labels.len() {
        let c = dag.clusters[first - dag.labels.len()];
        let e = dag.clusters[second - dag.labels.len()];
        let d = later.clusters[id - later.labels.len()];
        lemma_alike_one(dag, later, c.first_child as int, e.first_child as int, d.first_child as int);
        lemma_alike_one(dag, later, c.second_child as int, e.second_child as int, d.second_child as int);
        assert(c == e);
    }
}

/// The id `id` of `later` stands for the same trees as the id `source`
/// of `dag`, whatever hangs below, and is built as it is: cluster for
/// cluster and label for label.
pub open spec fn stands_for(dag: Dag, later: Dag, id: usize, source: int) -> bool {
    &&& id < later.ids()
    &&& forall|kids: Seq<Tree>| #[trigger] later.expand(id as int, kids) == dag.expand(source, kids)
    &&& alike(dag, later, source, id as int)
}

/// The clusters of a decode under the labels of `dag`.
pub open spec fn decoded_dag(dag: Dag, state: Decoding) -> Dag {
    Dag { labels: dag.labels, clusters: state.clusters }
}

/// The decode is in order with respect to the walk: its clusters are a
/// well-formed table without duplicates, and every id that it has given
/// out stands for the cluster that the walk had at that place.
pub open spec fn good(dag: Dag, flat: Flat, t: Trace, state: Decoding) -> bool {
    &&& state.ids.len() == flat.merge_types.len()
    &&& decoded_dag(dag, state).wf()
    &&& decoded_dag(dag, state).canonical()
    &&& forall|j: int|
        0 <= j < state.ids.len() ==> ((#[trigger] state.ids[j]) matches Some(id) ==> stands_for(
            dag,
            decoded_dag(dag, state),
            id,
            dag.labels.len() + t.place[j],
        ))
}

/// The decode `after` has all that `before` had: the same clusters at the
/// beginning, and an id wherever `before` had given one out.
pub open spec fn grown(before: Decoding, after: Decoding) -> bool {
    &&& before.clusters.is_prefix_of(after.clusters)
    &&& before.ids.len() == after.ids.len()
    &&& forall|j: int|
        0 <= j < before.ids.len() ==> ((#[trigger] before.ids[j]) is Some ==> after.ids[j] is Some)
}

/// Every cluster that was finished before `before` clusters were has its
/// id.
pub open spec fn known(t: Trace, state: Decoding, before: int) -> bool {
    forall|j: int|
        0 <= j < t.place.len() && t.finished[j] < before ==> (#[trigger] state.ids[j]) is Some
}

/// An id stands for the same when clusters are appended.
proof fn lemma_stands_grows(dag: Dag, before: Dag, after: Dag, id: usize, source: int)
    requires
        after.extends(before),
        after.labels == before.labels,
        stands_for(dag, before, id, source),
    ensures
        stands_for(dag, after, id, source),
{
    lemma_alike_grows(dag, before, after, source, id as int);
    assert forall|kids: Seq<Tree>| #[trigger] after.expand(id as int, kids) == dag.expand(
        source,
        kids,
    ) by {
        lemma_expand_extends(before, after, id as int, kids);
        assert(before.expand(id as int, kids) == dag.expand(source, kids));
    }
}

/// A merge type is the one that its number stands for.
proof fn lemma_code_round(shape: MergeType)
    ensures
        MergeType::of_code(shape.code()) == shape,
{
}

/// A child that is written as an entry resolves to an id that stands for
/// it.
proof fn lemma_entry_resolves(
    dag: Dag,
    flat: Flat,
    t: Trace,
    state: Decoding,
    pos: nat,
    child: usize,
    before: nat,
)
    requires
        good(dag, flat, t, state),
        flat.labels == dag.labels.len(),
        dag.wf(),
        t.place.len() == flat.merge_types.len(),
        pos < flat.structure.len(),
        !flat.structure[pos as int],
        child < dag.ids(),
        names(dag, t, entries(flat)[pos as int], child, before),
        known(t, state, before as int),
    ensures
        resolve(flat, pos, state) is Some,
        stands_for(dag, decoded_dag(dag, state), resolve(flat, pos, state)->0, child as int),
{
    let later = decoded_dag(dag, state);
    let labels = dag.labels.len();
    let rank = zeros_before(flat.structure, pos as int);
    assert(entries(flat)[pos as int] is Some);
    assert(rank < flat.pointer.len());
    let entry = flat.pointer[rank as int];
    assert(entries(flat)[pos as int] == Some(entry));
    if child < labels {
        assert(entry == child);
        assert forall|kids: Seq<Tree>| #[trigger] later.expand(child as int, kids) == dag.expand(
            child as int,
            kids,
        ) by {}
    } else {
        let at = entry - labels;
        assert(state.ids[at] is Some);
    }
}

/// The cluster of two ids that stand for the children of a cluster of the
/// walk stands for that cluster, once it is looked up or added.
#[verifier::rlimit(30)]
proof fn lemma_finish_stands(
    dag: Dag,
    flat: Flat,
    t: Trace,
    state: Decoding,
    i: int,
    first: usize,
    second: usize,
)
    requires
        good(dag, flat, t, state),
        dag.wf(),
        flat.labels == dag.labels.len(),
        0 <= i < flat.merge_types.len(),
        t.place.len() == flat.merge_types.len(),
        t.place[i] < dag.clusters.len(),
        flat.merge_types[i] == dag.clusters[t.place[i] as int].merge_type.code(),
        stands_for(dag, decoded_dag(dag, state), first, dag.clusters[t.place[i] as int].first_child as int),
        stands_for(
            dag,
            decoded_dag(dag, state),
            second,
            dag.clusters[t.place[i] as int].second_child as int,
        ),
        flat.labels + state.clusters.len() + 1 <= usize::MAX,
    ensures
        ({
            let done = finish(flat, i as nat, state, first, second);
            &&& good(dag, flat, t, done.state)
            &&& grown(state, done.state)
            &&& done.state.ids[i] == Some(done.id)
            &&& done.state.next == state.next
            &&& done.state.clusters.len() <= state.clusters.len() + 1
            &&& forall|j: int| 0 <= j < state.ids.len() && j != i ==> done.state.ids[j] == state.ids[j]
        }),
{
    let labels = dag.labels.len();
    let c = dag.clusters[t.place[i] as int];
    let source = labels + t.place[i];
    let before = decoded_dag(dag, state);
    lemma_code_round(c.merge_type);
    let cluster = Cluster { merge_type: c.merge_type, first_child: first, second_child: second };
    let done = finish(flat, i as nat, state, first, second);
    let after = decoded_dag(dag, done.state);
    lemma_with_keeps_table(before, cluster);
    assert(after == before.with(cluster));
    assert(after.clusters.contains(cluster));
    let at = after.clusters.index_of(cluster);
    assert(after.clusters[at] == cluster);
    assert(done.id == labels + at);
    assert(first < done.id && second < done.id);
    assert(c.first_child < source && c.second_child < source);
    lemma_alike_grows(dag, before, after, c.first_child as int, first as int);
    lemma_alike_grows(dag, before, after, c.second_child as int, second as int);
    assert(alike(dag, after, source, done.id as int));
    assert forall|kids: Seq<Tree>| #[trigger] after.expand(done.id as int, kids) == dag.expand(
        source,
        kids,
    ) by {
        lemma_stands_grows(dag, before, after, first, c.first_child as int);
        lemma_stands_grows(dag, before, after, second, c.second_child as int);
        let empty = Seq::<Tree>::empty();
        assert(after.expand(second as int, kids) == dag.expand(c.second_child as int, kids));
        assert(after.expand(second as int, empty) == dag.expand(c.second_child as int, empty));
        assert(after.expand(first as int, kids) == dag.expand(c.first_child as int, kids));
        assert(after.expand(first as int, empty) == dag.expand(c.first_child as int, empty));
        assert(after.expand(first as int, after.expand(second as int, kids)) == dag.expand(
            c.first_child as int,
            after.expand(second as int, kids),
        ));
    }
    assert forall|j: int| 0 <= j < done.state.ids.len() implies ((
    #[trigger] done.state.ids[j]) matches Some(id) ==> stands_for(
        dag,
        after,
        id,
        labels + t.place[j],
    )) by {
        if j != i {
            assert(done.state.ids[j] == state.ids[j]);
            if state.ids[j] is Some {
                lemma_stands_grows(dag, before, after, state.ids[j]->0, labels + t.place[j]);
            }
        } else {
            assert(stands_for(dag, after, done.id, source));
        }
    }
    assert(grown(state, done.state));
}

/// How many clusters are finished once the child at a bit is dealt with:
/// one more than when the cluster below was finished, if the bit is true,
/// else as many as before.
pub open spec fn finished_after(flat: Flat, t: Trace, pos: int, below: int, before: nat) -> nat {
    if flat.structure[pos] {
        t.finished[below] + 1
    } else {
        before
    }
}

/// What a decode comes to when it has dealt with an item: the decode is in
/// order, has all it had, has begun as many clusters as are finished or
/// open, knows every finished cluster, and the item's id stands for
/// `source`.
pub open spec fn comes_to(
    dag: Dag,
    flat: Flat,
    t: Trace,
    state: Decoding,
    found: Option<Resolved>,
    finished: nat,
    open: nat,
    source: int,
) -> bool {
    &&& found is Some
    &&& good(dag, flat, t, found->0.state)
    &&& grown(state, found->0.state)
    &&& found->0.state.next == finished + open
    &&& known(t, found->0.state, finished as int)
    &&& found->0.state.clusters.len() <= finished
    &&& stands_for(dag, decoded_dag(dag, found->0.state), found->0.id, source)
}

/// Decoding the child at bit `pos` of cluster `i` comes to what the walk
/// wrote there.
#[verifier::rlimit(30)]
proof fn lemma_child_decodes(
    dag: Dag,
    root: usize,
    flat: Flat,
    t: Trace,
    i: int,
    pos: int,
    state: Decoding,
    child: usize,
    below: int,
    before: nat,
)
    requires
        encodes(dag, root, flat, t),
        0 <= i < flat.merge_types.len(),
        pos == 2 * i || pos == 2 * i + 1,
        child < dag.ids(),
        good(dag, flat, t, state),
        i == t.entered[i] + t.depth[i],
        t.entered[i] <= before,
        state.next == before + t.depth[i] + 1,
        known(t, state, before as int),
        state.clusters.len() <= before,
        if flat.structure[pos] {
            below == state.next && begins(dag, t, i, below, child, before)
        } else {
            names(dag, t, entries(flat)[pos], child, before)
        },
    ensures
        comes_to(
            dag,
            flat,
            t,
            state,
            decode_child(flat, pos as nat, state),
            finished_after(flat, t, pos, below, before),
            t.depth[i] + 1,
            child as int,
        ),
        finished_after(flat, t, pos, below, before) >= before,
    decreases flat.merge_types.len() - i, 0nat,
{
    if flat.structure[pos] {
        let begun = Decoding { clusters: state.clusters, ids: state.ids, next: state.next + 1 };
        assert(recorded(dag, t, flat.structure, entries(flat), flat.merge_types, below));
        lemma_cluster_decodes(dag, root, flat, t, below, begun);
        assert(decode_child(flat, pos as nat, state) == decode_at(flat, below as nat, begun));
    } else {
        lemma_entry_resolves(dag, flat, t, state, pos as nat, child, before);
    }
}

/// Decoding cluster `i` of the flat form comes to the cluster that the
/// walk had at that place.
#[verifier::rlimit(30)]
proof fn lemma_cluster_decodes(dag: Dag, root: usize, flat: Flat, t: Trace, i: int, state: Decoding)
    requires
        encodes(dag, root, flat, t),
        0 <= i < flat.merge_types.len(),
        good(dag, flat, t, state),
        state.next == i + 1,
        known(t, state, t.entered[i] as int),
        state.clusters.len() <= t.entered[i],
    ensures
        comes_to(
            dag,
            flat,
            t,
            state,
            decode_at(flat, i as nat, state),
            t.finished[i] + 1,
            t.depth[i],
            dag.labels.len() + t.place[i],
        ),
        t.finished[i] >= t.entered[i],
    decreases flat.merge_types.len() - i, 1nat,
{
    let labels = dag.labels.len();
    let c = dag.clusters[t.place[i] as int];
    assert(recorded(dag, t, flat.structure, entries(flat), flat.merge_types, i));
    assert(c.first_child < labels + t.place[i] && c.second_child < labels + t.place[i]);
    // the first child
    lemma_child_decodes(dag, root, flat, t, i, 2 * i, state, c.first_child, i + 1, t.entered[i]);
    let first = decode_child(flat, (2 * i) as nat, state)->0;
    assert(finished_after(flat, t, 2 * i, i + 1, t.entered[i]) == t.halfway[i]);
    // the second child
    lemma_child_decodes(
        dag,
        root,
        flat,
        t,
        i,
        2 * i + 1,
        first.state,
        c.second_child,
        right_of(t, i),
        t.halfway[i],
    );
    let second = decode_child(flat, (2 * i + 1) as nat, first.state)->0;
    assert(finished_after(flat, t, 2 * i + 1, right_of(t, i), t.halfway[i]) == t.finished[i]);
    lemma_stands_grows(
        dag,
        decoded_dag(dag, first.state),
        decoded_dag(dag, second.state),
        first.id,
        c.first_child as int,
    );
    // the cluster itself
    assert(t.finished[i] < t.done);
    lemma_finish_stands(dag, flat, t, second.state, i, first.id, second.id);
    let done = finish(flat, i as nat, second.state, first.id, second.id);
    assert(decode_at(flat, i as nat, state) == Some(done));
    assert(known(t, done.state, (t.finished[i] + 1) as int)) by {
        assert forall|j: int| 0 <= j < t.place.len() && t.finished[j] < t.finished[i] + 1 implies (
        #[trigger] done.state.ids[j]) is Some by {
            if j != i {
                if j < i {
                    assert(t.finished[j] != t.finished[i]);
                } else {
                    assert(t.finished[i] != t.finished[j]);
                }
                assert(second.state.ids[j] is Some);
            }
        }
    }
    assert(grown(state, done.state)) by {
        assert forall|j: int| 0 <= j < state.ids.len() && (#[trigger] state.ids[j]) is Some implies done.state.ids[j] is Some by {
            assert(first.state.ids[j] is Some);
            assert(second.state.ids[j] is Some);
        }
    }
}

/// Every merge type that a walk has written is one of the three.
pub proof fn lemma_codes_small(dag: Dag, root: usize, flat: Flat, t: Trace)
    requires
        encodes(dag, root, flat, t),
    ensures
        forall|i: int| 0 <= i < flat.merge_types.len() ==> #[trigger] flat.merge_types[i] < 3,
{
    assert forall|i: int| 0 <= i < flat.merge_types.len() implies #[trigger] flat.merge_types[i]
        < 3 by {
        assert(t.stage[i] == 3);
        assert(recorded(dag, t, flat.structure, entries(flat), flat.merge_types, i));
    }
}

/// A walk has met every cluster that a cluster which it met reaches.
proof fn lemma_walk_meets(dag: Dag, root: usize, flat: Flat, t: Trace, i: int, c: int)
    requires
        encodes(dag, root, flat, t),
        0 <= i < t.place.len(),
        dag.labels.len() <= c,
        reaches(dag, dag.labels.len() + t.place[i], c),
    ensures
        exists|k: int| 0 <= k < t.place.len() && #[trigger] t.place[k] == c - dag.labels.len(),
    decreases t.place[i],
{
    let from = dag.labels.len() + t.place[i];
    assert(t.stage[i] == 3);
    assert(recorded(dag, t, flat.structure, entries(flat), flat.merge_types, i));
    if from == c {
        assert(t.place[i] == c - dag.labels.len());
    } else {
        let cluster = dag.clusters[t.place[i] as int];
        if cluster.first_child < from && reaches(dag, cluster.first_child as int, c) {
            lemma_reaches_below(dag, cluster.first_child as int, c);
            let below = if flat.structure[2 * i] {
                i + 1
            } else {
                entries(flat)[2 * i]->0 - dag.labels.len()
            };
            assert(0 <= below < t.place.len());
            assert(t.place[below] == cluster.first_child - dag.labels.len());
            lemma_walk_meets(dag, root, flat, t, below, c);
        } else {
            lemma_reaches_below(dag, cluster.second_child as int, c);
            let below = if flat.structure[2 * i + 1] {
                right_of(t, i)
            } else {
                entries(flat)[2 * i + 1]->0 - dag.labels.len()
            };
            assert(0 <= below < t.place.len());
            assert(t.place[below] == cluster.second_child - dag.labels.len());
            lemma_walk_meets(dag, root, flat, t, below, c);
        }
    }
}

/// The number `x` stands in the row.
pub open spec fn among(items: Seq<usize>, x: int) -> bool {
    exists|k: int| 0 <= k < items.len() && #[trigger] items[k] == x
}

/// A row that holds every number below `bound` is `bound` long at least.
proof fn lemma_all_below(items: Seq<usize>, bound: nat)
    requires
        forall|x: int| 0 <= x < bound ==> #[trigger] among(items, x),
    ensures
        items.len() >= bound,
    decreases bound,
{
    if bound > 0 {
        let top = bound - 1;
        assert(among(items, top));
        let at = choose|k: int| 0 <= k < items.len() && #[trigger] items[k] == top;
        let others = items.remove(at);
        assert forall|x: int| 0 <= x < bound - 1 implies #[trigger] among(others, x) by {
            assert(among(items, x));
            let k = choose|k: int| 0 <= k < items.len() && #[trigger] items[k] == x;
            if k < at {
                assert(others[k] == items[k]);
            } else {
                assert(k != at);
                assert(others[k - 1] == items[k]);
            }
        }
        lemma_all_below(others, (bound - 1) as nat);
    }
}

/// A walk from a root that reaches every cluster of the table has
/// written a merge type for every cluster.
pub proof fn lemma_walk_meets_all(dag: Dag, root: usize, flat: Flat, t: Trace)
    requires
        encodes(dag, root, flat, t),
        forall|c: int| dag.labels.len() <= c < dag.ids() ==> #[trigger] reaches(dag, root as int, c),
    ensures
        flat.merge_types.len() >= dag.clusters.len(),
{
    assert forall|x: int| 0 <= x < dag.clusters.len() implies #[trigger] among(t.place, x) by {
        let c = dag.labels.len() + x;
        assert(reaches(dag, root as int, c));
        lemma_walk_meets(dag, root, flat, t, 0, c);
    }
    lemma_all_below(t.place, dag.clusters.len());
}

/// The flat form that a walk has written decodes, and the root that it
/// decodes to stands for the same trees as the root of the walk.
pub proof fn lemma_walk_decodes(dag: Dag, root: usize, flat: Flat, t: Trace)
    requires
        encodes(dag, root, flat, t),
    ensures
        decode(flat) is Some,
        stands_for(
            dag,
            Dag { labels: dag.labels, clusters: decode(flat)->0.clusters },
            decode(flat)->0.root,
            root as int,
        ),
        (Dag { labels: dag.labels, clusters: decode(flat)->0.clusters }).wf(),
        (Dag { labels: dag.labels, clusters: decode(flat)->0.clusters }).canonical(),
        decode(flat)->0.clusters.len() == flat.merge_types.len(),
{
    let start = Decoding {
        clusters: Seq::empty(),
        ids: Seq::new(flat.merge_types.len(), |i: int| None::<usize>),
        next: 1,
    };
    assert(recorded(dag, t, flat.structure, entries(flat), flat.merge_types, 0));
    assert(good(dag, flat, t, start));
    lemma_cluster_decodes(dag, root, flat, t, 0, start);
    let end = decode_at(flat, 0, start)->0.state;
    let later = decoded_dag(dag, end);
    let labels = dag.labels.len();
    let count = flat.merge_types.len();
    assert forall|j: int| 0 <= j < count implies (#[trigger] end.ids[j]) is Some && stands_for(
        dag,
        later,
        end.ids[j]->0,
        labels + t.place[j],
    ) by {
        assert(t.stage[j] == 3);
        assert(recorded(dag, t, flat.structure, entries(flat), flat.merge_types, j));
        assert(t.finished[j] < t.finished[0] + 1);
    }
    let items = Seq::new(count, |j: int| (end.ids[j]->0 - labels) as usize);
    assert forall|i: int| 0 <= i < items.len() implies #[trigger] items[i] < end.clusters.len() by {
        assert(end.ids[i] is Some);
        assert(recorded(dag, t, flat.structure, entries(flat), flat.merge_types, i));
        assert(alike(dag, later, labels + t.place[i], end.ids[i]->0 as int));
    }
    assert forall|i: int, j: int| 0 <= i < j < items.len() implies items[i] != items[j] by {
        assert(end.ids[i] is Some && end.ids[j] is Some);
        assert(alike(dag, later, labels + t.place[i], end.ids[i]->0 as int));
        assert(alike(dag, later, labels + t.place[j], end.ids[j]->0 as int));
        assert(recorded(dag, t, flat.structure, entries(flat), flat.merge_types, i));
        assert(recorded(dag, t, flat.structure, entries(flat), flat.merge_types, j));
        if items[i] == items[j] {
            assert(end.ids[i]->0 == end.ids[j]->0);
            lemma_alike_one(dag, later, labels + t.place[i], labels + t.place[j], end.ids[i]->0 as int);
            assert(t.place[i] != t.place[j]);
        }
    }
    crate::traverse::lemma_distinct_below(items, end.clusters.len());
}

} // verus!
