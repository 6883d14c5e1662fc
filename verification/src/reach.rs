//! What the records of the arena reach in the table: every cluster lies
//! below the id of a record that hangs in the arena, so that the id the
//! tree comes down to is the last one.

use vstd::prelude::*;
use crate::dag::Dag;
use crate::forest::{target_after, target_id, target_live, valid, ArenaView};
use crate::merge_proofs::{after_ab, after_absorb, can_absorb, can_contract, with_last, with_swapped};
use crate::structs::{Cluster, Target};

verus! {

/// `to` is `from`, or a child of `from`, or a child of a child, and so on.
pub open spec fn reaches(dag: Dag, from: int, to: int) -> bool
    decreases from,
{
    from == to || (dag.labels.len() <= from < dag.ids() && {
        let c = dag.clusters[from - dag.labels.len()];
        (c.first_child < from && reaches(dag, c.first_child as int, to)) || (c.second_child < from
            && reaches(dag, c.second_child as int, to))
    })
}

/// What an id reaches is not above it.
pub proof fn lemma_reaches_below(dag: Dag, from: int, to: int)
    requires
        reaches(dag, from, to),
    ensures
        to <= from,
    decreases from,
{
    if from != to {
        let c = dag.clusters[from - dag.labels.len()];
        if c.first_child < from && reaches(dag, c.first_child as int, to) {
            lemma_reaches_below(dag, c.first_child as int, to);
        } else {
            lemma_reaches_below(dag, c.second_child as int, to);
        }
    }
}

/// What an id reaches it reaches in a table with more clusters.
pub proof fn lemma_reaches_later(dag: Dag, later: Dag, from: int, to: int)
    requires
        later.labels == dag.labels,
        dag.clusters.is_prefix_of(later.clusters),
        reaches(dag, from, to),
    ensures
        reaches(later, from, to),
    decreases from,
{
    if from != to {
        let c = dag.clusters[from - dag.labels.len()];
        assert(later.clusters[from - dag.labels.len()] == c);
        if c.first_child < from && reaches(dag, c.first_child as int, to) {
            lemma_reaches_later(dag, later, c.first_child as int, to);
        } else {
            lemma_reaches_later(dag, later, c.second_child as int, to);
        }
    }
}

/// The record `t` hangs in slot `j` of the live node `n`.
pub open spec fn hangs(a: ArenaView, t: Target, n: int, j: int) -> bool {
    &&& 0 <= n < a.nodes.len()
    &&& !a.nodes[n].deleted
    &&& a.nodes[n].first_child <= j < a.nodes[n].last_child
    &&& 0 <= j < a.edges.len()
    &&& !a.edges[j].deleted
    &&& a.edges[j].index == t
}

/// The record `t` hangs in a slot of a live node.
pub open spec fn held(a: ArenaView, t: Target) -> bool {
    exists|n: int, j: int| hangs(a, t, n, j)
}

/// Every live record but the synthetic root hangs in a slot of a live
/// node.
pub open spec fn no_orphans(a: ArenaView) -> bool {
    forall|t: Target| target_live(a, t) && t != Target::NodeRef(0) ==> #[trigger] held(a, t)
}

/// The live record `t`, not the synthetic root, reaches `c`.
pub open spec fn covers(a: ArenaView, dag: Dag, t: Target, c: int) -> bool {
    &&& target_live(a, t)
    &&& t != Target::NodeRef(0)
    &&& reaches(dag, target_id(a, t) as int, c)
}

/// A live record other than the synthetic root reaches `c`.
pub open spec fn covered(a: ArenaView, dag: Dag, c: int) -> bool {
    exists|t: Target| covers(a, dag, t, c)
}

/// Every cluster of the table is reached by a live record.
pub open spec fn all_covered(a: ArenaView, dag: Dag) -> bool {
    forall|c: int| dag.labels.len() <= c < dag.ids() ==> #[trigger] covered(a, dag, c)
}

/// A node with a live edge among its slots is live.
pub open spec fn live_holders(a: ArenaView) -> bool {
    forall|n: int, j: int|
        #![trigger a.nodes[n], a.edges[j]]
        0 <= n < a.nodes.len() && a.nodes[n].first_child <= j < a.nodes[n].last_child && j
            < a.edges.len() && !a.edges[j].deleted ==> !a.nodes[n].deleted
}

/// The live records hang together: none but the synthetic root is
/// without a live node that holds it, and no deleted node holds any.
pub open spec fn tree_like(a: ArenaView) -> bool {
    &&& no_orphans(a)
    &&& live_holders(a)
}

/// No record is out of the tree, and no cluster out of reach of the
/// records.
pub open spec fn rooted(a: ArenaView, dag: Dag) -> bool {
    &&& tree_like(a)
    &&& all_covered(a, dag)
}

/// The synthetic root has one slot, and a leaf hangs in it.
pub open spec fn come_down(a: ArenaView) -> bool {
    &&& !a.nodes[0].deleted
    &&& a.nodes[0].first_child + 1 == a.nodes[0].last_child
    &&& !a.edges[a.nodes[0].first_child as int].deleted
    &&& a.edges[a.nodes[0].first_child as int].index is LeafRef
}

/// Once the tree has come down to a leaf, no node but the synthetic root
/// is live.
pub proof fn lemma_root_alone(a: ArenaView, ids: int, m: usize)
    requires
        valid(a, ids),
        no_orphans(a),
        come_down(a),
        m < a.nodes.len(),
        !a.nodes[m as int].deleted,
    ensures
        m == 0,
    decreases m,
{
    if m != 0 {
        let t = Target::NodeRef(m);
        assert(target_live(a, t));
        assert(held(a, t));
        let (n, j) = choose|n: int, j: int| hangs(a, t, n, j);
        assert(a.nodes[n].first_child <= j < a.nodes[n].last_child);
        assert(target_after(a.edges[j].index, n));
        lemma_root_alone(a, ids, n as usize);
    }
}

/// The records reach what they reached when record `k` takes the place
/// of itself and of record `g` and carries the cluster of the two.
pub proof fn lemma_merged_covered(
    a: ArenaView,
    b: ArenaView,
    dag: Dag,
    later: Dag,
    cluster: Cluster,
    c: usize,
    k: Target,
    g: Target,
)
    requires
        all_covered(a, dag),
        later.wf(),
        later.canonical(),
        later == dag.with(cluster),
        later.labels.len() <= c < later.ids(),
        later.clusters[c - later.labels.len()] == cluster,
        k != Target::NodeRef(0),
        (cluster.first_child == target_id(a, k) && cluster.second_child == target_id(a, g)) || (
        cluster.first_child == target_id(a, g) && cluster.second_child == target_id(a, k)),
        target_live(b, k),
        target_id(b, k) == c,
        forall|t: Target|
            #[trigger] target_live(a, t) && t != g && t != k ==> target_live(b, t) && target_id(b, t)
                == target_id(a, t),
    ensures
        all_covered(b, later),
{
    assert forall|x: int| later.labels.len() <= x < later.ids() implies #[trigger] covered(
        b,
        later,
        x,
    ) by {
        assert(cluster.first_child < c && cluster.second_child < c);
        if x < dag.ids() {
            assert(covered(a, dag, x));
            let t = choose|t: Target| covers(a, dag, t, x);
            lemma_reaches_later(dag, later, target_id(a, t) as int, x);
            if t == k || t == g {
                assert(reaches(later, c as int, x));
                assert(covers(b, later, k, x));
            } else {
                assert(target_live(a, t));
                assert(covers(b, later, t, x));
            }
        } else {
            assert(later.clusters[x - later.labels.len()] == cluster);
            assert(x == c);
            assert(covers(b, later, k, x));
        }
    }
}

/// The records hang together as before when a leaf is absorbed.
pub proof fn lemma_absorb_tree_like(a: ArenaView, ids: int, p: int, keep: int, gone: int, c: usize)
    requires
        valid(a, ids),
        tree_like(a),
        can_absorb(a, p, keep, gone),
    ensures
        tree_like(after_absorb(a, keep, gone, c)),
{
    let b = after_absorb(a, keep, gone, c);
    let g = a.edges[gone].index;
    assert(b.nodes.len() == a.nodes.len());
    assert forall|n: int| 0 <= n < a.nodes.len() implies (#[trigger] b.nodes[n]).deleted
        == a.nodes[n].deleted && b.nodes[n].first_child == a.nodes[n].first_child
        && b.nodes[n].last_child == a.nodes[n].last_child by {}
    assert forall|t: Target| target_live(b, t) && t != Target::NodeRef(0) implies #[trigger] held(
        b,
        t,
    ) by {
        assert(target_live(a, t));
        assert(t != g);
        assert(held(a, t));
        let (n, j) = choose|n: int, j: int| hangs(a, t, n, j);
        assert(j != gone);
        assert(b.edges[j] == a.edges[j]);
        assert(!b.nodes[n].deleted);
        assert(hangs(b, t, n, j));
    }
    assert forall|n: int, j: int|
        #![trigger b.nodes[n], b.edges[j]]
        0 <= n < b.nodes.len() && b.nodes[n].first_child <= j < b.nodes[n].last_child && j
            < b.edges.len() && !b.edges[j].deleted implies !b.nodes[n].deleted by {
        assert(!a.edges[j].deleted);
        assert(!a.nodes[n].deleted);
    }
}

/// The records hang together as before when a node is contracted into
/// its only child.
pub proof fn lemma_ab_tree_like(a: ArenaView, ids: int, p: int, e1: int, e2: int, c: usize)
    requires
        valid(a, ids),
        tree_like(a),
        can_contract(a, p, e1, e2),
    ensures
        tree_like(after_ab(a, e1, e2, c)),
{
    let b = after_ab(a, e1, e2, c);
    let m = a.edges[e1].index->NodeRef_0 as int;
    let gone = a.edges[e1].index;
    let r = a.edges[e2].index;
    assert(target_live(a, gone));
    assert(target_after(gone, p));
    assert(target_after(r, m));
    assert(!a.nodes[p].deleted);
    assert(b.nodes.len() == a.nodes.len());
    assert forall|n: int| 0 <= n < a.nodes.len() implies (#[trigger] b.nodes[n]).first_child
        == a.nodes[n].first_child && b.nodes[n].last_child == a.nodes[n].last_child && (n != m
        ==> b.nodes[n].deleted == a.nodes[n].deleted) by {}
    assert(e1 != e2) by {
        if e1 == e2 {
            assert(a.nodes[p].last_child <= a.nodes[m].first_child);
        }
    }
    assert forall|t: Target| target_live(b, t) && t != Target::NodeRef(0) implies #[trigger] held(
        b,
        t,
    ) by {
        assert(target_live(a, t));
        assert(t != gone);
        if t == r {
            assert(b.edges[e1] == a.edges[e2]);
            assert(hangs(b, t, p, e1));
        } else {
            assert(held(a, t));
            let (n, j) = choose|n: int, j: int| hangs(a, t, n, j);
            assert(j != e1 && j != e2);
            assert(n != m);
            assert(b.edges[j] == a.edges[j]);
            assert(hangs(b, t, n, j));
        }
    }
    assert forall|n: int, j: int|
        #![trigger b.nodes[n], b.edges[j]]
        0 <= n < b.nodes.len() && b.nodes[n].first_child <= j < b.nodes[n].last_child && j
            < b.edges.len() && !b.edges[j].deleted implies !b.nodes[n].deleted by {
        if j == e1 {
            assert(n == p) by {
                if n < p {
                    assert(a.nodes[n].last_child <= a.nodes[p].first_child);
                }
                if p < n {
                    assert(a.nodes[p].last_child <= a.nodes[n].first_child);
                }
            }
            assert(p != m);
        } else {
            assert(j != e2);
            assert(!a.edges[j].deleted);
            assert(!a.nodes[n].deleted);
            assert(n != m);
        }
    }
}

/// The records hang together as before when a live edge changes places
/// with a deleted one before it among the slots of one node.
pub proof fn lemma_swap_tree_like(a: ArenaView, ids: int, p: int, back: int, fore: int)
    requires
        valid(a, ids),
        tree_like(a),
        0 <= p < a.nodes.len(),
        a.nodes[p].first_child <= back < fore < a.nodes[p].last_child,
        a.edges[back].deleted,
        !a.edges[fore].deleted,
    ensures
        tree_like(with_swapped(a, back, fore)),
{
    let b = with_swapped(a, back, fore);
    assert(!a.nodes[p].deleted);
    assert forall|t: Target| target_live(b, t) && t != Target::NodeRef(0) implies #[trigger] held(
        b,
        t,
    ) by {
        assert(target_live(a, t));
        assert(held(a, t));
        let (n, j) = choose|n: int, j: int| hangs(a, t, n, j);
        if j == fore {
            assert(hangs(b, t, p, back));
        } else {
            assert(j != back);
            assert(b.edges[j] == a.edges[j]);
            assert(hangs(b, t, n, j));
        }
    }
    assert forall|n: int, j: int|
        #![trigger b.nodes[n], b.edges[j]]
        0 <= n < b.nodes.len() && b.nodes[n].first_child <= j < b.nodes[n].last_child && j
            < b.edges.len() && !b.edges[j].deleted implies !b.nodes[n].deleted by {
        if j == back {
            assert(n == p) by {
                if n < p {
                    assert(a.nodes[n].last_child <= a.nodes[p].first_child);
                }
                if p < n {
                    assert(a.nodes[p].last_child <= a.nodes[n].first_child);
                }
            }
        } else {
            assert(j != fore);
            assert(!a.edges[j].deleted);
            assert(!a.nodes[n].deleted);
        }
    }
}

/// The records hang together as before when the deleted edges at the end
/// of a node's slots are cut off.
pub proof fn lemma_cut_tree_like(a: ArenaView, ids: int, p: int, last: usize)
    requires
        valid(a, ids),
        tree_like(a),
        0 <= p < a.nodes.len(),
        a.nodes[p].first_child <= last <= a.nodes[p].last_child,
        forall|j: int| last <= j < a.nodes[p].last_child ==> (#[trigger] a.edges[j]).deleted,
    ensures
        tree_like(with_last(a, p, last)),
{
    let b = with_last(a, p, last);
    assert forall|t: Target| target_live(b, t) && t != Target::NodeRef(0) implies #[trigger] held(
        b,
        t,
    ) by {
        assert(target_live(a, t));
        assert(held(a, t));
        let (n, j) = choose|n: int, j: int| hangs(a, t, n, j);
        assert(hangs(b, t, n, j));
    }
    assert forall|n: int, j: int|
        #![trigger b.nodes[n], b.edges[j]]
        0 <= n < b.nodes.len() && b.nodes[n].first_child <= j < b.nodes[n].last_child && j
            < b.edges.len() && !b.edges[j].deleted implies !b.nodes[n].deleted by {
        assert(!a.edges[j].deleted);
        assert(a.nodes[n].first_child <= j < a.nodes[n].last_child);
        assert(!a.nodes[n].deleted);
    }
}

/// The records reach what they reached when no record has changed but in
/// its slots.
pub proof fn lemma_same_records_covered(a: ArenaView, b: ArenaView, dag: Dag)
    requires
        all_covered(a, dag),
        b.leafs == a.leafs,
        b.nodes.len() == a.nodes.len(),
        forall|n: int|
            0 <= n < a.nodes.len() ==> (#[trigger] b.nodes[n]).deleted == a.nodes[n].deleted
                && b.nodes[n].data == a.nodes[n].data,
    ensures
        all_covered(b, dag),
{
    assert forall|x: int| dag.labels.len() <= x < dag.ids() implies #[trigger] covered(b, dag, x) by {
        assert(covered(a, dag, x));
        let t = choose|t: Target| covers(a, dag, t, x);
        assert(covers(b, dag, t, x));
    }
}

/// Once the tree has come down to a leaf, the id of that leaf is the last
/// id of the table, if the table has a cluster.
pub proof fn lemma_root_is_last(a: ArenaView, dag: Dag)
    requires
        valid(a, dag.ids()),
        rooted(a, dag),
        come_down(a),
        a.nodes.len() <= usize::MAX,
        dag.clusters.len() > 0,
    ensures
        target_id(a, a.edges[a.nodes[0].first_child as int].index) + 1 == dag.ids(),
{
    let last = dag.ids() - 1;
    assert(covered(a, dag, last));
    let t = choose|t: Target| covers(a, dag, t, last);
    lemma_reaches_below(dag, target_id(a, t) as int, last);
    match t {
        Target::NodeRef(m) => {
            lemma_root_alone(a, dag.ids(), m);
        },
        Target::LeafRef(l) => {
            assert(a.leafs[l as int].data.id() < dag.ids());
            assert(held(a, t));
            let (n, j) = choose|n: int, j: int| hangs(a, t, n, j);
            lemma_root_alone(a, dag.ids(), n as usize);
        },
    }
}

/// Once the tree has come down to a leaf, the id of that leaf reaches
/// every cluster of the table.
pub proof fn lemma_root_reaches_all(a: ArenaView, dag: Dag)
    requires
        valid(a, dag.ids()),
        rooted(a, dag),
        come_down(a),
        a.nodes.len() <= usize::MAX,
    ensures
        forall|c: int|
            dag.labels.len() <= c < dag.ids() ==> #[trigger] reaches(
                dag,
                target_id(a, a.edges[a.nodes[0].first_child as int].index) as int,
                c,
            ),
{
    assert forall|c: int| dag.labels.len() <= c < dag.ids() implies #[trigger] reaches(
        dag,
        target_id(a, a.edges[a.nodes[0].first_child as int].index) as int,
        c,
    ) by {
        assert(covered(a, dag, c));
        let t = choose|t: Target| covers(a, dag, t, c);
        match t {
            Target::NodeRef(m) => {
                lemma_root_alone(a, dag.ids(), m);
            },
            Target::LeafRef(_) => {
                assert(held(a, t));
                let (n, j) = choose|n: int, j: int| hangs(a, t, n, j);
                lemma_root_alone(a, dag.ids(), n as usize);
            },
        }
    }
}

} // verus!
