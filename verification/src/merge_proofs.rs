//! Why each merge leaves the arena consistent and the trees it stands for
//! unchanged.

use vstd::prelude::*;
use crate::dag::{lemma_expand_extends, Dag};
use crate::forest::{
    compact, compact_at, kids, lemma_kids_preserved, lemma_live_leafs_update,
    lemma_live_nodes_update, lemma_range_deleted, lemma_range_one, lemma_range_pointwise,
    lemma_range_split,
    live_records, range_trees, same_below, same_target, slot_trees, target_after, target_id,
    target_live, valid, ArenaView,
};
use crate::io_tree::Tree;
use crate::structs::{Cluster, Data, Edge, Leaf, MergeType, Node, Target};

verus! {

/// The arena in which the record that `target` names carries `data`.
pub open spec fn with_data(a: ArenaView, target: Target, data: Data) -> ArenaView {
    match target {
        Target::NodeRef(m) => ArenaView {
            nodes: a.nodes.update(
                m as int,
                Node {
                    deleted: a.nodes[m as int].deleted,
                    data,
                    first_child: a.nodes[m as int].first_child,
                    last_child: a.nodes[m as int].last_child,
                },
            ),
            leafs: a.leafs,
            edges: a.edges,
        },
        Target::LeafRef(l) => ArenaView {
            nodes: a.nodes,
            leafs: a.leafs.update(l as int, Leaf { deleted: a.leafs[l as int].deleted, data }),
            edges: a.edges,
        },
    }
}

/// The arena in which the record that `target` names is deleted.
pub open spec fn with_deleted(a: ArenaView, target: Target) -> ArenaView {
    match target {
        Target::NodeRef(m) => ArenaView {
            nodes: a.nodes.update(
                m as int,
                Node {
                    deleted: true,
                    data: a.nodes[m as int].data,
                    first_child: a.nodes[m as int].first_child,
                    last_child: a.nodes[m as int].last_child,
                },
            ),
            leafs: a.leafs,
            edges: a.edges,
        },
        Target::LeafRef(l) => ArenaView {
            nodes: a.nodes,
            leafs: a.leafs.update(l as int, Leaf { deleted: true, data: a.leafs[l as int].data }),
            edges: a.edges,
        },
    }
}

/// The arena after the node behind edge `e1` was contracted into its only
/// child, the record behind edge `e2`: that record carries cluster `c`, edge
/// `e1` points at it, the node and its edge are deleted.
pub open spec fn after_ab(a: ArenaView, e1: int, e2: int, c: usize) -> ArenaView {
    let b = with_deleted(with_data(a, a.edges[e2].index, Data::Cluster(c)), a.edges[e1].index);
    ArenaView {
        nodes: b.nodes,
        leafs: b.leafs,
        edges: a.edges.update(e1, a.edges[e2]).update(
            e2,
            Edge { deleted: true, index: a.edges[e1].index },
        ),
    }
}

/// The arena after the record behind edge `keep` has absorbed the leaf
/// behind edge `gone`: the record carries cluster `c`, the leaf and its edge
/// are deleted.
pub open spec fn after_absorb(a: ArenaView, keep: int, gone: int, c: usize) -> ArenaView {
    let b = with_deleted(with_data(a, a.edges[keep].index, Data::Cluster(c)), a.edges[gone].index);
    ArenaView {
        nodes: b.nodes,
        leafs: b.leafs,
        edges: a.edges.update(gone, Edge { deleted: true, index: a.edges[gone].index }),
    }
}

/// Slot `e` is one of node `p`'s slots and holds a live edge.
pub open spec fn live_slot(a: ArenaView, p: int, e: int) -> bool {
    &&& 0 <= p < a.nodes.len()
    &&& a.nodes[p].first_child <= e < a.nodes[p].last_child
    &&& !a.edges[e].deleted
}

/// Edge `e1`, a slot of node `p`, leads to a node whose only slot is `e2`.
pub open spec fn can_contract(a: ArenaView, p: int, e1: int, e2: int) -> bool {
    &&& live_slot(a, p, e1)
    &&& a.edges[e1].index is NodeRef
    &&& live_slot(a, a.edges[e1].index->NodeRef_0 as int, e2)
    &&& a.nodes[a.edges[e1].index->NodeRef_0 as int].first_child == e2
    &&& a.nodes[a.edges[e1].index->NodeRef_0 as int].last_child == e2 + 1
}

/// Slots `keep` and `gone` are neighbours among node `p`'s slots, both
/// live, and `gone` leads to a leaf.
pub open spec fn can_absorb(a: ArenaView, p: int, keep: int, gone: int) -> bool {
    &&& live_slot(a, p, keep)
    &&& live_slot(a, p, gone)
    &&& (gone == keep + 1 || keep == gone + 1)
    &&& a.edges[gone].index is LeafRef
}

/// `c` is the id under which `later` holds `cluster`, and `later` is a
/// well-formed table that extends `dag`.
pub open spec fn holds_at(dag: Dag, later: Dag, cluster: Cluster, c: usize) -> bool {
    &&& dag.wf()
    &&& later.wf()
    &&& later.extends(dag)
    &&& later.labels.len() <= c < later.ids()
    &&& later.clusters[c - later.labels.len()] == cluster
    &&& cluster.first_child < dag.ids()
    &&& cluster.second_child < dag.ids()
}

proof fn lemma_cluster_expands(later: Dag, c: usize, kids: Seq<Tree>)
    requires
        later.wf(),
        later.labels.len() <= c < later.ids(),
    ensures
        ({
            let cl = later.clusters[c - later.labels.len()];
            later.expand(c as int, kids) == match cl.merge_type {
                MergeType::AB => later.expand(
                    cl.first_child as int,
                    later.expand(cl.second_child as int, kids),
                ),
                MergeType::CE => later.expand(cl.first_child as int, kids) + later.expand(
                    cl.second_child as int,
                    Seq::empty(),
                ),
                MergeType::DE => later.expand(cl.first_child as int, Seq::empty()) + later.expand(
                    cl.second_child as int,
                    kids,
                ),
            }
        }),
{
    let cl = later.clusters[c - later.labels.len()];
    assert(cl.first_child < c && cl.second_child < c);
}

/// The slots of two different nodes do not overlap.
pub(crate) proof fn lemma_slots_apart(a: ArenaView, ids: int, n: int, m: int, j: int)
    requires
        valid(a, ids),
        0 <= n < a.nodes.len(),
        0 <= m < a.nodes.len(),
        n != m,
        a.nodes[n].first_child <= j < a.nodes[n].last_child,
    ensures
        !(a.nodes[m].first_child <= j < a.nodes[m].last_child),
{
    if n < m {
        assert(a.nodes[n].last_child <= a.nodes[m].first_child);
    } else {
        assert(a.nodes[m].last_child <= a.nodes[n].first_child);
    }
}

/// A slot whose edge and whose target's id did not change stands for the
/// same trees, once what stands below the target does.
proof fn lemma_slot_same(a: ArenaView, dag: Dag, b: ArenaView, later: Dag, n: int, j: int, x: int)
    requires
        later.extends(dag),
        0 <= j < a.edges.len(),
        j < b.edges.len(),
        b.edges[j] == a.edges[j],
        !a.edges[j].deleted ==> same_target(a, b, dag.ids(), a.edges[j].index, x),
        !a.edges[j].deleted ==> (a.edges[j].index matches Target::NodeRef(m) ==> (n < m ==> kids(
            b,
            later,
            m as int,
        ) == kids(a, dag, m as int))),
    ensures
        slot_trees(b, later, n, j) == slot_trees(a, dag, n, j),
{
    if !a.edges[j].deleted {
        match a.edges[j].index {
            Target::LeafRef(l) => {
                lemma_expand_extends(dag, later, a.leafs[l as int].data.id() as int, Seq::empty());
            },
            Target::NodeRef(m) => {
                if n < m {
                    lemma_expand_extends(
                        dag,
                        later,
                        a.nodes[m as int].data.id() as int,
                        kids(a, dag, m as int),
                    );
                }
            },
        }
    }
}

/// The arena after a contraction is consistent and one record smaller.
#[verifier::rlimit(30)]
pub(crate) proof fn lemma_ab_valid(a: ArenaView, ids: int, later_ids: int, p: int, e1: int, e2: int, c: usize)
    requires
        valid(a, ids),
        can_contract(a, p, e1, e2),
        ids <= later_ids,
        c < later_ids,
    ensures
        valid(after_ab(a, e1, e2, c), later_ids),
        live_records(after_ab(a, e1, e2, c)) + 1 == live_records(a),
        compact(a) ==> compact(after_ab(a, e1, e2, c)),
{
    let b = after_ab(a, e1, e2, c);
    let x = a.edges[e1].index->NodeRef_0 as int;
    let t2 = a.edges[e2].index;
    assert(target_live(a, a.edges[e1].index));
    assert(target_live(a, t2));
    assert(target_after(a.edges[e1].index, p));
    assert(target_after(t2, x));
    lemma_slots_apart(a, ids, p, x, e1);
    assert(e1 != e2);
    assert(a.edges[e1].index != a.edges[e2].index);
    let mid = with_data(a, t2, Data::Cluster(c));
    match t2 {
        Target::NodeRef(y) => {
            lemma_live_nodes_update(a.nodes, y as int, mid.nodes[y as int]);
        },
        Target::LeafRef(l) => {
            lemma_live_leafs_update(a.leafs, l as int, mid.leafs[l as int]);
        },
    }
    lemma_live_nodes_update(mid.nodes, x, b.nodes[x]);
    assert(b.nodes.len() == a.nodes.len());
    assert(b.leafs.len() == a.leafs.len());
    assert(b.edges.len() == a.edges.len());
    assert forall|n: int| 0 <= n < b.nodes.len() implies (#[trigger] b.nodes[n]).first_child
        == a.nodes[n].first_child && b.nodes[n].last_child == a.nodes[n].last_child
        && b.nodes[n].data.id() < later_ids && (n != x ==> b.nodes[n].deleted
        == a.nodes[n].deleted) by {
        assert(a.nodes[n].data.id() < ids);
    }
    assert forall|l: int| 0 <= l < b.leafs.len() implies (#[trigger] b.leafs[l]).deleted
        == a.leafs[l].deleted && b.leafs[l].data.id() < later_ids by {
        assert(a.leafs[l].data.id() < ids);
    }
    assert forall|j: int| 0 <= j < b.edges.len() && !(#[trigger] b.edges[j]).deleted implies target_live(
        b,
        b.edges[j].index,
    ) by {
        if j == e1 {
            assert(b.edges[j] == a.edges[e2]);
        } else {
            assert(j != e2);
            assert(b.edges[j] == a.edges[j]);
            assert(target_live(a, a.edges[j].index));
            assert(a.edges[j].index != a.edges[e1].index);
        }
    }
    assert forall|i: int, j: int|
        0 <= i < j < b.edges.len() && !(#[trigger] b.edges[i]).deleted && !(
        #[trigger] b.edges[j]).deleted implies b.edges[i].index != b.edges[j].index by {
        let oi = if i == e1 {
            e2
        } else {
            i
        };
        let oj = if j == e1 {
            e2
        } else {
            j
        };
        assert(b.edges[i] == a.edges[oi]);
        assert(b.edges[j] == a.edges[oj]);
        assert(oi != oj);
        if oi < oj {
            assert(a.edges[oi].index != a.edges[oj].index);
        } else {
            assert(a.edges[oj].index != a.edges[oi].index);
        }
    }
    assert forall|n: int, j: int|
        #![trigger b.nodes[n], b.edges[j]]
        0 <= n < b.nodes.len() && b.nodes[n].first_child <= j < b.nodes[n].last_child
            && !b.edges[j].deleted implies target_after(b.edges[j].index, n) by {
        if j == e1 {
            if n != p {
                lemma_slots_apart(a, ids, p, n, e1);
            }
            assert(b.edges[j] == a.edges[e2]);
        } else {
            assert(b.edges[j] == a.edges[j]);
            assert(target_after(a.edges[j].index, n));
        }
    }
    if compact(a) {
        assert forall|n: int| 0 <= n < b.nodes.len() && !(#[trigger] b.nodes[n]).deleted implies compact_at(
            b,
            n,
        ) by {
            assert(compact_at(a, n));
            assert forall|j: int| b.nodes[n].first_child <= j < b.nodes[n].last_child implies !(
            #[trigger] b.edges[j]).deleted by {
                assert(!a.edges[j].deleted);
                lemma_slots_apart(a, ids, n, x, j);
            }
        }
    }
}

/// After a contraction every node but the contracted one stands for the
/// same trees as before.
#[verifier::rlimit(30)]
pub(crate) proof fn lemma_ab_kids(
    a: ArenaView,
    dag: Dag,
    later: Dag,
    p: int,
    e1: int,
    e2: int,
    c: usize,
    m: int,
)
    requires
        valid(a, dag.ids()),
        can_contract(a, p, e1, e2),
        holds_at(
            dag,
            later,
            Cluster {
                merge_type: MergeType::AB,
                first_child: target_id(a, a.edges[e1].index),
                second_child: target_id(a, a.edges[e2].index),
            },
            c,
        ),
        0 <= m < a.nodes.len(),
        m != a.edges[e1].index->NodeRef_0,
    ensures
        kids(after_ab(a, e1, e2, c), later, m) == kids(a, dag, m),
{
    let b = after_ab(a, e1, e2, c);
    let ids = dag.ids();
    let x = a.edges[e1].index->NodeRef_0 as int;
    let t2 = a.edges[e2].index;
    assert(target_live(a, a.edges[e1].index));
    assert(target_live(a, t2));
    assert(target_after(a.edges[e1].index, p));
    assert(target_after(t2, x));
    lemma_slots_apart(a, ids, p, x, e1);
    assert(e1 != e2);
    assert forall|n: int| 0 <= n < a.nodes.len() && n != p && n != x implies #[trigger] same_below(
        a,
        b,
        ids,
        n,
        x,
    ) by {
        assert forall|j: int|
            #![trigger b.edges[j]]
            a.nodes[n].first_child <= j < a.nodes[n].last_child implies 0 <= j < a.edges.len() && j
            < b.edges.len() && b.edges[j] == a.edges[j] && (!a.edges[j].deleted ==> same_target(
            a,
            b,
            ids,
            a.edges[j].index,
            x,
        )) by {
            lemma_slots_apart(a, ids, n, p, j);
            lemma_slots_apart(a, ids, n, x, j);
            lemma_unmoved_target(a, ids, b, j, e1, e2, x);
        }
    }
    assert((forall|n: int|
        p < n < a.nodes.len() && n != x ==> #[trigger] kids(b, later, n) == kids(a, dag, n))
        ==> kids(b, later, p) == kids(a, dag, p)) by {
        if forall|n: int|
            p < n < a.nodes.len() && n != x ==> #[trigger] kids(b, later, n) == kids(a, dag, n) {
            assert forall|j: int|
                a.nodes[p].first_child <= j < a.nodes[p].last_child implies #[trigger] slot_trees(
                b,
                later,
                p,
                j,
            ) == slot_trees(a, dag, p, j) by {
                if j == e1 {
                    let below = match t2 {
                        Target::NodeRef(y) => kids(a, dag, y as int),
                        Target::LeafRef(_) => Seq::<Tree>::empty(),
                    };
                    let id1 = target_id(a, a.edges[e1].index);
                    let id2 = target_id(a, t2);
                    assert(a.nodes[x].data.id() == id1);
                    lemma_range_one(a, dag, x, e2);
                    assert(kids(a, dag, x) == slot_trees(a, dag, x, e2));
                    assert(slot_trees(a, dag, x, e2) == dag.expand(id2 as int, below));
                    assert(slot_trees(a, dag, p, e1) == dag.expand(
                        id1 as int,
                        dag.expand(id2 as int, below),
                    ));
                    lemma_cluster_expands(later, c, below);
                    lemma_expand_extends(dag, later, id2 as int, below);
                    lemma_expand_extends(dag, later, id1 as int, dag.expand(id2 as int, below));
                    assert(b.edges[e1] == a.edges[e2]);
                    match t2 {
                        Target::NodeRef(y) => {
                            assert(kids(b, later, y as int) == kids(a, dag, y as int));
                            assert(b.nodes[y as int].data.id() == c);
                        },
                        Target::LeafRef(l) => {
                            assert(b.leafs[l as int].data.id() == c);
                        },
                    }
                    assert(slot_trees(b, later, p, e1) == later.expand(c as int, below));
                } else {
                    lemma_slots_apart(a, ids, p, x, j);
                    lemma_unmoved_target(a, ids, b, j, e1, e2, x);
                    if !a.edges[j].deleted {
                        assert(target_after(a.edges[j].index, p));
                    }
                    lemma_slot_same(a, dag, b, later, p, j, x);
                }
            }
            lemma_range_pointwise(
                a,
                dag,
                b,
                later,
                p,
                a.nodes[p].first_child as int,
                a.nodes[p].last_child as int,
            );
        }
    }
    lemma_kids_preserved(a, dag, b, later, 0, p, x, m);
}

/// An edge other than the two that a merge touches is unchanged, and so is
/// the id of the record it points at.
proof fn lemma_unmoved_target(a: ArenaView, ids: int, b: ArenaView, j: int, e1: int, e2: int, x: int)
    requires
        valid(a, ids),
        0 <= j < a.edges.len(),
        0 <= e1 < a.edges.len(),
        0 <= e2 < a.edges.len(),
        j != e1,
        j != e2,
        !a.edges[e1].deleted,
        !a.edges[e2].deleted,
        b.edges.len() == a.edges.len(),
        b.nodes.len() == a.nodes.len(),
        b.leafs.len() == a.leafs.len(),
        b.edges[j] == a.edges[j],
        x >= 0 ==> a.edges[e1].index is NodeRef && a.edges[e1].index->NodeRef_0 == x,
        forall|t: Target|
            target_live(a, t) && t != a.edges[e1].index && t != a.edges[e2].index ==> target_id(
                b,
                t,
            ) == #[trigger] target_id(a, t),
    ensures
        !a.edges[j].deleted ==> same_target(a, b, ids, a.edges[j].index, x),
{
    if !a.edges[j].deleted {
        let t = a.edges[j].index;
        assert(target_live(a, t));
        if j < e1 {
            assert(a.edges[j].index != a.edges[e1].index);
        } else {
            assert(a.edges[e1].index != a.edges[j].index);
        }
        if j < e2 {
            assert(a.edges[j].index != a.edges[e2].index);
        } else {
            assert(a.edges[e2].index != a.edges[j].index);
        }
        assert(target_id(b, t) == target_id(a, t));
        match t {
            Target::NodeRef(m) => {
                assert(a.nodes[m as int].data.id() < ids);
            },
            Target::LeafRef(l) => {
                assert(a.leafs[l as int].data.id() < ids);
            },
        }
    }
}

/// The cluster that an absorbing merge of shape `shape` makes of the record
/// behind edge `keep` and the leaf behind edge `gone`.
pub open spec fn absorbed(a: ArenaView, shape: MergeType, keep: int, gone: int) -> Cluster {
    if shape == MergeType::CE {
        Cluster {
            merge_type: MergeType::CE,
            first_child: target_id(a, a.edges[keep].index),
            second_child: target_id(a, a.edges[gone].index),
        }
    } else {
        Cluster {
            merge_type: MergeType::DE,
            first_child: target_id(a, a.edges[gone].index),
            second_child: target_id(a, a.edges[keep].index),
        }
    }
}

/// The shape fits the order of the two slots: `CE` absorbs the right
/// neighbour, `DE` the left one.
pub open spec fn shape_fits(shape: MergeType, keep: int, gone: int) -> bool {
    ||| shape == MergeType::CE && gone == keep + 1
    ||| shape == MergeType::DE && keep == gone + 1
}

/// The arena after an absorbing merge is consistent and one record smaller.
#[verifier::rlimit(30)]
pub(crate) proof fn lemma_absorb_valid(
    a: ArenaView,
    ids: int,
    later_ids: int,
    p: int,
    keep: int,
    gone: int,
    c: usize,
)
    requires
        valid(a, ids),
        can_absorb(a, p, keep, gone),
        ids <= later_ids,
        c < later_ids,
    ensures
        valid(after_absorb(a, keep, gone, c), later_ids),
        live_records(after_absorb(a, keep, gone, c)) + 1 == live_records(a),
        forall|n: int|
            0 <= n < a.nodes.len() && n != p && compact_at(a, n) ==> compact_at(
                after_absorb(a, keep, gone, c),
                n,
            ),
{
    let b = after_absorb(a, keep, gone, c);
    let tk = a.edges[keep].index;
    let tg = a.edges[gone].index;
    let l = tg->LeafRef_0 as int;
    assert(target_live(a, tk));
    assert(target_live(a, tg));
    if keep < gone {
        assert(a.edges[keep].index != a.edges[gone].index);
    } else {
        assert(a.edges[gone].index != a.edges[keep].index);
    }
    let mid = with_data(a, tk, Data::Cluster(c));
    match tk {
        Target::NodeRef(y) => {
            lemma_live_nodes_update(a.nodes, y as int, mid.nodes[y as int]);
        },
        Target::LeafRef(k) => {
            lemma_live_leafs_update(a.leafs, k as int, mid.leafs[k as int]);
        },
    }
    lemma_live_leafs_update(mid.leafs, l, b.leafs[l]);
    assert(b.nodes.len() == a.nodes.len());
    assert(b.leafs.len() == a.leafs.len());
    assert(b.edges.len() == a.edges.len());
    assert forall|n: int| 0 <= n < b.nodes.len() implies (#[trigger] b.nodes[n]).first_child
        == a.nodes[n].first_child && b.nodes[n].last_child == a.nodes[n].last_child
        && b.nodes[n].data.id() < later_ids && b.nodes[n].deleted == a.nodes[n].deleted by {
        assert(a.nodes[n].data.id() < ids);
    }
    assert forall|k: int| 0 <= k < b.leafs.len() implies (k != l ==> (#[trigger] b.leafs[k]).deleted
        == a.leafs[k].deleted) && b.leafs[k].data.id() < later_ids by {
        assert(a.leafs[k].data.id() < ids);
    }
    assert forall|j: int| 0 <= j < b.edges.len() && !(#[trigger] b.edges[j]).deleted implies target_live(
        b,
        b.edges[j].index,
    ) by {
        assert(j != gone);
        assert(b.edges[j] == a.edges[j]);
        assert(target_live(a, a.edges[j].index));
        if j < gone {
            assert(a.edges[j].index != a.edges[gone].index);
        } else {
            assert(a.edges[gone].index != a.edges[j].index);
        }
    }
    assert forall|i: int, j: int|
        0 <= i < j < b.edges.len() && !(#[trigger] b.edges[i]).deleted && !(
        #[trigger] b.edges[j]).deleted implies b.edges[i].index != b.edges[j].index by {
        assert(b.edges[i] == a.edges[i]);
        assert(b.edges[j] == a.edges[j]);
    }
    assert forall|n: int, j: int|
        #![trigger b.nodes[n], b.edges[j]]
        0 <= n < b.nodes.len() && b.nodes[n].first_child <= j < b.nodes[n].last_child
            && !b.edges[j].deleted implies target_after(b.edges[j].index, n) by {
        assert(b.edges[j] == a.edges[j]);
        assert(target_after(a.edges[j].index, n));
    }
    assert forall|n: int| 0 <= n < a.nodes.len() && n != p && compact_at(a, n) implies compact_at(
        b,
        n,
    ) by {
        assert forall|j: int| b.nodes[n].first_child <= j < b.nodes[n].last_child implies !(
        #[trigger] b.edges[j]).deleted by {
            assert(!a.edges[j].deleted);
            lemma_slots_apart(a, ids, n, p, j);
        }
    }
}

/// After an absorbing merge every node stands for the same trees as before.
#[verifier::rlimit(30)]
pub(crate) proof fn lemma_absorb_kids(
    a: ArenaView,
    dag: Dag,
    later: Dag,
    p: int,
    shape: MergeType,
    keep: int,
    gone: int,
    c: usize,
    m: int,
)
    requires
        valid(a, dag.ids()),
        can_absorb(a, p, keep, gone),
        shape_fits(shape, keep, gone),
        holds_at(dag, later, absorbed(a, shape, keep, gone), c),
        0 <= m < a.nodes.len(),
    ensures
        kids(after_absorb(a, keep, gone, c), later, m) == kids(a, dag, m),
{
    let b = after_absorb(a, keep, gone, c);
    let ids = dag.ids();
    let tk = a.edges[keep].index;
    let tg = a.edges[gone].index;
    let l = tg->LeafRef_0 as int;
    assert(target_live(a, tk));
    assert(target_live(a, tg));
    if keep < gone {
        assert(a.edges[keep].index != a.edges[gone].index);
    } else {
        assert(a.edges[gone].index != a.edges[keep].index);
    }
    assert forall|n: int| 0 <= n < a.nodes.len() && n != p implies #[trigger] same_below(
        a,
        b,
        ids,
        n,
        -1,
    ) by {
        assert forall|j: int|
            #![trigger b.edges[j]]
            a.nodes[n].first_child <= j < a.nodes[n].last_child implies 0 <= j < a.edges.len() && j
            < b.edges.len() && b.edges[j] == a.edges[j] && (!a.edges[j].deleted ==> same_target(
            a,
            b,
            ids,
            a.edges[j].index,
            -1,
        )) by {
            lemma_slots_apart(a, ids, n, p, j);
            lemma_unmoved_target(a, ids, b, j, keep, gone, -1);
        }
    }
    assert((forall|n: int|
        p < n < a.nodes.len() && n != -1 ==> #[trigger] kids(b, later, n) == kids(a, dag, n))
        ==> kids(b, later, p) == kids(a, dag, p)) by {
        if forall|n: int|
            p < n < a.nodes.len() && n != -1 ==> #[trigger] kids(b, later, n) == kids(a, dag, n) {
            let lo = if keep < gone {
                keep
            } else {
                gone
            };
            let first = a.nodes[p].first_child as int;
            let last = a.nodes[p].last_child as int;
            assert forall|j: int| first <= j < last && j != keep && j != gone implies #[trigger] slot_trees(
                b,
                later,
                p,
                j,
            ) == slot_trees(a, dag, p, j) by {
                lemma_unmoved_target(a, ids, b, j, keep, gone, -1);
                if !a.edges[j].deleted {
                    assert(target_after(a.edges[j].index, p));
                }
                lemma_slot_same(a, dag, b, later, p, j, -1);
            }
            let below = match tk {
                Target::NodeRef(y) => kids(a, dag, y as int),
                Target::LeafRef(_) => Seq::<Tree>::empty(),
            };
            let idk = target_id(a, tk);
            let idg = target_id(a, tg);
            assert(target_after(tk, p));
            assert(slot_trees(a, dag, p, keep) == dag.expand(idk as int, below));
            assert(slot_trees(a, dag, p, gone) == dag.expand(idg as int, Seq::empty()));
            lemma_cluster_expands(later, c, below);
            lemma_expand_extends(dag, later, idk as int, below);
            lemma_expand_extends(dag, later, idg as int, Seq::empty());
            match tk {
                Target::NodeRef(y) => {
                    assert(kids(b, later, y as int) == kids(a, dag, y as int));
                    assert(b.nodes[y as int].data.id() == c);
                },
                Target::LeafRef(k) => {
                    assert(b.leafs[k as int].data.id() == c);
                },
            }
            assert(slot_trees(b, later, p, keep) == later.expand(c as int, below));
            assert(slot_trees(b, later, p, gone) == Seq::<Tree>::empty());
            lemma_range_one(a, dag, p, lo);
            lemma_range_one(a, dag, p, lo + 1);
            lemma_range_one(b, later, p, lo);
            lemma_range_one(b, later, p, lo + 1);
            lemma_range_split(a, dag, p, lo, lo + 1, lo + 2);
            lemma_range_split(b, later, p, lo, lo + 1, lo + 2);
            assert(later.expand(c as int, below) + Seq::<Tree>::empty() =~= later.expand(
                c as int,
                below,
            ));
            assert(Seq::<Tree>::empty() + later.expand(c as int, below) =~= later.expand(
                c as int,
                below,
            ));
            assert(range_trees(b, later, p, lo, lo + 2) == range_trees(a, dag, p, lo, lo + 2));
            lemma_range_pointwise(a, dag, b, later, p, first, lo);
            lemma_range_pointwise(a, dag, b, later, p, lo + 2, last);
            lemma_range_split(a, dag, p, first, lo, last);
            lemma_range_split(a, dag, p, lo, lo + 2, last);
            lemma_range_split(b, later, p, first, lo, last);
            lemma_range_split(b, later, p, lo, lo + 2, last);
        }
    }
    lemma_kids_preserved(a, dag, b, later, 0, p, -1, m);
}

/// The arena in which the edges in slots `i` and `j` have changed places.
pub open spec fn with_swapped(a: ArenaView, i: int, j: int) -> ArenaView {
    ArenaView {
        nodes: a.nodes,
        leafs: a.leafs,
        edges: a.edges.update(i, a.edges[j]).update(j, a.edges[i]),
    }
}

/// The arena in which node `p` ends its slots at `last`.
pub open spec fn with_last(a: ArenaView, p: int, last: usize) -> ArenaView {
    ArenaView {
        nodes: a.nodes.update(
            p,
            Node {
                deleted: a.nodes[p].deleted,
                data: a.nodes[p].data,
                first_child: a.nodes[p].first_child,
                last_child: last,
            },
        ),
        leafs: a.leafs,
        edges: a.edges,
    }
}

/// Moving a live edge of node `p` down over deleted slots only leaves the
/// arena consistent, and every node stands for the same trees.
#[verifier::rlimit(30)]
pub(crate) proof fn lemma_swap_down(a: ArenaView, dag: Dag, p: int, back: int, fore: int)
    requires
        valid(a, dag.ids()),
        0 <= p < a.nodes.len(),
        a.nodes[p].first_child <= back < fore < a.nodes[p].last_child,
        forall|j: int| back <= j < fore ==> (#[trigger] a.edges[j]).deleted,
        !a.edges[fore].deleted,
    ensures
        valid(with_swapped(a, back, fore), dag.ids()),
        forall|m: int|
            0 <= m < a.nodes.len() ==> #[trigger] kids(with_swapped(a, back, fore), dag, m) == kids(
                a,
                dag,
                m,
            ),
{
    let b = with_swapped(a, back, fore);
    let ids = dag.ids();
    let first = a.nodes[p].first_child as int;
    let last = a.nodes[p].last_child as int;
    assert(a.edges[back].deleted);
    assert(b.edges[back] == a.edges[fore]);
    assert(b.edges[fore] == a.edges[back]);
    assert forall|j: int| 0 <= j < b.edges.len() && !(#[trigger] b.edges[j]).deleted implies target_live(
        b,
        b.edges[j].index,
    ) by {
        if j == back {
            assert(target_live(a, a.edges[fore].index));
        } else {
            assert(b.edges[j] == a.edges[j]);
        }
    }
    assert forall|i: int, j: int|
        0 <= i < j < b.edges.len() && !(#[trigger] b.edges[i]).deleted && !(
        #[trigger] b.edges[j]).deleted implies b.edges[i].index != b.edges[j].index by {
        let oi = if i == back {
            fore
        } else {
            i
        };
        let oj = if j == back {
            fore
        } else {
            j
        };
        assert(b.edges[i] == a.edges[oi]);
        assert(b.edges[j] == a.edges[oj]);
        if oi < oj {
            assert(a.edges[oi].index != a.edges[oj].index);
        } else {
            assert(a.edges[oj].index != a.edges[oi].index);
        }
    }
    assert forall|n: int, j: int|
        #![trigger b.nodes[n], b.edges[j]]
        0 <= n < b.nodes.len() && b.nodes[n].first_child <= j < b.nodes[n].last_child
            && !b.edges[j].deleted implies target_after(b.edges[j].index, n) by {
        if j == back {
            if n != p {
                lemma_slots_apart(a, ids, p, n, back);
            }
            assert(target_after(a.edges[fore].index, p));
        } else {
            assert(b.edges[j] == a.edges[j]);
            assert(target_after(a.edges[j].index, n));
        }
    }
    assert forall|n: int| 0 <= n < a.nodes.len() && n != p implies #[trigger] same_below(
        a,
        b,
        ids,
        n,
        -1,
    ) by {
        assert forall|j: int|
            #![trigger b.edges[j]]
            a.nodes[n].first_child <= j < a.nodes[n].last_child implies 0 <= j < a.edges.len() && j
            < b.edges.len() && b.edges[j] == a.edges[j] && (!a.edges[j].deleted ==> same_target(
            a,
            b,
            ids,
            a.edges[j].index,
            -1,
        )) by {
            lemma_slots_apart(a, ids, n, p, j);
            lemma_same_records(a, ids, b, j);
        }
    }
    assert((forall|n: int|
        p < n < a.nodes.len() && n != -1 ==> #[trigger] kids(b, dag, n) == kids(a, dag, n))
        ==> kids(b, dag, p) == kids(a, dag, p)) by {
        if forall|n: int|
            p < n < a.nodes.len() && n != -1 ==> #[trigger] kids(b, dag, n) == kids(a, dag, n) {
            assert forall|j: int| first <= j < last && j != back && j != fore implies #[trigger] slot_trees(
                b,
                dag,
                p,
                j,
            ) == slot_trees(a, dag, p, j) by {
                lemma_same_records(a, ids, b, j);
                if !a.edges[j].deleted {
                    assert(target_after(a.edges[j].index, p));
                }
                lemma_slot_same(a, dag, b, dag, p, j, -1);
            }
            assert(slot_trees(b, dag, p, back) == slot_trees(a, dag, p, fore)) by {
                assert(target_live(a, a.edges[fore].index));
                assert(target_after(a.edges[fore].index, p));
                match a.edges[fore].index {
                    Target::NodeRef(y) => {
                        assert(kids(b, dag, y as int) == kids(a, dag, y as int));
                    },
                    Target::LeafRef(_) => {},
                }
            }
            assert(slot_trees(a, dag, p, back) == Seq::<Tree>::empty());
            assert(slot_trees(b, dag, p, fore) == Seq::<Tree>::empty());
            let moved = slot_trees(a, dag, p, fore);
            lemma_range_deleted(a, dag, p, back, fore);
            lemma_range_deleted(b, dag, p, back + 1, fore + 1);
            lemma_range_one(a, dag, p, fore);
            lemma_range_one(b, dag, p, back);
            lemma_range_split(a, dag, p, back, fore, fore + 1);
            lemma_range_split(b, dag, p, back, back + 1, fore + 1);
            assert(Seq::<Tree>::empty() + moved =~= moved);
            assert(moved + Seq::<Tree>::empty() =~= moved);
            assert(range_trees(b, dag, p, back, fore + 1) == range_trees(a, dag, p, back, fore + 1));
            lemma_range_pointwise(a, dag, b, dag, p, first, back);
            lemma_range_pointwise(a, dag, b, dag, p, fore + 1, last);
            lemma_range_split(a, dag, p, first, back, last);
            lemma_range_split(a, dag, p, back, fore + 1, last);
            lemma_range_split(b, dag, p, first, back, last);
            lemma_range_split(b, dag, p, back, fore + 1, last);
        }
    }
    assert forall|m: int| 0 <= m < a.nodes.len() implies #[trigger] kids(b, dag, m) == kids(
        a,
        dag,
        m,
    ) by {
        lemma_kids_preserved(a, dag, b, dag, 0, p, -1, m);
    }
}

/// Where the records are the same, an unchanged edge points at the same.
proof fn lemma_same_records(a: ArenaView, ids: int, b: ArenaView, j: int)
    requires
        valid(a, ids),
        0 <= j < a.edges.len(),
        b.edges.len() == a.edges.len(),
        b.edges[j] == a.edges[j],
        b.leafs == a.leafs,
        b.nodes.len() == a.nodes.len(),
        forall|n: int| 0 <= n < a.nodes.len() ==> (#[trigger] b.nodes[n]).data == a.nodes[n].data,
    ensures
        !a.edges[j].deleted ==> same_target(a, b, ids, a.edges[j].index, -1),
{
    if !a.edges[j].deleted {
        assert(target_live(a, a.edges[j].index));
        match a.edges[j].index {
            Target::NodeRef(m) => {
                assert(a.nodes[m as int].data.id() < ids);
                assert(b.nodes[m as int].data == a.nodes[m as int].data);
            },
            Target::LeafRef(l) => {
                assert(a.leafs[l as int].data.id() < ids);
            },
        }
    }
}

/// Cutting deleted slots off the end of node `p` leaves the arena
/// consistent, and every node stands for the same trees.
pub(crate) proof fn lemma_cut_tail(a: ArenaView, dag: Dag, p: int, last: usize)
    requires
        valid(a, dag.ids()),
        0 <= p < a.nodes.len(),
        a.nodes[p].first_child <= last <= a.nodes[p].last_child,
        forall|j: int| last <= j < a.nodes[p].last_child ==> (#[trigger] a.edges[j]).deleted,
    ensures
        valid(with_last(a, p, last), dag.ids()),
        live_records(with_last(a, p, last)) == live_records(a),
        forall|m: int|
            0 <= m < a.nodes.len() ==> #[trigger] kids(with_last(a, p, last), dag, m) == kids(
                a,
                dag,
                m,
            ),
{
    let b = with_last(a, p, last);
    let ids = dag.ids();
    let first = a.nodes[p].first_child as int;
    let old_last = a.nodes[p].last_child as int;
    lemma_live_nodes_update(a.nodes, p, b.nodes[p]);
    assert forall|n: int| 0 <= n < b.nodes.len() implies (#[trigger] b.nodes[n]).first_child
        == a.nodes[n].first_child && b.nodes[n].last_child <= a.nodes[n].last_child
        && b.nodes[n].data == a.nodes[n].data && b.nodes[n].deleted == a.nodes[n].deleted by {}
    assert forall|n: int, m: int| 0 <= n < m < b.nodes.len() implies (#[trigger] b.nodes[n]).last_child
        <= (#[trigger] b.nodes[m]).first_child by {
        assert(a.nodes[n].last_child <= a.nodes[m].first_child);
    }
    assert forall|j: int| 0 <= j < b.edges.len() && !(#[trigger] b.edges[j]).deleted implies target_live(
        b,
        b.edges[j].index,
    ) by {
        assert(target_live(a, a.edges[j].index));
    }
    assert forall|n: int, j: int|
        #![trigger b.nodes[n], b.edges[j]]
        0 <= n < b.nodes.len() && b.nodes[n].first_child <= j < b.nodes[n].last_child
            && !b.edges[j].deleted implies target_after(b.edges[j].index, n) by {
        assert(target_after(a.edges[j].index, n));
    }
    assert forall|n: int| 0 <= n < a.nodes.len() implies (#[trigger] b.nodes[n]).data.id() < ids by {
        assert(a.nodes[n].data.id() < ids);
    }
    assert forall|n: int| 0 <= n < a.nodes.len() && n != p implies #[trigger] same_below(
        a,
        b,
        ids,
        n,
        -1,
    ) by {
        assert forall|j: int|
            #![trigger b.edges[j]]
            a.nodes[n].first_child <= j < a.nodes[n].last_child implies 0 <= j < a.edges.len() && j
            < b.edges.len() && b.edges[j] == a.edges[j] && (!a.edges[j].deleted ==> same_target(
            a,
            b,
            ids,
            a.edges[j].index,
            -1,
        )) by {
            lemma_same_records(a, ids, b, j);
        }
    }
    assert((forall|n: int|
        p < n < a.nodes.len() && n != -1 ==> #[trigger] kids(b, dag, n) == kids(a, dag, n))
        ==> kids(b, dag, p) == kids(a, dag, p)) by {
        if forall|n: int|
            p < n < a.nodes.len() && n != -1 ==> #[trigger] kids(b, dag, n) == kids(a, dag, n) {
            assert forall|j: int| first <= j < last implies #[trigger] slot_trees(b, dag, p, j)
                == slot_trees(a, dag, p, j) by {
                lemma_same_records(a, ids, b, j);
                if !a.edges[j].deleted {
                    assert(target_after(a.edges[j].index, p));
                }
                lemma_slot_same(a, dag, b, dag, p, j, -1);
            }
            lemma_range_pointwise(a, dag, b, dag, p, first, last as int);
            lemma_range_deleted(a, dag, p, last as int, old_last);
            lemma_range_split(a, dag, p, first, last as int, old_last);
            assert(range_trees(a, dag, p, first, last as int) + Seq::<Tree>::empty()
                =~= range_trees(a, dag, p, first, last as int));
        }
    }
    assert forall|m: int| 0 <= m < a.nodes.len() implies #[trigger] kids(b, dag, m) == kids(
        a,
        dag,
        m,
    ) by {
        lemma_kids_preserved(a, dag, b, dag, 0, p, -1, m);
    }
}

} // verus!
