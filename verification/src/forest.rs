//! What an arena of nodes, leaves and edges means: the trees that are still
//! to be merged, and why a merge does not change them.

use vstd::prelude::*;
use crate::dag::{lemma_expand_extends, Dag};
use crate::io_tree::Tree;
use crate::structs::{Edge, Leaf, Node, Target};

verus! {

/// An arena as a mathematical value.
pub struct ArenaView {
    pub nodes: Seq<Node>,
    pub leafs: Seq<Leaf>,
    pub edges: Seq<Edge>,
}

/// The trees that the edge in slot `j` of node `n` stands for: none if the
/// edge is deleted, else what its target's id expands to over the target's
/// own children.
pub open spec fn slot_trees(a: ArenaView, dag: Dag, n: int, j: int) -> Seq<Tree>
    decreases a.nodes.len() - n, 0int, 0int,
{
    if j < 0 || j >= a.edges.len() || a.edges[j].deleted {
        Seq::empty()
    } else {
        match a.edges[j].index {
            Target::LeafRef(l) => if l < a.leafs.len() {
                dag.expand(a.leafs[l as int].data.id() as int, Seq::empty())
            } else {
                Seq::empty()
            },
            Target::NodeRef(m) => if n < m && m < a.nodes.len() {
                dag.expand(a.nodes[m as int].data.id() as int, kids(a, dag, m as int))
            } else {
                Seq::empty()
            },
        }
    }
}

/// The trees of the slots from `lo` up to, not including, `hi`, in order.
pub open spec fn range_trees(a: ArenaView, dag: Dag, n: int, lo: int, hi: int) -> Seq<Tree>
    decreases a.nodes.len() - n, 1int, hi - lo,
{
    if lo >= hi {
        Seq::empty()
    } else {
        range_trees(a, dag, n, lo, hi - 1) + slot_trees(a, dag, n, hi - 1)
    }
}

/// The trees below node `n`: those of its slots, in order.
pub open spec fn kids(a: ArenaView, dag: Dag, n: int) -> Seq<Tree>
    decreases a.nodes.len() - n, 2int, 0int,
{
    if 0 <= n < a.nodes.len() {
        range_trees(a, dag, n, a.nodes[n].first_child as int, a.nodes[n].last_child as int)
    } else {
        Seq::empty()
    }
}

/// The record that `target` names exists and is not deleted.
pub open spec fn target_live(a: ArenaView, target: Target) -> bool {
    match target {
        Target::NodeRef(m) => m < a.nodes.len() && !a.nodes[m as int].deleted,
        Target::LeafRef(l) => l < a.leafs.len() && !a.leafs[l as int].deleted,
    }
}

/// A node that `target` names comes after node `n`.
pub open spec fn target_after(target: Target, n: int) -> bool {
    match target {
        Target::NodeRef(m) => n < m,
        Target::LeafRef(_) => true,
    }
}

/// The id that the record named by `target` carries.
pub open spec fn target_id(a: ArenaView, target: Target) -> usize {
    match target {
        Target::NodeRef(m) => a.nodes[m as int].data.id(),
        Target::LeafRef(l) => a.leafs[l as int].data.id(),
    }
}

/// The arena is consistent. Every node's slots lie in the edge array, and
/// the slots of an earlier node lie before those of a later one. A live
/// edge points at a live record, no two live edges point at the same
/// record, and a live edge among a node's slots points at a leaf or at a
/// later node. Every id is below `ids`.
pub open spec fn valid(a: ArenaView, ids: int) -> bool {
    &&& a.nodes.len() >= 1
    &&& forall|n: int|
        0 <= n < a.nodes.len() ==> (#[trigger] a.nodes[n]).first_child <= a.nodes[n].last_child
            <= a.edges.len()
    &&& forall|n: int, m: int|
        0 <= n < m < a.nodes.len() ==> (#[trigger] a.nodes[n]).last_child <= (
        #[trigger] a.nodes[m]).first_child
    &&& forall|j: int|
        0 <= j < a.edges.len() && !(#[trigger] a.edges[j]).deleted ==> target_live(
            a,
            a.edges[j].index,
        )
    &&& forall|i: int, j: int|
        0 <= i < j < a.edges.len() && !(#[trigger] a.edges[i]).deleted && !(
        #[trigger] a.edges[j]).deleted ==> a.edges[i].index != a.edges[j].index
    &&& forall|n: int, j: int|
        #![trigger a.nodes[n], a.edges[j]]
        0 <= n < a.nodes.len() && a.nodes[n].first_child <= j < a.nodes[n].last_child
            && !a.edges[j].deleted ==> target_after(a.edges[j].index, n)
    &&& forall|n: int| 0 <= n < a.nodes.len() ==> (#[trigger] a.nodes[n]).data.id() < ids
    &&& forall|l: int| 0 <= l < a.leafs.len() ==> (#[trigger] a.leafs[l]).data.id() < ids
}

/// None of node `n`'s slots holds a deleted edge.
pub open spec fn compact_at(a: ArenaView, n: int) -> bool {
    forall|j: int|
        a.nodes[n].first_child <= j < a.nodes[n].last_child ==> !(#[trigger] a.edges[j]).deleted
}

/// No live node has a deleted edge among its slots.
pub open spec fn compact(a: ArenaView) -> bool {
    forall|n: int|
        0 <= n < a.nodes.len() && !(#[trigger] a.nodes[n]).deleted ==> compact_at(a, n)
}

/// The number of nodes that are not deleted.
pub open spec fn live_nodes(nodes: Seq<Node>) -> nat
    decreases nodes.len(),
{
    if nodes.len() == 0 {
        0
    } else {
        live_nodes(nodes.drop_last()) + if nodes.last().deleted {
            0nat
        } else {
            1nat
        }
    }
}

/// The number of leaves that are not deleted.
pub open spec fn live_leafs(leafs: Seq<Leaf>) -> nat
    decreases leafs.len(),
{
    if leafs.len() == 0 {
        0
    } else {
        live_leafs(leafs.drop_last()) + if leafs.last().deleted {
            0nat
        } else {
            1nat
        }
    }
}

/// The number of records that are not deleted.
pub open spec fn live_records(a: ArenaView) -> nat {
    live_nodes(a.nodes) + live_leafs(a.leafs)
}

pub(crate) proof fn lemma_live_nodes_update(nodes: Seq<Node>, at: int, node: Node)
    requires
        0 <= at < nodes.len(),
    ensures
        live_nodes(nodes.update(at, node)) + (if nodes[at].deleted {
            0nat
        } else {
            1nat
        }) == live_nodes(nodes) + (if node.deleted {
            0nat
        } else {
            1nat
        }),
    decreases nodes.len(),
{
    let after = nodes.update(at, node);
    if at == nodes.len() - 1 {
        assert(after.drop_last() =~= nodes.drop_last());
    } else {
        assert(after.drop_last() =~= nodes.drop_last().update(at, node));
        lemma_live_nodes_update(nodes.drop_last(), at, node);
    }
}

pub(crate) proof fn lemma_live_leafs_update(leafs: Seq<Leaf>, at: int, leaf: Leaf)
    requires
        0 <= at < leafs.len(),
    ensures
        live_leafs(leafs.update(at, leaf)) + (if leafs[at].deleted {
            0nat
        } else {
            1nat
        }) == live_leafs(leafs) + (if leaf.deleted {
            0nat
        } else {
            1nat
        }),
    decreases leafs.len(),
{
    let after = leafs.update(at, leaf);
    if at == leafs.len() - 1 {
        assert(after.drop_last() =~= leafs.drop_last());
    } else {
        assert(after.drop_last() =~= leafs.drop_last().update(at, leaf));
        lemma_live_leafs_update(leafs.drop_last(), at, leaf);
    }
}




/// A live node counts.
pub(crate) proof fn lemma_live_node_counts(nodes: Seq<Node>, at: int)
    requires
        0 <= at < nodes.len(),
        !nodes[at].deleted,
    ensures
        live_nodes(nodes) >= 1,
    decreases nodes.len(),
{
    if at < nodes.len() - 1 {
        lemma_live_node_counts(nodes.drop_last(), at);
    }
}

/// A live leaf counts.
pub(crate) proof fn lemma_live_leaf_counts(leafs: Seq<Leaf>, at: int)
    requires
        0 <= at < leafs.len(),
        !leafs[at].deleted,
    ensures
        live_leafs(leafs) >= 1,
    decreases leafs.len(),
{
    if at < leafs.len() - 1 {
        lemma_live_leaf_counts(leafs.drop_last(), at);
    }
}

/// A range is its lower part followed by its upper part.
pub(crate) proof fn lemma_range_split(a: ArenaView, dag: Dag, n: int, lo: int, mid: int, hi: int)
    requires
        lo <= mid <= hi,
    ensures
        range_trees(a, dag, n, lo, hi) == range_trees(a, dag, n, lo, mid) + range_trees(
            a,
            dag,
            n,
            mid,
            hi,
        ),
    decreases hi - mid,
{
    if mid == hi {
        assert(range_trees(a, dag, n, mid, hi) =~= Seq::empty());
        assert(range_trees(a, dag, n, lo, mid) + Seq::<Tree>::empty() =~= range_trees(
            a,
            dag,
            n,
            lo,
            mid,
        ));
    } else {
        lemma_range_split(a, dag, n, lo, mid, hi - 1);
        let s = slot_trees(a, dag, n, hi - 1);
        assert((range_trees(a, dag, n, lo, mid) + range_trees(a, dag, n, mid, hi - 1)) + s
            =~= range_trees(a, dag, n, lo, mid) + (range_trees(a, dag, n, mid, hi - 1) + s));
    }
}

/// A range of one slot is that slot.
pub(crate) proof fn lemma_range_one(a: ArenaView, dag: Dag, n: int, j: int)
    ensures
        range_trees(a, dag, n, j, j + 1) == slot_trees(a, dag, n, j),
{
    assert(range_trees(a, dag, n, j, j) =~= Seq::empty());
    assert(Seq::<Tree>::empty() + slot_trees(a, dag, n, j) =~= slot_trees(a, dag, n, j));
}

/// Two ranges whose slots agree one by one agree.
pub(crate) proof fn lemma_range_pointwise(
    a: ArenaView,
    dag: Dag,
    b: ArenaView,
    later: Dag,
    n: int,
    lo: int,
    hi: int,
)
    requires
        forall|j: int|
            lo <= j < hi ==> #[trigger] slot_trees(b, later, n, j) == slot_trees(a, dag, n, j),
    ensures
        range_trees(b, later, n, lo, hi) == range_trees(a, dag, n, lo, hi),
    decreases hi - lo,
{
    if lo < hi {
        lemma_range_pointwise(a, dag, b, later, n, lo, hi - 1);
        assert(slot_trees(b, later, n, hi - 1) == slot_trees(a, dag, n, hi - 1));
    }
}

/// A range of deleted edges stands for nothing.
pub(crate) proof fn lemma_range_deleted(a: ArenaView, dag: Dag, n: int, lo: int, hi: int)
    requires
        forall|j: int| lo <= j < hi && 0 <= j < a.edges.len() ==> (#[trigger] a.edges[j]).deleted,
    ensures
        range_trees(a, dag, n, lo, hi) == Seq::<Tree>::empty(),
    decreases hi - lo,
{
    if lo < hi {
        lemma_range_deleted(a, dag, n, lo, hi - 1);
        let j = hi - 1;
        if 0 <= j < a.edges.len() {
            assert(a.edges[j].deleted);
        }
        assert(slot_trees(a, dag, n, j) =~= Seq::empty());
        assert(Seq::<Tree>::empty() + Seq::<Tree>::empty() =~= Seq::<Tree>::empty());
    }
}

/// Node `n` of `b` is node `n` of `a` as far as what stands below it goes:
/// the same slots with the same edges, and every live edge among them
/// points at a record of `a` that carries the same id in `b`, and not at
/// node `x`.
pub open spec fn same_below(a: ArenaView, b: ArenaView, ids: int, n: int, x: int) -> bool {
    &&& b.nodes[n].first_child == a.nodes[n].first_child
    &&& b.nodes[n].last_child == a.nodes[n].last_child
    &&& forall|j: int|
        #![trigger b.edges[j]]
        a.nodes[n].first_child <= j < a.nodes[n].last_child ==> 0 <= j < a.edges.len() && j
            < b.edges.len() && b.edges[j] == a.edges[j] && (!a.edges[j].deleted ==> same_target(
            a,
            b,
            ids,
            a.edges[j].index,
            x,
        ))
}

/// The record that `target` names exists in `a`, carries the same id in
/// `b`, an id below `ids`, and is not node `x`.
pub open spec fn same_target(a: ArenaView, b: ArenaView, ids: int, target: Target, x: int) -> bool {
    match target {
        Target::NodeRef(m) => m < a.nodes.len() && m < b.nodes.len() && m != x
            && b.nodes[m as int].data.id() == a.nodes[m as int].data.id()
            && a.nodes[m as int].data.id() < ids,
        Target::LeafRef(l) => l < a.leafs.len() && l < b.leafs.len()
            && b.leafs[l as int].data.id() == a.leafs[l as int].data.id()
            && a.leafs[l as int].data.id() < ids,
    }
}

/// What stands below node `m` is the same in `b` under `later` as in `a`
/// under `dag`, when from `floor` on every node but `p` and `x` is the same
/// below, and node `p` stands for the same as soon as the nodes after it do.
#[verifier::rlimit(30)]
pub(crate) proof fn lemma_kids_preserved(
    a: ArenaView,
    dag: Dag,
    b: ArenaView,
    later: Dag,
    floor: int,
    p: int,
    x: int,
    m: int,
)
    requires
        later.extends(dag),
        a.nodes.len() <= b.nodes.len(),
        0 <= floor <= m < a.nodes.len(),
        m != x,
        forall|n: int|
            floor <= n < a.nodes.len() && n != p && n != x ==> #[trigger] same_below(
                a,
                b,
                dag.ids(),
                n,
                x,
            ),
        floor <= p < a.nodes.len() ==> ((forall|n: int|
            p < n < a.nodes.len() && n != x ==> #[trigger] kids(b, later, n) == kids(a, dag, n))
            ==> kids(b, later, p) == kids(a, dag, p)),
    ensures
        kids(b, later, m) == kids(a, dag, m),
    decreases a.nodes.len() - m, 1int, 0int,
{
    if m == p {
        assert forall|n: int| p < n < a.nodes.len() && n != x implies #[trigger] kids(b, later, n)
            == kids(a, dag, n) by {
            lemma_kids_preserved(a, dag, b, later, floor, p, x, n);
        }
    } else {
        assert(same_below(a, b, dag.ids(), m, x));
        lemma_slots_preserved(
            a,
            dag,
            b,
            later,
            floor,
            p,
            x,
            m,
            a.nodes[m].first_child as int,
            a.nodes[m].last_child as int,
        );
    }
}

/// The slots of node `m` from `lo` to `hi` stand for the same in `b` under
/// `later` as in `a` under `dag`.
#[verifier::rlimit(30)]
proof fn lemma_slots_preserved(
    a: ArenaView,
    dag: Dag,
    b: ArenaView,
    later: Dag,
    floor: int,
    p: int,
    x: int,
    m: int,
    lo: int,
    hi: int,
)
    requires
        later.extends(dag),
        a.nodes.len() <= b.nodes.len(),
        0 <= floor <= m < a.nodes.len(),
        m != x,
        m != p,
        a.nodes[m].first_child <= lo,
        hi <= a.nodes[m].last_child,
        forall|n: int|
            floor <= n < a.nodes.len() && n != p && n != x ==> #[trigger] same_below(
                a,
                b,
                dag.ids(),
                n,
                x,
            ),
        floor <= p < a.nodes.len() ==> ((forall|n: int|
            p < n < a.nodes.len() && n != x ==> #[trigger] kids(b, later, n) == kids(a, dag, n))
            ==> kids(b, later, p) == kids(a, dag, p)),
    ensures
        range_trees(b, later, m, lo, hi) == range_trees(a, dag, m, lo, hi),
    decreases a.nodes.len() - m, 0int, hi - lo,
{
    if lo < hi {
        lemma_slots_preserved(a, dag, b, later, floor, p, x, m, lo, hi - 1);
        let j = hi - 1;
        assert(same_below(a, b, dag.ids(), m, x));
        assert(b.edges[j] == a.edges[j]);
        if !a.edges[j].deleted {
            assert(same_target(a, b, dag.ids(), a.edges[j].index, x));
            match a.edges[j].index {
                Target::LeafRef(l) => {
                    lemma_expand_extends(
                        dag,
                        later,
                        a.leafs[l as int].data.id() as int,
                        Seq::empty(),
                    );
                },
                Target::NodeRef(t) => {
                    if m < t {
                        lemma_kids_preserved(a, dag, b, later, floor, p, x, t as int);
                        lemma_expand_extends(
                            dag,
                            later,
                            a.nodes[t as int].data.id() as int,
                            kids(a, dag, t as int),
                        );
                    }
                },
            }
        }
        assert(slot_trees(b, later, m, j) == slot_trees(a, dag, m, j));
    }
}

} // verus!
