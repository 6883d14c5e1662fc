//! From the input tree to the arena: one record per node, one edge per
//! link, the labels interned on the way.

use vstd::prelude::*;
use crate::arena::Arena;
use crate::dag::Dag;
use crate::error::TopDagError;
use crate::forest::{
    compact_at, kids, lemma_kids_preserved, lemma_range_pointwise, live_leafs, live_nodes, range_trees, same_below, same_target,
    slot_trees, target_after, target_live, valid, ArenaView,
};
use crate::io_tree::{IO_Tree, Tree};
use crate::labels::{distinct, first_at, LabelTable};
use crate::pass_model::State;
use crate::reach::{hangs, held, no_orphans, rooted, tree_like};
use crate::structs::{Child, Data, Edge, Leaf, Node, Target};
use crate::tables::Tables;

verus! {

/// The label of the synthetic root. No other node but the root of the
/// input may carry it.
pub open spec fn dummy_label() -> Seq<char> {
    "Dummy_node"@
}

/// One of the first `n` trees uses the reserved label somewhere.
pub open spec fn any_reserved(trees: Seq<Tree>, n: nat) -> bool
    decreases trees, n,
{
    if n == 0 || n > trees.len() {
        false
    } else {
        any_reserved(trees, (n - 1) as nat) || uses_reserved(trees[n - 1])
    }
}

/// The tree carries the reserved label at its root or further down.
pub open spec fn uses_reserved(tree: Tree) -> bool
    decreases tree, 0nat,
{
    tree.label == dummy_label() || any_reserved(tree.children, tree.children.len())
}

/// The labels after `name` was interned.
pub open spec fn interned(labels: Seq<Seq<char>>, name: Seq<char>) -> Seq<Seq<char>> {
    if labels.contains(name) {
        labels
    } else {
        labels.push(name)
    }
}

/// The labels after the first `n` trees were interned, one after the
/// other.
pub open spec fn interned_forest(labels: Seq<Seq<char>>, trees: Seq<Tree>, n: nat) -> Seq<Seq<char>>
    decreases trees, n,
{
    if n == 0 || n > trees.len() {
        labels
    } else {
        interned_tree(interned_forest(labels, trees, (n - 1) as nat), trees[n - 1])
    }
}

/// The labels after a tree was interned: its own label first, then its
/// children from left to right, each with all that is below it.
pub open spec fn interned_tree(labels: Seq<Seq<char>>, tree: Tree) -> Seq<Seq<char>>
    decreases tree, 0nat,
{
    interned_forest(interned(labels, tree.label), tree.children, tree.children.len())
}

/// Interning a label keeps every label at one place only.
pub proof fn lemma_interned_distinct(labels: Seq<Seq<char>>, name: Seq<char>)
    requires
        distinct(labels),
    ensures
        distinct(interned(labels, name)),
{
    if !labels.contains(name) {
        let after = labels.push(name);
        assert forall|i: int, j: int| 0 <= i < j < after.len() implies after[i] != after[j] by {
            if j == labels.len() {
                assert(labels.contains(labels[i]));
            }
        }
    }
}

/// Interning the first `n` trees keeps every label at one place only.
pub proof fn lemma_forest_distinct(labels: Seq<Seq<char>>, trees: Seq<Tree>, n: nat)
    requires
        distinct(labels),
    ensures
        distinct(interned_forest(labels, trees, n)),
    decreases trees, n,
{
    if n == 0 || n > trees.len() {
    } else {
        lemma_forest_distinct(labels, trees, (n - 1) as nat);
        lemma_tree_distinct(interned_forest(labels, trees, (n - 1) as nat), trees[n - 1]);
    }
}

/// Interning a tree keeps every label at one place only.
pub proof fn lemma_tree_distinct(labels: Seq<Seq<char>>, tree: Tree)
    requires
        distinct(labels),
    ensures
        distinct(interned_tree(labels, tree)),
    decreases tree, 0nat,
{
    lemma_interned_distinct(labels, tree.label);
    lemma_forest_distinct(interned(labels, tree.label), tree.children, tree.children.len());
}

/// The number of nodes without children among the first `n` trees.
pub open spec fn leaves_forest(trees: Seq<Tree>, n: nat) -> nat
    decreases trees, n,
{
    if n == 0 || n > trees.len() {
        0
    } else {
        leaves_forest(trees, (n - 1) as nat) + leaves_tree(trees[n - 1])
    }
}

/// The number of nodes of a tree that have no children.
pub open spec fn leaves_tree(tree: Tree) -> nat
    decreases tree, 0nat,
{
    if tree.children.len() == 0 {
        1
    } else {
        leaves_forest(tree.children, tree.children.len())
    }
}

/// The number of nodes among the first `n` trees.
pub open spec fn count_forest(trees: Seq<Tree>, n: nat) -> nat
    decreases trees, n,
{
    if n == 0 || n > trees.len() {
        0
    } else {
        count_forest(trees, (n - 1) as nat) + count_tree(trees[n - 1])
    }
}

/// The number of nodes of a tree.
pub open spec fn count_tree(tree: Tree) -> nat
    decreases tree, 0nat,
{
    1 + count_forest(tree.children, tree.children.len())
}

/// The end of the slots that were set aside for node `n`: where the next
/// node's slots begin, or the end of the edges.
pub open spec fn reserved_end(a: ArenaView, n: int) -> int {
    if n + 1 < a.nodes.len() {
        a.nodes[n + 1].first_child as int
    } else {
        a.edges.len() as int
    }
}

/// The arena is consistent, no record in it is deleted, no node has a
/// deleted edge among its slots, and the slots that are set aside behind
/// a node's last child are vacant.
pub open spec fn growing(a: ArenaView, ids: int) -> bool {
    &&& valid(a, ids)
    &&& forall|n: int| 0 <= n < a.nodes.len() ==> !(#[trigger] a.nodes[n]).deleted
    &&& forall|l: int| 0 <= l < a.leafs.len() ==> !(#[trigger] a.leafs[l]).deleted
    &&& forall|n: int| 0 <= n < a.nodes.len() ==> compact_at(a, n)
    &&& forall|n: int, j: int|
        #![trigger a.nodes[n], a.edges[j]]
        0 <= n < a.nodes.len() && a.nodes[n].last_child <= j < reserved_end(a, n)
            ==> a.edges[j].deleted
}

/// The slots of every node lie in the edge array, and the slots of an
/// earlier node lie before those of a later one.
pub open spec fn ranged(a: ArenaView) -> bool {
    &&& forall|n: int|
        0 <= n < a.nodes.len() ==> (#[trigger] a.nodes[n]).first_child <= a.nodes[n].last_child
            <= a.edges.len()
    &&& forall|n: int, m: int|
        0 <= n < m < a.nodes.len() ==> (#[trigger] a.nodes[n]).last_child <= (
        #[trigger] a.nodes[m]).first_child
}

/// The edges of the slots of node `n`, in order: its children.
pub open spec fn children_of(a: ArenaView, n: int) -> Seq<Edge> {
    a.edges.subrange(a.nodes[n].first_child as int, a.nodes[n].last_child as int)
}

/// The arena after the record of `child` was put at the end of its array,
/// a node with its slots set aside at the end of the edges.
pub open spec fn placed(a: ArenaView, child: Child) -> ArenaView {
    match child {
        Child::Leaf(leaf) => ArenaView { nodes: a.nodes, leafs: a.leafs.push(leaf), edges: a.edges },
        Child::Node(node, _) => ArenaView {
            nodes: a.nodes.push(
                Node {
                    deleted: node.deleted,
                    data: node.data,
                    first_child: a.edges.len() as usize,
                    last_child: a.edges.len() as usize,
                },
            ),
            leafs: a.leafs,
            edges: a.edges + Seq::new(
                slots_for(child),
                |i: int| Edge { deleted: true, index: Target::NodeRef(0) },
            ),
        },
    }
}

/// The slot behind the last child of `parent` is there, vacant, and not
/// the first slot of the next node.
pub open spec fn slot_free(b: ArenaView, parent: int) -> bool {
    let slot = b.nodes[parent].last_child as int;
    &&& slot < b.edges.len()
    &&& b.edges[slot].deleted
    &&& (parent + 1 < b.nodes.len() ==> b.nodes[parent + 1].first_child > slot)
}

/// Node `n` after an edge was squeezed in behind the last child of
/// `parent`: the parent has one slot more, and the slots of every later
/// node lie one place further on.
pub open spec fn moved(node: Node, n: int, parent: int) -> Node {
    if n == parent {
        Node {
            deleted: node.deleted,
            data: node.data,
            first_child: node.first_child,
            last_child: (node.last_child + 1) as usize,
        }
    } else if n > parent {
        Node {
            deleted: node.deleted,
            data: node.data,
            first_child: (node.first_child + 1) as usize,
            last_child: (node.last_child + 1) as usize,
        }
    } else {
        node
    }
}

/// The arena after `link` was squeezed in behind the last child of
/// `parent`.
pub open spec fn squeezed(b: ArenaView, parent: int, link: Edge) -> ArenaView {
    ArenaView {
        nodes: Seq::new(b.nodes.len(), |n: int| moved(b.nodes[n], n, parent)),
        leafs: b.leafs,
        edges: b.edges.insert(b.nodes[parent].last_child as int, link),
    }
}

/// The arena after `link` was put into the free slot behind the last
/// child of `parent`.
pub open spec fn put(b: ArenaView, parent: int, link: Edge) -> ArenaView {
    ArenaView {
        nodes: b.nodes.update(parent, moved(b.nodes[parent], parent, parent)),
        leafs: b.leafs,
        edges: b.edges.update(b.nodes[parent].last_child as int, link),
    }
}

/// The arena after `child` was pushed as the next child of `parent`. The
/// record goes to the end of its array. The edge to it goes into the slot
/// behind the parent's last child if that slot is free; else it is
/// squeezed in there, and the slots of all later nodes move on by one.
pub open spec fn after_push(a: ArenaView, parent: int, child: Child) -> ArenaView {
    let b = placed(a, child);
    let link = Edge { deleted: false, index: new_target(a, child) };
    if slot_free(b, parent) {
        put(b, parent, link)
    } else {
        squeezed(b, parent, link)
    }
}

/// A push gives the parent one more child behind those it has, and leaves
/// the children of every other node as they are.
pub proof fn lemma_after_push(a: ArenaView, parent: int, child: Child)
    requires
        ranged(a),
        0 <= parent < a.nodes.len(),
        a.edges.len() + slots_for(child) <= usize::MAX,
        !slot_free(placed(a, child), parent) ==> a.edges.len() + slots_for(child) < usize::MAX,
    ensures
        children_of(after_push(a, parent, child), parent) == children_of(a, parent).push(
            Edge { deleted: false, index: new_target(a, child) },
        ),
        forall|n: int|
            0 <= n < a.nodes.len() && n != parent ==> #[trigger] children_of(
                after_push(a, parent, child),
                n,
            ) == children_of(a, n),
        forall|n: int|
            0 <= n < a.nodes.len() ==> (#[trigger] after_push(a, parent, child).nodes[n]).deleted
                == a.nodes[n].deleted && after_push(a, parent, child).nodes[n].data
                == a.nodes[n].data,
        ranged(after_push(a, parent, child)),
{
    let b = placed(a, child);
    let c = after_push(a, parent, child);
    let link = Edge { deleted: false, index: new_target(a, child) };
    let slot = a.nodes[parent].last_child as int;
    assert(a.nodes[parent].first_child <= slot <= a.edges.len());
    assert(b.nodes[parent] == a.nodes[parent]);
    assert forall|n: int| 0 <= n < a.nodes.len() implies #[trigger] b.nodes[n] == a.nodes[n] by {}
    assert forall|j: int| 0 <= j < a.edges.len() implies #[trigger] b.edges[j] == a.edges[j] by {}
    assert forall|n: int| 0 <= n < a.nodes.len() && n < parent implies (#[trigger] a.nodes[n]).last_child
        <= slot by {
        assert(a.nodes[n].last_child <= a.nodes[parent].first_child);
    }
    assert forall|n: int| parent < n < a.nodes.len() implies slot <= (#[trigger] a.nodes[n]).first_child by {
        assert(a.nodes[parent].last_child <= a.nodes[n].first_child);
    }
    if slot_free(b, parent) {
        assert forall|n: int| parent < n < a.nodes.len() implies slot < (#[trigger] a.nodes[n]).first_child by {
            assert(b.nodes[parent + 1] == a.nodes[parent + 1]);
            if n > parent + 1 {
                assert(a.nodes[parent + 1].last_child <= a.nodes[n].first_child);
            }
            assert(a.nodes[parent + 1].first_child <= a.nodes[parent + 1].last_child);
        }
        assert(children_of(c, parent) =~= children_of(a, parent).push(link));
        assert forall|n: int| 0 <= n < a.nodes.len() && n != parent implies #[trigger] children_of(c, n)
            == children_of(a, n) by {
            assert(c.nodes[n] == a.nodes[n]);
            assert(a.nodes[n].first_child <= a.nodes[n].last_child <= a.edges.len());
            assert(children_of(c, n) =~= children_of(a, n));
        }
        assert forall|n: int, m: int| 0 <= n < m < c.nodes.len() implies (#[trigger] c.nodes[n]).last_child
            <= (#[trigger] c.nodes[m]).first_child by {
            if m < a.nodes.len() {
                assert(a.nodes[n].last_child <= a.nodes[m].first_child);
            } else {
                assert(a.nodes[n].last_child <= a.edges.len());
            }
        }
        assert forall|n: int| 0 <= n < c.nodes.len() implies (#[trigger] c.nodes[n]).first_child
            <= c.nodes[n].last_child <= c.edges.len() by {
            if n < a.nodes.len() {
                assert(a.nodes[n].first_child <= a.nodes[n].last_child <= a.edges.len());
            }
        }
    } else {
        assert(c.edges.len() == b.edges.len() + 1);
        assert forall|j: int| 0 <= j < slot implies #[trigger] c.edges[j] == b.edges[j] by {}
        assert forall|j: int| slot < j < c.edges.len() implies #[trigger] c.edges[j] == b.edges[j - 1] by {}
        assert(c.edges[slot] == link);
        assert(children_of(c, parent) =~= children_of(a, parent).push(link));
        assert forall|n: int| 0 <= n < a.nodes.len() && n != parent implies #[trigger] children_of(c, n)
            == children_of(a, n) by {
            assert(a.nodes[n].first_child <= a.nodes[n].last_child <= a.edges.len());
            assert(c.nodes[n] == moved(a.nodes[n], n, parent));
            assert(children_of(c, n) =~= children_of(a, n));
        }
        assert forall|n: int, m: int| 0 <= n < m < c.nodes.len() implies (#[trigger] c.nodes[n]).last_child
            <= (#[trigger] c.nodes[m]).first_child by {
            if m < a.nodes.len() {
                assert(a.nodes[n].last_child <= a.nodes[m].first_child);
            } else {
                assert(a.nodes[n].last_child <= a.edges.len());
            }
        }
        assert forall|n: int| 0 <= n < c.nodes.len() implies (#[trigger] c.nodes[n]).first_child
            <= c.nodes[n].last_child <= c.edges.len() by {
            if n < a.nodes.len() {
                assert(a.nodes[n].first_child <= a.nodes[n].last_child <= a.edges.len());
            }
        }
    }
}

/// The record is live, and a node has no slots yet.
pub open spec fn fresh(child: Child, ids: int) -> bool {
    match child {
        Child::Leaf(leaf) => !leaf.deleted && leaf.data.id() < ids,
        Child::Node(node, _) => !node.deleted && node.data.id() < ids,
    }
}

/// The number of slots that are set aside for a new node.
pub open spec fn slots_for(child: Child) -> nat {
    match child {
        Child::Leaf(_) => 0,
        Child::Node(_, Some(k)) => k as nat,
        Child::Node(_, None) => 1,
    }
}

/// What the edge to a new record points at.
pub open spec fn new_target(a: ArenaView, child: Child) -> Target {
    match child {
        Child::Leaf(_) => Target::LeafRef(a.leafs.len() as usize),
        Child::Node(_, _) => Target::NodeRef(a.nodes.len() as usize),
    }
}

/// The arena after `child` was pushed as the next child of `parent`: the
/// record stands at the end of its array, a node with its slots set aside
/// at the end of the edges, and the next slot of `parent` leads to it.
pub open spec fn pushed(a: ArenaView, parent: int, child: Child) -> ArenaView {
    let slot = a.nodes[parent].last_child as int;
    let up = Node {
        deleted: a.nodes[parent].deleted,
        data: a.nodes[parent].data,
        first_child: a.nodes[parent].first_child,
        last_child: (slot + 1) as usize,
    };
    let link = Edge { deleted: false, index: new_target(a, child) };
    match child {
        Child::Leaf(leaf) => ArenaView {
            nodes: a.nodes.update(parent, up),
            leafs: a.leafs.push(leaf),
            edges: a.edges.update(slot, link),
        },
        Child::Node(node, _) => ArenaView {
            nodes: a.nodes.push(
                Node {
                    deleted: node.deleted,
                    data: node.data,
                    first_child: a.edges.len() as usize,
                    last_child: a.edges.len() as usize,
                },
            ).update(parent, up),
            leafs: a.leafs,
            edges: (a.edges + Seq::new(
                slots_for(child),
                |i: int| Edge { deleted: true, index: Target::NodeRef(0) },
            )).update(slot, link),
        },
    }
}

/// Pushing a child into a growing arena leaves it growing; the slots that
/// were set aside for the parent are still set aside, and a new node has
/// its own.
#[verifier::rlimit(30)]
proof fn lemma_pushed(a: ArenaView, ids: int, parent: int, child: Child)
    requires
        growing(a, ids),
        a.nodes.len() <= usize::MAX,
        a.leafs.len() <= usize::MAX,
        a.edges.len() <= usize::MAX,
        0 <= parent < a.nodes.len(),
        a.nodes[parent].last_child < reserved_end(a, parent),
        fresh(child, ids),
    ensures
        growing(pushed(a, parent, child), ids),
        reserved_end(pushed(a, parent, child), parent) == reserved_end(a, parent),
        child is Node ==> reserved_end(pushed(a, parent, child), a.nodes.len() as int)
            == a.edges.len() + slots_for(child),
        after_push(a, parent, child) == pushed(a, parent, child),
        ranged(a),
{
    let b = pushed(a, parent, child);
    let slot = a.nodes[parent].last_child as int;
    let t = new_target(a, child);
    assert(after_push(a, parent, child) == pushed(a, parent, child)) by {
        let placed = placed(a, child);
        assert(a.nodes[parent].last_child <= a.edges.len());
        if parent + 1 < a.nodes.len() {
            assert(a.nodes[parent + 1].first_child <= a.nodes[parent + 1].last_child);
        }
        assert(slot < a.edges.len());
        assert(a.edges[slot].deleted);
        assert(placed.edges[slot] == a.edges[slot]);
        assert(slot_free(placed, parent));
        assert(put(placed, parent, Edge { deleted: false, index: t }) =~= b);
    }
    assert(slot < a.edges.len()) by {
        if parent + 1 < a.nodes.len() {
            assert(a.nodes[parent + 1].first_child <= a.nodes[parent + 1].last_child);
        }
    }
    assert forall|n: int| parent < n < a.nodes.len() implies slot < (#[trigger] a.nodes[n]).first_child by {
        if n > parent + 1 {
            assert(a.nodes[parent + 1].last_child <= a.nodes[n].first_child);
        }
        assert(a.nodes[parent + 1].first_child <= a.nodes[parent + 1].last_child);
    }
    assert forall|n: int| 0 <= n < b.nodes.len() implies (#[trigger] b.nodes[n]).first_child
        <= b.nodes[n].last_child <= b.edges.len() && !b.nodes[n].deleted && b.nodes[n].data.id()
        < ids by {
        if n < a.nodes.len() {
            assert(a.nodes[n].first_child <= a.nodes[n].last_child);
            assert(a.nodes[n].data.id() < ids);
        }
    }
    assert forall|n: int, m: int| 0 <= n < m < b.nodes.len() implies (#[trigger] b.nodes[n]).last_child
        <= (#[trigger] b.nodes[m]).first_child by {
        if m < a.nodes.len() {
            assert(a.nodes[n].last_child <= a.nodes[m].first_child);
        } else {
            assert(a.nodes[n].last_child <= a.edges.len());
        }
    }
    assert forall|l: int| 0 <= l < b.leafs.len() implies !(#[trigger] b.leafs[l]).deleted
        && b.leafs[l].data.id() < ids by {
        if l < a.leafs.len() {
            assert(a.leafs[l].data.id() < ids);
        }
    }
    assert forall|j: int| 0 <= j < b.edges.len() && !(#[trigger] b.edges[j]).deleted implies target_live(
        b,
        b.edges[j].index,
    ) && (j != slot ==> j < a.edges.len() && b.edges[j] == a.edges[j] && target_live(
        a,
        a.edges[j].index,
    )) by {
        if j != slot {
            assert(j < a.edges.len());
            assert(target_live(a, a.edges[j].index));
        }
    }
    assert forall|i: int, j: int|
        0 <= i < j < b.edges.len() && !(#[trigger] b.edges[i]).deleted && !(
        #[trigger] b.edges[j]).deleted implies b.edges[i].index != b.edges[j].index by {
        if i != slot && j != slot {
            assert(a.edges[i].index != a.edges[j].index);
        } else if i == slot {
            assert(target_live(a, a.edges[j].index));
        } else {
            assert(target_live(a, a.edges[i].index));
        }
    }
    assert forall|n: int, j: int|
        #![trigger b.nodes[n], b.edges[j]]
        0 <= n < b.nodes.len() && b.nodes[n].first_child <= j < b.nodes[n].last_child
            && !b.edges[j].deleted implies target_after(b.edges[j].index, n) by {
        if j == slot {
            if n < a.nodes.len() && n != parent {
                if n < parent {
                    assert(a.nodes[n].last_child <= a.nodes[parent].first_child);
                } else {
                    assert(slot < a.nodes[n].first_child);
                }
            }
        } else {
            assert(j < a.edges.len());
            assert(b.edges[j] == a.edges[j]);
            if n < a.nodes.len() {
                assert(target_after(a.edges[j].index, n));
            }
        }
    }
    assert forall|n: int| 0 <= n < b.nodes.len() implies compact_at(b, n) by {
        assert forall|j: int| b.nodes[n].first_child <= j < b.nodes[n].last_child implies !(
        #[trigger] b.edges[j]).deleted by {
            if j != slot {
                assert(n < a.nodes.len());
                assert(compact_at(a, n));
                assert(a.nodes[n].first_child <= j < a.nodes[n].last_child) by {
                    if n == parent {
                    }
                }
                assert(a.nodes[n].last_child <= a.edges.len());
                assert(!a.edges[j].deleted);
            }
        }
    }
    assert forall|n: int, j: int|
        #![trigger b.nodes[n], b.edges[j]]
        0 <= n < b.nodes.len() && b.nodes[n].last_child <= j < reserved_end(b, n) implies b.edges[j].deleted by {
        if n < a.nodes.len() {
            assert(reserved_end(b, n) == reserved_end(a, n));
            assert(j < a.edges.len()) by {
                if n + 1 < a.nodes.len() {
                    assert(a.nodes[n + 1].first_child <= a.nodes[n + 1].last_child);
                }
            }
            if n == parent {
                assert(a.edges[j].deleted);
            } else {
                if n < parent {
                    assert(a.nodes[n + 1].first_child <= a.nodes[n + 1].last_child);
                    if n + 1 < parent {
                        assert(a.nodes[n + 1].last_child <= a.nodes[parent].first_child);
                    }
                } else {
                    assert(slot < a.nodes[n].first_child);
                    assert(a.nodes[n].first_child <= a.nodes[n].last_child);
                }
                assert(j != slot);
                assert(a.edges[j].deleted);
            }
        }
    }
}

/// `before` is the beginning of `after`.
pub open spec fn begins(before: Seq<Seq<char>>, after: Seq<Seq<char>>) -> bool {
    before.is_prefix_of(after)
}

/// The arena `b` holds everything that `a` holds, unchanged but for the
/// slots of node `node` from `slot` on and the end of its slots.
pub open spec fn keeps(a: ArenaView, b: ArenaView, node: int, slot: int, end: int) -> bool {
    &&& a.nodes.len() <= b.nodes.len()
    &&& a.leafs.len() <= b.leafs.len()
    &&& a.edges.len() <= b.edges.len()
    &&& forall|n: int| 0 <= n < a.nodes.len() && n != node ==> #[trigger] b.nodes[n] == a.nodes[n]
    &&& b.nodes[node].first_child == a.nodes[node].first_child
    &&& b.nodes[node].data == a.nodes[node].data
    &&& forall|l: int| 0 <= l < a.leafs.len() ==> #[trigger] b.leafs[l] == a.leafs[l]
    &&& forall|j: int|
        0 <= j < a.edges.len() && !(slot <= j < end) ==> #[trigger] b.edges[j] == a.edges[j]
}

/// The children that node `node` has so far stand for the same trees
/// after more was added behind them.
#[verifier::rlimit(30)]
proof fn lemma_earlier_kept(
    a: ArenaView,
    dag: Dag,
    b: ArenaView,
    later: Dag,
    node: int,
    end: int,
)
    requires
        valid(a, dag.ids()),
        later.extends(dag),
        0 <= node < a.nodes.len(),
        keeps(a, b, node, a.nodes[node].last_child as int, end),
        a.nodes[node].last_child <= end <= reserved_end(a, node),
    ensures
        range_trees(b, later, node, a.nodes[node].first_child as int, a.nodes[node].last_child as int)
            == range_trees(
            a,
            dag,
            node,
            a.nodes[node].first_child as int,
            a.nodes[node].last_child as int,
        ),
{
    let ids = dag.ids();
    let first = a.nodes[node].first_child as int;
    let slot = a.nodes[node].last_child as int;
    assert forall|n: int| node < n < a.nodes.len() implies end <= (#[trigger] a.nodes[n]).first_child by {
        if n > node + 1 {
            assert(a.nodes[node + 1].last_child <= a.nodes[n].first_child);
        }
        assert(a.nodes[node + 1].first_child <= a.nodes[node + 1].last_child);
    }
    assert forall|n: int| node + 1 <= n < a.nodes.len() implies #[trigger] same_below(
        a,
        b,
        ids,
        n,
        -1,
    ) by {
        assert(b.nodes[n] == a.nodes[n]);
        assert(a.nodes[n].first_child <= a.nodes[n].last_child <= a.edges.len());
        assert forall|j: int|
            #![trigger b.edges[j]]
            a.nodes[n].first_child <= j < a.nodes[n].last_child implies 0 <= j < a.edges.len() && j
            < b.edges.len() && b.edges[j] == a.edges[j] && (!a.edges[j].deleted ==> same_target(
            a,
            b,
            ids,
            a.edges[j].index,
            -1,
        )) by {
            lemma_kept_target(a, ids, b, node, slot, end, j);
        }
    }
    assert forall|j: int| first <= j < slot implies #[trigger] slot_trees(b, later, node, j)
        == slot_trees(a, dag, node, j) by {
        assert(a.nodes[node].first_child <= a.nodes[node].last_child <= a.edges.len());
        lemma_kept_target(a, ids, b, node, slot, end, j);
        if !a.edges[j].deleted {
            assert(target_after(a.edges[j].index, node));
            match a.edges[j].index {
                Target::NodeRef(m) => {
                    lemma_kids_preserved(a, dag, b, later, node + 1, -1, -1, m as int);
                    crate::dag::lemma_expand_extends(
                        dag,
                        later,
                        a.nodes[m as int].data.id() as int,
                        kids(a, dag, m as int),
                    );
                },
                Target::LeafRef(l) => {
                    crate::dag::lemma_expand_extends(
                        dag,
                        later,
                        a.leafs[l as int].data.id() as int,
                        Seq::empty(),
                    );
                },
            }
        }
    }
    lemma_range_pointwise(a, dag, b, later, node, first, slot);
}

proof fn lemma_kept_target(a: ArenaView, ids: int, b: ArenaView, node: int, slot: int, end: int, j: int)
    requires
        valid(a, ids),
        0 <= node < a.nodes.len(),
        keeps(a, b, node, slot, end),
        0 <= j < a.edges.len(),
        !(slot <= j < end),
    ensures
        b.edges[j] == a.edges[j],
        !a.edges[j].deleted ==> same_target(a, b, ids, a.edges[j].index, -1),
{
    if !a.edges[j].deleted {
        assert(target_live(a, a.edges[j].index));
        match a.edges[j].index {
            Target::NodeRef(m) => {
                assert(a.nodes[m as int].data.id() < ids);
                if m != node {
                    assert(b.nodes[m as int] == a.nodes[m as int]);
                }
            },
            Target::LeafRef(l) => {
                assert(a.leafs[l as int].data.id() < ids);
                assert(b.leafs[l as int] == a.leafs[l as int]);
            },
        }
    }
}

/// In a growing arena every record counts.
proof fn lemma_all_live(a: ArenaView)
    requires
        forall|n: int| 0 <= n < a.nodes.len() ==> !(#[trigger] a.nodes[n]).deleted,
        forall|l: int| 0 <= l < a.leafs.len() ==> !(#[trigger] a.leafs[l]).deleted,
    ensures
        live_nodes(a.nodes) == a.nodes.len(),
        live_leafs(a.leafs) == a.leafs.len(),
    decreases a.nodes.len() + a.leafs.len(),
{
    if a.nodes.len() > 0 {
        let shorter = ArenaView { nodes: a.nodes.drop_last(), leafs: a.leafs, edges: a.edges };
        assert forall|n: int| 0 <= n < shorter.nodes.len() implies !(#[trigger] shorter.nodes[n]).deleted by {
            assert(shorter.nodes[n] == a.nodes[n]);
        }
        lemma_all_live(shorter);
        assert(!a.nodes[a.nodes.len() - 1].deleted);
    } else if a.leafs.len() > 0 {
        let shorter = ArenaView { nodes: a.nodes, leafs: a.leafs.drop_last(), edges: a.edges };
        assert forall|l: int| 0 <= l < shorter.leafs.len() implies !(#[trigger] shorter.leafs[l]).deleted by {
            assert(shorter.leafs[l] == a.leafs[l]);
        }
        lemma_all_live(shorter);
        assert(!a.leafs[a.leafs.len() - 1].deleted);
    }
}

impl Arena {
    /// Pushes `child` as the next child of `parent`. The record goes to the
    /// end of its array, a node with its slots set aside at the end of the
    /// edges. The edge to it goes into the slot behind the parent's last
    /// child if that slot is vacant and not the next node's; else it is
    /// squeezed in there, and the slots of all later nodes move on by one.
    ///
    /// The parent has its old children and then the new one; every other
    /// node has the children it had.
    pub fn push_child(&mut self, parent: usize, child: Child) -> (target: Target)
        requires
            parent < old(self).nodes@.len(),
            ranged(old(self)@),
        ensures
            final(self)@ == after_push(old(self)@, parent as int, child),
            target == new_target(old(self)@, child),
            final(self).live == old(self).live,
            children_of(final(self)@, parent as int) == children_of(old(self)@, parent as int).push(
                Edge { deleted: false, index: target },
            ),
            forall|n: int|
                0 <= n < old(self).nodes@.len() && n != parent ==> #[trigger] children_of(
                    final(self)@,
                    n,
                ) == children_of(old(self)@, n),
            forall|n: int|
                0 <= n < old(self).nodes@.len() ==> (#[trigger] final(self).nodes@[n]).deleted == old(
                    self,
                ).nodes@[n].deleted && final(self).nodes@[n].data == old(self).nodes@[n].data,
            match child {
                Child::Leaf(leaf) => final(self).leafs@ == old(self).leafs@.push(leaf)
                    && final(self).nodes@.len() == old(self).nodes@.len(),
                Child::Node(node, _) => {
                    let made = final(self).nodes@[old(self).nodes@.len() as int];
                    &&& final(self).leafs@ == old(self).leafs@
                    &&& final(self).nodes@.len() == old(self).nodes@.len() + 1
                    &&& made.deleted == node.deleted
                    &&& made.data == node.data
                    &&& made.first_child == made.last_child
                },
            },
            ranged(final(self)@),
    {
        let ghost a = self@;
        let slot = self.nodes[parent].last_child;
        let target = match child {
            Child::Leaf(leaf) => {
                let target = Target::LeafRef(self.leafs.len());
                self.leafs.push(leaf);
                target
            },
            Child::Node(node, number_of_children) => {
                let number_of_children = match number_of_children {
                    Some(k) => k,
                    None => 1,
                };
                let target = Target::NodeRef(self.nodes.len());
                let start = self.edges.len();
                self.nodes.push(
                    Node {
                        deleted: node.deleted,
                        data: node.data,
                        first_child: start,
                        last_child: start,
                    },
                );
                let mut reserved: usize = 0;
                while reserved < number_of_children
                    invariant
                        reserved <= number_of_children,
                        self.edges@ == a.edges + Seq::new(
                            reserved as nat,
                            |i: int| Edge { deleted: true, index: Target::NodeRef(0) },
                        ),
                        self.nodes@ == a.nodes.push(
                            Node {
                                deleted: node.deleted,
                                data: node.data,
                                first_child: start,
                                last_child: start,
                            },
                        ),
                        self.leafs@ == a.leafs,
                        self.live == old(self).live,
                    decreases number_of_children - reserved,
                {
                    self.edges.push(Edge::vacant());
                    reserved += 1;
                    assert(self.edges@ =~= a.edges + Seq::new(
                        reserved as nat,
                        |i: int| Edge { deleted: true, index: Target::NodeRef(0) },
                    ));
                }
                target
            },
        };
        let ghost b = self@;
        let link = Edge { deleted: false, index: target };
        assert(b =~= placed(a, child));
        assert(b.nodes[parent as int] == a.nodes[parent as int]);
        assert(slot <= a.edges.len());
        assert(self.edges@.len() == self.edges.len());
        assert(self.nodes@.len() == self.nodes.len());
        assert(b.edges.len() == a.edges.len() + slots_for(child));
        let free = slot < self.edges.len() && self.edges[slot].deleted && (parent + 1
            >= self.nodes.len() || self.nodes[parent + 1].first_child > slot);
        assert(free == slot_free(b, parent as int));
        if free {
            self.edges[slot] = link;
            self.nodes[parent].last_child = slot + 1;
            assert(self@ =~= put(b, parent as int, link));
            proof {
                lemma_after_push(a, parent as int, child);
            }
        } else {
            self.edges.insert(slot, link);
            assert(self.edges@.len() == self.edges.len());
            proof {
                lemma_after_push(a, parent as int, child);
            }
            assert forall|n: int| 0 <= n < b.nodes.len() implies (#[trigger] b.nodes[n]).first_child
                <= b.nodes[n].last_child <= b.edges.len() by {
                if n < a.nodes.len() {
                    assert(a.nodes[n].first_child <= a.nodes[n].last_child <= a.edges.len());
                }
            }
            self.nodes[parent].last_child = slot + 1;
            assert(self.nodes@[parent as int] == moved(b.nodes[parent as int], parent as int, parent as int));
            let count = self.nodes.len();
            let mut index = parent + 1;
            while index < count
                invariant
                    parent < index <= count,
                    count == b.nodes.len(),
                    self.nodes@.len() == count,
                    self.leafs@ == b.leafs,
                    self.edges@ == b.edges.insert(slot as int, link),
                    self.live == old(self).live,
                    b.edges.len() < usize::MAX,
                    0 <= slot <= b.edges.len(),
                    forall|n: int|
                        0 <= n < index ==> #[trigger] self.nodes@[n] == moved(b.nodes[n], n, parent as int),
                    forall|n: int| index <= n < count ==> #[trigger] self.nodes@[n] == b.nodes[n],
                    forall|n: int|
                        0 <= n < count ==> (#[trigger] b.nodes[n]).first_child <= b.nodes[n].last_child
                            <= b.edges.len(),
                decreases count - index,
            {
                assert(self.nodes@[index as int] == b.nodes[index as int]);
                let first = self.nodes[index].first_child;
                let last = self.nodes[index].last_child;
                self.nodes[index].first_child = first + 1;
                self.nodes[index].last_child = last + 1;
                assert(self.nodes@[index as int] == moved(b.nodes[index as int], index as int, parent as int));
                index += 1;
            }
            assert(self@.nodes =~= squeezed(b, parent as int, link).nodes);
            assert(self@ =~= squeezed(b, parent as int, link));
        }
        target
    }
}

/// The table of the given labels without any cluster.
pub open spec fn bare(labels: Seq<Seq<char>>) -> Dag {
    Dag { labels, clusters: Seq::empty() }
}

/// What is reserved among the first trees is reserved among all of them.
proof fn lemma_any_reserved_grows(trees: Seq<Tree>, i: nat, n: nat)
    requires
        any_reserved(trees, i),
        i <= n <= trees.len(),
    ensures
        any_reserved(trees, n),
    decreases n - i,
{
    if i < n {
        lemma_any_reserved_grows(trees, i, (n - 1) as nat);
    }
}

/// A label keeps its id when more labels are interned.
proof fn lemma_interned_begins(labels: Seq<Seq<char>>, name: Seq<char>)
    ensures
        begins(labels, interned(labels, name)),
        interned(labels, name).contains(name),
{
    let after = interned(labels, name);
    if !labels.contains(name) {
        assert(after[labels.len() as int] == name);
    }
}

/// After one more child was attached below `node` and everything below
/// that child was inserted, the children of `node` stand for one more tree.
#[verifier::rlimit(30)]
proof fn lemma_child_attached(
    a: ArenaView,
    labels: Seq<Seq<char>>,
    b: ArenaView,
    later: Seq<Seq<char>>,
    node: int,
    end: int,
    label_id: usize,
    child: Tree,
    so_far: Seq<Tree>,
)
    requires
        valid(a, labels.len() as int),
        valid(b, later.len() as int),
        begins(labels, later),
        0 <= node < a.nodes.len(),
        keeps(a, b, node, a.nodes[node].last_child as int, end),
        a.nodes[node].last_child < end <= reserved_end(a, node),
        b.nodes[node].last_child == a.nodes[node].last_child + 1,
        range_trees(
            a,
            bare(labels),
            node,
            a.nodes[node].first_child as int,
            a.nodes[node].last_child as int,
        ) == so_far,
        label_id < later.len(),
        later[label_id as int] == child.label,
        !b.edges[a.nodes[node].last_child as int].deleted,
        match b.edges[a.nodes[node].last_child as int].index {
            Target::LeafRef(l) => l < b.leafs.len() && b.leafs[l as int].data.id() == label_id
                && child.children == Seq::<Tree>::empty(),
            Target::NodeRef(m) => node < m < b.nodes.len() && b.nodes[m as int].data.id() == label_id
                && kids(b, bare(later), m as int) == child.children,
        },
    ensures
        kids(b, bare(later), node) == so_far.push(child),
{
    let first = a.nodes[node].first_child as int;
    let slot = a.nodes[node].last_child as int;
    lemma_earlier_kept(a, bare(labels), b, bare(later), node, end);
    assert(slot_trees(b, bare(later), node, slot) == seq![child]) by {
        assert(a.nodes[node].last_child <= a.edges.len());
        assert(bare(later).expand(label_id as int, child.children) == seq![
            Tree { label: later[label_id as int], children: child.children },
        ]);
    }
    assert(range_trees(b, bare(later), node, first, slot + 1) == range_trees(
        b,
        bare(later),
        node,
        first,
        slot,
    ) + slot_trees(b, bare(later), node, slot));
    assert(so_far + seq![child] =~= so_far.push(child));
}

impl Arena {
    /// Inserts the children of `tree` below `node`, each with all that is
    /// below it, from left to right. A child without children becomes a
    /// leaf, any other a node with as many slots as it has children; the
    /// labels are interned in the order in which the nodes are met. It
    /// fails at the first node that carries the reserved label.
    #[verifier::rlimit(30)]
    fn rec_insert_tree(
        &mut self,
        labels: &mut LabelTable,
        dummy: &String,
        node: usize,
        tree: &IO_Tree,
    ) -> (result: Result<(), TopDagError>)
        requires
            growing(old(self)@, old(labels)@.len() as int),
            no_orphans(old(self)@),
            node < old(self).nodes@.len(),
            old(self).nodes@[node as int].last_child == old(self).nodes@[node as int].first_child,
            old(self).nodes@[node as int].first_child + tree.children@.len() <= reserved_end(
                old(self)@,
                node as int,
            ),
            dummy@ == dummy_label(),
        ensures
            match result {
                Ok(()) => {
                    &&& growing(final(self)@, final(labels)@.len() as int)
                    &&& no_orphans(final(self)@)
                    &&& keeps(
                        old(self)@,
                        final(self)@,
                        node as int,
                        old(self).nodes@[node as int].first_child as int,
                        old(self).nodes@[node as int].first_child + tree.children@.len(),
                    )
                    &&& final(self).nodes@[node as int].last_child == old(self).nodes@[node as int].first_child
                        + tree.children@.len()
                    &&& begins(old(labels)@, final(labels)@)
                    &&& final(labels)@ == interned_forest(
                        old(labels)@,
                        tree@.children,
                        tree@.children.len(),
                    )
                    &&& kids(final(self)@, bare(final(labels)@), node as int) == tree@.children
                    &&& !any_reserved(tree@.children, tree@.children.len())
                    &&& final(self).live == old(self).live
                    &&& final(self).nodes@.len() + final(self).leafs@.len() == old(self).nodes@.len()
                        + old(self).leafs@.len() + count_forest(tree@.children, tree@.children.len())
                    &&& final(self).leafs@.len() == old(self).leafs@.len() + leaves_forest(
                        tree@.children,
                        tree@.children.len(),
                    )
                    &&& final(self).edges@.len() + tree@.children.len() == old(self).edges@.len()
                        + count_forest(tree@.children, tree@.children.len())
                    &&& forall|m: int|
                        old(self).nodes@.len() <= m < final(self).nodes@.len() ==> (
                        #[trigger] final(self).nodes@[m]).first_child < final(self).nodes@[m].last_child
                    &&& (State { arena: final(self)@, dag: bare(final(labels)@) }) == laid_forest(
                        State { arena: old(self)@, dag: bare(old(labels)@) },
                        node as int,
                        tree@.children,
                        tree@.children.len(),
                    )
                },
                Err(e) => e == TopDagError::ReservedLabelCollision && any_reserved(
                    tree@.children,
                    tree@.children.len(),
                ),
            },
        decreases tree,
    {
        let first = self.nodes[node].first_child;
        let count = tree.children.len();
        let ghost trees = tree@.children;
        proof {
            crate::io_tree::lemma_view(*tree);
        }
        let mut i: usize = 0;
        while i < count
            invariant
                i <= count,
                count == tree.children@.len(),
                trees == tree@.children,
                trees.len() == count,
                dummy@ == dummy_label(),
                growing(self@, labels@.len() as int),
                no_orphans(self@),
                node < old(self).nodes@.len(),
                first == old(self).nodes@[node as int].first_child,
                keeps(old(self)@, self@, node as int, first as int, first + count),
                self.nodes@[node as int].last_child == first + i,
                first + count <= reserved_end(self@, node as int),
                begins(old(labels)@, labels@),
                labels@ == interned_forest(old(labels)@, trees, i as nat),
                range_trees(self@, bare(labels@), node as int, first as int, first + i) == trees.take(
                    i as int,
                ),
                !any_reserved(trees, i as nat),
                self.live == old(self).live,
                self.nodes@.len() + self.leafs@.len() == old(self).nodes@.len() + old(
                    self,
                ).leafs@.len() + count_forest(trees, i as nat),
                self.leafs@.len() == old(self).leafs@.len() + leaves_forest(trees, i as nat),
                self.edges@.len() + i == old(self).edges@.len() + count_forest(trees, i as nat),
                forall|m: int|
                    old(self).nodes@.len() <= m < self.nodes@.len() ==> (#[trigger] self.nodes@[m]).first_child
                        < self.nodes@[m].last_child,
                (State { arena: self@, dag: bare(labels@) }) == laid_forest(
                    State { arena: old(self)@, dag: bare(old(labels)@) },
                    node as int,
                    trees,
                    i as nat,
                ),
            decreases count - i,
        {
            let child = &tree.children[i];
            let ghost a0 = self@;
            let ghost names0 = labels@;
            proof {
                crate::io_tree::lemma_view(*tree);
                crate::io_tree::lemma_view(*child);
            }
            assert(trees[i as int] == child@);
            if child.label == *dummy {
                proof {
                    assert(uses_reserved(child@));
                    assert(any_reserved(trees, (i + 1) as nat));
                    lemma_any_reserved_grows(trees, (i + 1) as nat, count as nat);
                }
                return Err(TopDagError::ReservedLabelCollision);
            }
            let label_id = labels.insert_label(&child.label);
            let ghost names1 = labels@;
            proof {
                lemma_interned_begins(names0, child.label@);
                assert(names1 == interned(names0, child.label@));
            }
            let number_of_children = child.children.len();
            let new_child = if number_of_children == 0 {
                Child::Leaf(Leaf { deleted: false, data: Data::Label(label_id) })
            } else {
                Child::Node(Node::new(label_id), Some(number_of_children))
            };
            proof {
                assert(growing(a0, names1.len() as int));
                assert(self.nodes@.len() == self.nodes.len() && self.leafs@.len()
                    == self.leafs.len() && self.edges@.len() == self.edges.len());
                lemma_pushed(a0, names1.len() as int, node as int, new_child);
                lemma_pushed_held(a0, names1.len() as int, node as int, new_child);
                assert(a0.nodes[node as int].last_child < a0.edges.len()) by {
                    if node + 1 < a0.nodes.len() {
                        assert(a0.nodes[node + 1].first_child <= a0.nodes[node + 1].last_child);
                    }
                }
            }
            let target = self.push_child(node, new_child);
            let ghost a1 = self@;
            proof {
                lemma_id_in(names1, child.label@, label_id as int);
                assert(new_child == record_for(label_id, child@.children.len()));
            }
            match target {
                Target::NodeRef(position) => {
                    match self.rec_insert_tree(labels, dummy, position, child) {
                        Ok(()) => {},
                        Err(e) => {
                            proof {
                                assert(uses_reserved(child@));
                                assert(any_reserved(trees, (i + 1) as nat));
                                lemma_any_reserved_grows(trees, (i + 1) as nat, count as nat);
                            }
                            return Err(e);
                        },
                    }
                },
                Target::LeafRef(_) => {
                    proof {
                        assert(child@.children =~= Seq::<Tree>::empty());
                    }
                },
            }
            proof {
                let a2 = self@;
                let names2 = labels@;
                assert(begins(names0, names2));
                assert(names2[label_id as int] == child.label@);
                assert(keeps(a0, a2, node as int, first + i, first + count));
                assert(a2.edges[first + i] == a1.edges[first + i]);
                lemma_child_attached(
                    a0,
                    names0,
                    a2,
                    names2,
                    node as int,
                    first + count,
                    label_id,
                    child@,
                    trees.take(i as int),
                );
                assert(trees.take(i as int).push(child@) =~= trees.take(i + 1));
                assert(names2 == interned_forest(old(labels)@, trees, (i + 1) as nat)) by {
                    assert(interned_tree(names0, child@) == interned_forest(
                        names1,
                        child@.children,
                        child@.children.len(),
                    ));
                }
                assert(!uses_reserved(child@));
                assert(count_tree(child@) == 1 + count_forest(child@.children, child@.children.len()));
                assert(count_forest(trees, (i + 1) as nat) == count_forest(trees, i as nat)
                    + count_tree(child@));
                assert(leaves_forest(trees, (i + 1) as nat) == leaves_forest(trees, i as nat)
                    + leaves_tree(child@));
                assert(a1.edges.len() == a0.edges.len() + number_of_children);
                assert forall|m: int| old(self).nodes@.len() <= m < a2.nodes.len() implies (
                #[trigger] a2.nodes[m]).first_child < a2.nodes[m].last_child by {
                    if m < a0.nodes.len() {
                        assert(a2.nodes[m] == a0.nodes[m]);
                    }
                }
                assert((State { arena: a2, dag: bare(names2) }) == laid_tree(
                    State { arena: a0, dag: bare(names0) },
                    node as int,
                    child@,
                ));
            }
            i += 1;
        }
        proof {
            assert(trees.take(count as int) =~= trees);
        }
        Ok(())
    }
}

/// The labels of a build of `tree`: the reserved label, then the labels of
/// the tree in the order in which its nodes are met.
pub open spec fn labels_of(tree: Tree) -> Seq<Seq<char>> {
    interned_tree(seq![dummy_label()], tree)
}

/// After a push every record still hangs in a slot of a node: the new
/// one in the slot that it was given, the others where they hung.
proof fn lemma_pushed_held(a: ArenaView, ids: int, parent: int, child: Child)
    requires
        growing(a, ids),
        no_orphans(a),
        a.nodes.len() <= usize::MAX,
        a.leafs.len() <= usize::MAX,
        a.edges.len() <= usize::MAX,
        0 <= parent < a.nodes.len(),
        a.nodes[parent].last_child < reserved_end(a, parent),
        fresh(child, ids),
    ensures
        no_orphans(pushed(a, parent, child)),
{
    let b = pushed(a, parent, child);
    let slot = a.nodes[parent].last_child as int;
    let fresh_target = new_target(a, child);
    assert(a.nodes[parent].last_child <= a.edges.len());
    if parent + 1 < a.nodes.len() {
        assert(a.nodes[parent + 1].first_child <= a.nodes[parent + 1].last_child);
    }
    assert(slot < a.edges.len());
    assert(a.edges[slot].deleted);
    assert(!a.nodes[parent].deleted);
    assert forall|t: Target| target_live(b, t) && t != Target::NodeRef(0) implies #[trigger] held(
        b,
        t,
    ) by {
        if t == fresh_target {
            assert(hangs(b, t, parent, slot));
        } else {
            assert(target_live(a, t));
            assert(held(a, t));
            let (n, j) = choose|n: int, j: int| hangs(a, t, n, j);
            assert(j != slot);
            assert(b.edges[j] == a.edges[j]);
            assert(!a.nodes[n].deleted);
            assert(hangs(b, t, n, j));
        }
    }
}

/// The id of `name` among `labels`: the first place at which it stands.
pub open spec fn id_in(labels: Seq<Seq<char>>, name: Seq<char>) -> int {
    choose|id: int| first_at(labels, name, id)
}

/// A label has one first place only.
pub proof fn lemma_id_in(labels: Seq<Seq<char>>, name: Seq<char>, id: int)
    requires
        first_at(labels, name, id),
    ensures
        id_in(labels, name) == id,
{
    let other = id_in(labels, name);
    assert(first_at(labels, name, other));
    if other < id {
        assert(labels[other] != name);
    }
    if id < other {
        assert(labels[id] != name);
    }
}

/// The record of a tree node with label `id`: a leaf if it has no
/// children, else a node that sets as many slots aside as it has children.
pub open spec fn record_for(id: usize, children: nat) -> Child {
    if children == 0 {
        Child::Leaf(Leaf { deleted: false, data: Data::Label(id) })
    } else {
        Child::Node(
            Node { deleted: false, data: Data::Label(id), first_child: 0, last_child: 0 },
            Some(children as usize),
        )
    }
}

/// The arena and the labels after the first `n` of `trees` were laid out
/// below node `parent`, one after the other.
pub open spec fn laid_forest(s: State, parent: int, trees: Seq<Tree>, n: nat) -> State
    decreases trees, n,
{
    if n == 0 || n > trees.len() {
        s
    } else {
        laid_tree(laid_forest(s, parent, trees, (n - 1) as nat), parent, trees[n - 1])
    }
}

/// The arena and the labels after `tree` was laid out as the next child
/// of node `parent`: its label is interned, its record is pushed, and its
/// children are laid out below that record.
pub open spec fn laid_tree(s: State, parent: int, tree: Tree) -> State
    decreases tree, 0nat,
{
    let labels = interned(s.dag.labels, tree.label);
    let child = record_for(id_in(labels, tree.label) as usize, tree.children.len());
    let next = State { arena: after_push(s.arena, parent, child), dag: bare(labels) };
    match new_target(s.arena, child) {
        Target::NodeRef(at) => laid_forest(next, at as int, tree.children, tree.children.len()),
        Target::LeafRef(_) => next,
    }
}

/// The arena before a tree is laid out: the synthetic root with one slot
/// set aside, and its label.
pub open spec fn first_state() -> State {
    State {
        arena: ArenaView {
            nodes: seq![Node { deleted: false, data: Data::Label(0), first_child: 0, last_child: 0 }],
            leafs: Seq::empty(),
            edges: seq![Edge { deleted: true, index: Target::NodeRef(0) }],
        },
        dag: bare(seq![dummy_label()]),
    }
}

/// The arena and the tables of a build of `tree` before the first round.
pub open spec fn ingested(tree: Tree) -> State {
    laid_tree(first_state(), 0, tree)
}

/// No label stands twice among the labels of a build.
pub proof fn lemma_labels_distinct(tree: Tree)
    ensures
        distinct(labels_of(tree)),
{
    lemma_tree_distinct(seq![dummy_label()], tree);
}

/// The records, the synthetic root among them, and the labels of a build
/// of `tree` are more than a `usize` can number.
pub open spec fn too_large(tree: Tree) -> bool {
    count_tree(tree) + 1 + labels_of(tree).len() > usize::MAX
}

/// The reserved label as a string.
pub fn dummy_node_label() -> (label: String)
    ensures
        label@ == dummy_label(),
{
    "Dummy_node".to_owned()
}

/// Builds the arena and the tables for `tree`: the synthetic root, below
/// it the tree, one record per node, and every label interned.
///
/// It fails with `ReservedLabelCollision` if a node other than the root
/// carries the reserved label, and else with `CapacityExceeded` if the
/// records and labels are too many.
pub fn ingest(tree: &IO_Tree) -> (result: Result<(Arena, Tables), TopDagError>)
    ensures
        match result {
            Ok((arena, tables)) => {
                &&& arena.steady(&tables)
                &&& tables@ == bare(labels_of(tree@))
                &&& arena.pending(tables@) == seq![tree@]
                &&& arena.live == count_tree(tree@) + 1
                &&& arena.nodes@.len() + arena.leafs@.len() == count_tree(tree@) + 1
                &&& arena.leafs@.len() == leaves_tree(tree@)
                &&& arena.edges@.len() == count_tree(tree@)
                &&& arena.state(&tables) == ingested(tree@)
                &&& arena.edges@[arena.nodes@[0].first_child as int].index is LeafRef
                    <==> tree@.children.len() == 0
            },
            Err(e) => e == TopDagError::ReservedLabelCollision || e == TopDagError::CapacityExceeded,
        },
        result == Err::<(Arena, Tables), TopDagError>(TopDagError::ReservedLabelCollision)
            <==> any_reserved(tree@.children, tree@.children.len()),
        result == Err::<(Arena, Tables), TopDagError>(TopDagError::CapacityExceeded) <==> !any_reserved(
            tree@.children,
            tree@.children.len(),
        ) && too_large(tree@),
{
    let dummy = dummy_node_label();
    let mut labels = LabelTable::new();
    let dummy_label_id = labels.insert_label(&dummy);
    let mut arena = Arena { nodes: Vec::new(), leafs: Vec::new(), edges: Vec::new(), live: 0 };
    arena.nodes.push(Node::new(dummy_label_id));
    arena.edges.push(Edge::vacant());
    let ghost names0 = labels@;
    proof {
        assert(names0 =~= seq![dummy_label()]);
        crate::io_tree::lemma_view(*tree);
    }
    let root_label_id = labels.insert_label(&tree.label);
    let ghost names1 = labels@;
    let number_of_children = tree.children.len();
    let child = if number_of_children == 0 {
        Child::Leaf(Leaf { deleted: false, data: Data::Label(root_label_id) })
    } else {
        Child::Node(Node::new(root_label_id), Some(number_of_children))
    };
    let ghost a0 = arena@;
    proof {
        lemma_interned_begins(names0, tree.label@);
        assert(names1 == interned(names0, tree.label@));
        assert(growing(a0, names1.len() as int));
        lemma_pushed(a0, names1.len() as int, 0, child);
        assert(no_orphans(a0)) by {
            assert forall|t: Target| target_live(a0, t) && t != Target::NodeRef(0) implies #[trigger] held(
                a0,
                t,
            ) by {}
        }
        lemma_pushed_held(a0, names1.len() as int, 0, child);
    }
    let target = arena.push_child(0, child);
    let ghost a1 = arena@;
    proof {
        lemma_id_in(names1, tree.label@, root_label_id as int);
        assert(child == record_for(root_label_id, tree@.children.len()));
        assert(a0 =~= first_state().arena);
    }
    match target {
        Target::NodeRef(position) => {
            match arena.rec_insert_tree(&mut labels, &dummy, position, tree) {
                Ok(()) => {},
                Err(e) => {
                    return Err(e);
                },
            }
        },
        Target::LeafRef(_) => {
            proof {
                assert(tree@.children =~= Seq::<Tree>::empty());
            }
        },
    }
    let ghost a2 = arena@;
    let ghost names2 = labels@;
    proof {
        assert(names2 == labels_of(tree@));
        assert(begins(names1, names2));
        assert(names2[root_label_id as int] == tree.label@);
        assert(a2.edges[0] == a1.edges[0]);
        assert(range_trees(a0, bare(names0), 0, 0, 0) =~= Seq::<Tree>::empty());
        lemma_child_attached(
            a0,
            names0,
            a2,
            names2,
            0,
            1,
            root_label_id,
            tree@,
            Seq::<Tree>::empty(),
        );
        assert(Seq::<Tree>::empty().push(tree@) =~= seq![tree@]);
        lemma_all_live(a2);
        assert(count_tree(tree@) == 1 + count_forest(tree@.children, tree@.children.len()));
        assert(a2.nodes.len() + a2.leafs.len() == count_tree(tree@) + 1);
        assert(a1.edges.len() == 1 + number_of_children);
        assert(a2.leafs.len() == leaves_tree(tree@));
        assert(a2.edges.len() == count_tree(tree@));
        assert((State { arena: a2, dag: bare(names2) }) == ingested(tree@));
        assert(a2.nodes[0].first_child == 0);
    }
    let records = match arena.nodes.len().checked_add(arena.leafs.len()) {
        Some(records) => records,
        None => {
            return Err(TopDagError::CapacityExceeded);
        },
    };
    if records > usize::MAX - labels.len() {
        return Err(TopDagError::CapacityExceeded);
    }
    arena.live = records;
    let tables = Tables::new(labels);
    proof {
        assert(tables@ == bare(names2));
        assert(tree_like(arena@));
        assert(rooted(arena@, tables@));
        assert(crate::forest::compact(arena@));
        assert(crate::arena::populated(arena@)) by {
            assert forall|n: int| 0 <= n < arena@.nodes.len() implies (#[trigger] arena@.nodes[n]).first_child
                < arena@.nodes[n].last_child by {
                if n == 0 {
                } else if n < a1.nodes.len() {
                } else {
                }
            }
        }
    }
    Ok((arena, tables))
}

} // verus!
