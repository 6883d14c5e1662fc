//! The records of the arena and of the cluster table.

use vstd::prelude::*;

verus! {

/// One child slot during a merge: the parent's place among the nodes and
/// the slot's place among the edges.
#[derive(Clone, Copy, Debug)]
pub struct NodeHandle {
    /// The parent's position among the nodes.
    pub parent: usize,
    /// The position of the child's edge among the edges.
    pub child: usize,
}

/// What a node or leaf currently stands for: a raw label, or the cluster
/// that a merge has put in its place. Both carry an id of the unified space.
#[derive(Clone, Copy, Debug, PartialEq, Eq, Structural)]
pub enum Data {
    Label(usize),
    Cluster(usize),
}

impl Data {
    /// The id in the unified space, whichever kind it is.
    pub open spec fn id(self) -> usize {
        match self {
            Data::Label(id) => id,
            Data::Cluster(id) => id,
        }
    }

    /// The id in the unified space, whichever kind it is.
    pub fn get_id(&self) -> (id: usize)
        ensures
            id == self.id(),
    {
        match self {
            Data::Label(id) => *id,
            Data::Cluster(id) => *id,
        }
    }
}

/// A record without children.
#[derive(Clone, Copy, Debug)]
pub struct Leaf {
    pub deleted: bool,
    pub data: Data,
}

/// A record with children: they are the edges from `first_child` up to, not
/// including, `last_child`.
#[derive(Clone, Copy, Debug)]
pub struct Node {
    pub deleted: bool,
    pub data: Data,
    /// The position of the first child among the edges (inclusive).
    pub first_child: usize,
    /// The position behind the last child among the edges (exclusive).
    pub last_child: usize,
}

impl Node {
    /// A live node with the given label and no children yet.
    pub fn new(label: usize) -> (node: Node)
        ensures
            node == (Node { deleted: false, data: Data::Label(label), first_child: 0, last_child: 0 }),
    {
        Node { deleted: false, data: Data::Label(label), first_child: 0, last_child: 0 }
    }
}

/// What an edge points at: a node or a leaf, each by its position in its own array.
#[derive(Clone, Copy, Debug, PartialEq, Eq, Structural)]
pub enum Target {
    NodeRef(usize),
    LeafRef(usize),
}

/// A link from a parent to one child.
#[derive(Clone, Copy, Debug)]
pub struct Edge {
    pub deleted: bool,
    pub index: Target,
}

impl Edge {
    /// An unused slot: deleted, pointing nowhere in particular.
    pub fn vacant() -> (edge: Edge)
        ensures
            edge == (Edge { deleted: true, index: Target::NodeRef(0) }),
    {
        Edge { deleted: true, index: Target::NodeRef(0) }
    }
}

impl Default for Edge {
    fn default() -> (edge: Edge)
        ensures
            edge == (Edge { deleted: true, index: Target::NodeRef(0) }),
    {
        Edge { deleted: true, index: Target::NodeRef(0) }
    }
}

/// A record on its way into the arena.
pub enum Child {
    /// A node, and how many children it is going to get.
    Node(Node, Option<usize>),
    /// A leaf.
    Leaf(Leaf),
}

/// The shape of a merge: `AB` contracts a parent-child edge, `CE` absorbs a
/// leaf into its left sibling, `DE` absorbs a leaf into its right sibling.
#[derive(Clone, Copy, Debug, PartialEq, Eq, Hash, Structural)]
pub enum MergeType {
    AB,
    CE,
    DE,
}

impl MergeType {
    /// The number under which a merge shape is stored.
    pub open spec fn code(self) -> nat {
        match self {
            MergeType::AB => 0,
            MergeType::CE => 1,
            MergeType::DE => 2,
        }
    }

    /// The merge shape that a number stands for; every number above 1 reads as `DE`.
    pub open spec fn of_code(integer: nat) -> MergeType {
        if integer == 0 {
            MergeType::AB
        } else if integer == 1 {
            MergeType::CE
        } else {
            MergeType::DE
        }
    }

    /// The merge shape stored under `integer`; every number above 1 reads as `DE`.
    pub fn from_usize(integer: usize) -> (shape: Self)
        ensures
            shape == MergeType::of_code(integer as nat),
    {
        if integer == 0 {
            MergeType::AB
        } else if integer == 1 {
            MergeType::CE
        } else {
            MergeType::DE
        }
    }

    /// The number under which this merge shape is stored.
    pub fn get_usize(&self) -> (integer: usize)
        ensures
            integer == self.code(),
    {
        match self {
            MergeType::AB => 0,
            MergeType::CE => 1,
            MergeType::DE => 2,
        }
    }
}

/// A merge of two earlier items under one shape. Each child is an id of the
/// unified space: below the number of labels a label, from there on a cluster.
#[derive(Clone, Copy, Debug, PartialEq, Eq, Hash, Structural)]
pub struct Cluster {
    /// The shape of the merge.
    pub merge_type: MergeType,
    /// The id of the first child.
    pub first_child: usize,
    /// The id of the second child.
    pub second_child: usize,
}

} // verus!
