//! The ordered labelled tree that is compressed and later rebuilt.

use std::collections::VecDeque;
use vstd::prelude::*;

verus! {

/// An ordered labelled tree as a mathematical value.
pub struct Tree {
    pub label: Seq<char>,
    pub children: Seq<Tree>,
}

/// An ordered labelled tree: a label and the children from left to right.
#[allow(non_camel_case_types)]
#[derive(Debug)]
pub struct IO_Tree {
    pub label: String,
    pub children: VecDeque<IO_Tree>,
}

/// The views of the first `n` trees of a row, in order.
pub open spec fn row_view(trees: VecDeque<IO_Tree>, n: nat) -> Seq<Tree>
    decreases trees, n,
{
    if n == 0 || n > trees@.len() {
        Seq::empty()
    } else {
        row_view(trees, (n - 1) as nat).push(trees@[n - 1].view())
    }
}

impl View for IO_Tree {
    type V = Tree;

    open spec fn view(&self) -> Tree
        decreases self, 0nat,
    {
        Tree { label: self.label@, children: row_view(self.children, self.children@.len()) }
    }
}

/// The views of a row of trees, in order.
pub open spec fn forest_view(trees: Seq<IO_Tree>) -> Seq<Tree> {
    Seq::new(trees.len(), |i: int| trees[i]@)
}

/// The views of the first trees of a row are the views of those trees.
pub proof fn lemma_row_view(trees: VecDeque<IO_Tree>, n: nat)
    requires
        n <= trees@.len(),
    ensures
        row_view(trees, n).len() == n,
        forall|i: int| 0 <= i < n ==> #[trigger] row_view(trees, n)[i] == trees@[i]@,
    decreases n,
{
    if n > 0 {
        lemma_row_view(trees, (n - 1) as nat);
        assert(row_view(trees, n) == row_view(trees, (n - 1) as nat).push(trees@[n - 1].view()));
    } else {
        assert(row_view(trees, n) == Seq::<Tree>::empty());
    }
}

/// The view of a tree is its label over the views of its children.
pub proof fn lemma_view(tree: IO_Tree)
    ensures
        tree@.label == tree.label@,
        tree@.children.len() == tree.children@.len(),
        forall|i: int| 0 <= i < tree.children@.len() ==> #[trigger] tree@.children[i] == tree.children@[i]@,
        tree@.children == forest_view(tree.children@),
{
    lemma_row_view(tree.children, tree.children@.len());
    assert(tree@.children =~= forest_view(tree.children@));
}

impl IO_Tree {
    /// A node that has no children yet.
    pub fn leaf(label: String) -> (tree: IO_Tree)
        ensures
            tree@ == (Tree { label: label@, children: Seq::empty() }),
    {
        let tree = IO_Tree { label, children: VecDeque::new() };
        proof {
            lemma_view(tree);
            assert(tree@.children =~= Seq::empty());
        }
        tree
    }

    /// A node with the given children.
    pub fn node(label: String, children: VecDeque<IO_Tree>) -> (tree: IO_Tree)
        ensures
            tree@ == (Tree { label: label@, children: forest_view(children@) }),
    {
        let tree = IO_Tree { label, children };
        proof {
            lemma_view(tree);
        }
        tree
    }

    /// Whether two trees are the same: the same labels, the same number of
    /// children in the same order, at every node.
    pub fn equals(&self, other: &IO_Tree) -> (same: bool)
        ensures
            same == (self@ == other@),
        decreases self,
    {
        proof {
            lemma_view(*self);
            lemma_view(*other);
        }
        if !(self.label == other.label) {
            return false;
        }
        if self.children.len() != other.children.len() {
            return false;
        }
        let mut i: usize = 0;
        while i < self.children.len()
            invariant
                i <= self.children@.len(),
                self.children@.len() == other.children@.len(),
                forall|j: int| 0 <= j < i ==> #[trigger] self.children@[j]@ == other.children@[j]@,
            decreases self.children@.len() - i,
        {
            if !self.children[i].equals(&other.children[i]) {
                proof {
                    lemma_view(*self);
                    lemma_view(*other);
                    assert(self@.children[i as int] != other@.children[i as int]);
                }
                return false;
            }
            i += 1;
        }
        proof {
            assert(self@.children =~= other@.children);
        }
        true
    }

    /// A copy of the tree.
    pub fn duplicate(&self) -> (copy: IO_Tree)
        ensures
            copy@ == self@,
        decreases self,
    {
        let mut children: VecDeque<IO_Tree> = VecDeque::new();
        let mut i: usize = 0;
        while i < self.children.len()
            invariant
                i <= self.children@.len(),
                children@.len() == i,
                forall|j: int| 0 <= j < i ==> #[trigger] children@[j]@ == self.children@[j]@,
            decreases self.children@.len() - i,
        {
            children.push_back(self.children[i].duplicate());
            i += 1;
        }
        let copy = IO_Tree { label: self.label.clone(), children };
        proof {
            lemma_view(*self);
            lemma_view(copy);
            assert(copy@.children =~= self@.children);
        }
        copy
    }
}

} // verus!
