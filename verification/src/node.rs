//! The tree of directory entries and its mathematical model.

use vstd::prelude::*;

verus! {

/// One entry of a directory tree: its display name and the entries below it,
/// in the order in which the directory listed them.
#[derive(Debug)]
pub struct DirNode {
    pub children: Vec<DirNode>,
    pub name: String,
}

/// The mathematical model of a [`DirNode`].
pub ghost struct Tree {
    pub name: Seq<char>,
    pub children: Seq<Tree>,
}

impl View for DirNode {
    type V = Tree;

    open spec fn view(&self) -> Tree
        decreases self, 0nat,
    {
        Tree { name: self.name@, children: forest_view(self.children@, self.children@.len()) }
    }
}

/// The models of the first `n` of `nodes`.
pub open spec fn forest_view(nodes: Seq<DirNode>, n: nat) -> Seq<Tree>
    decreases nodes, n,
{
    if n == 0 || n > nodes.len() {
        Seq::empty()
    } else {
        forest_view(nodes, (n - 1) as nat).push(nodes[n - 1]@)
    }
}

/// `forest_view` goes through the nodes one by one.
pub proof fn lemma_forest_view(nodes: Seq<DirNode>, n: nat)
    requires
        n <= nodes.len(),
    ensures
        forest_view(nodes, n).len() == n,
        forall|i: int| 0 <= i < n ==> #[trigger] forest_view(nodes, n)[i] == nodes[i]@,
    decreases n,
{
    if n > 0 {
        lemma_forest_view(nodes, (n - 1) as nat);
        assert(forest_view(nodes, n) == forest_view(nodes, (n - 1) as nat).push(nodes[n - 1]@));
    } else {
        assert(forest_view(nodes, 0) == Seq::<Tree>::empty());
    }
}

impl DirNode {
    /// The model of a node has the node's name, and the models of its children
    /// as its children.
    pub proof fn lemma_view(&self)
        ensures
            self@.name == self.name@,
            self@.children.len() == self.children@.len(),
            forall|i: int|
                0 <= i < self.children@.len() ==> #[trigger] self@.children[i]
                    == self.children@[i]@,
    {
        lemma_forest_view(self.children@, self.children@.len());
    }
}

impl Tree {
    /// Whether every node of the tree has a name that is not empty.
    pub open spec fn named(self) -> bool
        decreases self,
    {
        self.name.len() > 0 && forall|i: int|
            0 <= i < self.children.len() ==> (#[trigger] self.children[i]).named()
    }

    /// The number of nodes of the tree.
    pub open spec fn size(self) -> nat
        decreases self, 0nat,
    {
        1 + forest_size(self.children, self.children.len())
    }
}

/// The number of nodes of the first `n` trees of `trees`.
pub open spec fn forest_size(trees: Seq<Tree>, n: nat) -> nat
    decreases trees, n,
{
    if n == 0 || n > trees.len() {
        0
    } else {
        forest_size(trees, (n - 1) as nat) + trees[n - 1].size()
    }
}

} // verus!
