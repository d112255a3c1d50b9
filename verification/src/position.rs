//! Finding the nodes of a tree: by the path that leads to them, and by their
//! place in the order in which a parent comes before its children.

use crate::node::{forest_size, Tree};
use vstd::prelude::*;

verus! {

impl Tree {
    /// Whether `path` leads to a node of the tree. A path names, from the root
    /// down, which child to enter; the empty path leads to the root.
    pub open spec fn has(self, path: Seq<int>) -> bool
        decreases path.len(),
    {
        path.len() == 0 || (0 <= path[0] < self.children.len() && self.children[path[0]].has(
            path.drop_first(),
        ))
    }

    /// The node that `path` leads to, with everything below it.
    pub open spec fn at(self, path: Seq<int>) -> Tree
        decreases path.len(),
    {
        if path.len() == 0 {
            self
        } else {
            self.children[path[0]].at(path.drop_first())
        }
    }

    /// Whether the node that `path` leads to is the last of its siblings. The
    /// root, which has none, counts as last.
    pub open spec fn last_at(self, path: Seq<int>) -> bool {
        path.len() == 0 || path.last() + 1 == self.at(path.drop_last()).children.len()
    }

    /// How many nodes come before the node that `path` leads to when every
    /// parent comes before its children and the children keep their order.
    pub open spec fn index_of(self, path: Seq<int>) -> nat
        decreases path.len(),
    {
        if path.len() == 0 {
            0
        } else {
            1 + forest_size(self.children, path[0] as nat) + self.children[path[0]].index_of(
                path.drop_first(),
            )
        }
    }

    /// The path to the node that has `i` nodes before it.
    pub open spec fn path_at(self, i: nat) -> Seq<int>
        decreases self, 0nat,
    {
        if i == 0 {
            Seq::empty()
        } else {
            forest_path_at(self.children, self.children.len(), (i - 1) as nat)
        }
    }
}

/// The path, from the parent of the siblings `trees`, to the node that has `i`
/// nodes before it among the first `n` of them and what is below them.
pub open spec fn forest_path_at(trees: Seq<Tree>, n: nat, i: nat) -> Seq<int>
    decreases trees, n,
{
    if n == 0 || n > trees.len() {
        Seq::empty()
    } else if i >= forest_size(trees, (n - 1) as nat) {
        seq![n - 1] + trees[n - 1].path_at((i - forest_size(trees, (n - 1) as nat)) as nat)
    } else {
        forest_path_at(trees, (n - 1) as nat, i)
    }
}

/// A tree has its root and the nodes of its children.
pub proof fn lemma_size(tree: Tree)
    ensures
        tree.size() == 1 + forest_size(tree.children, tree.children.len()),
        tree.size() >= 1,
{
}

/// Each sibling adds its own nodes to the count.
pub proof fn lemma_forest_size_step(trees: Seq<Tree>, n: nat)
    requires
        0 < n <= trees.len(),
    ensures
        forest_size(trees, n) == forest_size(trees, (n - 1) as nat) + trees[n - 1].size(),
        trees[n - 1].size() >= 1,
{
    lemma_size(trees[n - 1]);
}

/// More siblings have at least as many nodes.
pub proof fn lemma_forest_size_grows(trees: Seq<Tree>, a: nat, b: nat)
    requires
        a <= b <= trees.len(),
    ensures
        forest_size(trees, a) <= forest_size(trees, b),
    decreases b - a,
{
    if a < b {
        lemma_forest_size_step(trees, b);
        lemma_forest_size_grows(trees, a, (b - 1) as nat);
    }
}

/// Every node has a place among the nodes of its tree.
pub proof fn lemma_index_in_range(tree: Tree, path: Seq<int>)
    requires
        tree.has(path),
    ensures
        tree.index_of(path) < tree.size(),
    decreases path.len(),
{
    lemma_size(tree);
    if path.len() > 0 {
        let j = path[0];
        lemma_index_in_range(tree.children[j], path.drop_first());
        lemma_forest_size_step(tree.children, (j + 1) as nat);
        lemma_forest_size_grows(tree.children, (j + 1) as nat, tree.children.len());
    }
}

/// Every place below the size of a tree is the place of one of its nodes, and
/// `path_at` finds the path to it.
pub proof fn lemma_path_at(tree: Tree, i: nat)
    requires
        i < tree.size(),
    ensures
        tree.has(tree.path_at(i)),
        tree.index_of(tree.path_at(i)) == i,
    decreases tree, 0nat,
{
    lemma_size(tree);
    if i > 0 {
        let n = tree.children.len();
        let path = forest_path_at(tree.children, n, (i - 1) as nat);
        assert(tree.path_at(i) == path);
        lemma_forest_path_at(tree.children, n, (i - 1) as nat);
    } else {
        assert(tree.path_at(i) == Seq::<int>::empty());
    }
}

/// The same for a place among the first `n` of some siblings.
pub proof fn lemma_forest_path_at(trees: Seq<Tree>, n: nat, i: nat)
    requires
        n <= trees.len(),
        i < forest_size(trees, n),
    ensures
        ({
            let path = forest_path_at(trees, n, i);
            &&& path.len() > 0
            &&& 0 <= path[0] < n
            &&& trees[path[0]].has(path.drop_first())
            &&& forest_size(trees, path[0] as nat) + trees[path[0]].index_of(path.drop_first())
                == i
        }),
    decreases trees, n,
{
    if n == 0 {
        assert(forest_size(trees, 0) == 0);
    } else {
        lemma_forest_size_step(trees, n);
        let before = forest_size(trees, (n - 1) as nat);
        if i >= before {
            let rest = trees[n - 1].path_at((i - before) as nat);
            assert(forest_path_at(trees, n, i) == seq![n - 1] + rest);
            assert((seq![n - 1] + rest).drop_first() == rest);
            lemma_path_at(trees[n - 1], (i - before) as nat);
        } else {
            assert(forest_path_at(trees, n, i) == forest_path_at(trees, (n - 1) as nat, i));
            lemma_forest_path_at(trees, (n - 1) as nat, i);
        }
    }
}

/// Two nodes of a tree never share a place: from the place of a node,
/// `path_at` finds the path back to that node.
pub proof fn lemma_path_of_index(tree: Tree, path: Seq<int>)
    requires
        tree.has(path),
    ensures
        tree.path_at(tree.index_of(path)) == path,
    decreases path.len(),
{
    if path.len() == 0 {
        assert(tree.path_at(0) == Seq::<int>::empty());
    } else {
        let j = path[0];
        let rest = path.drop_first();
        let k = tree.children[j].index_of(rest);
        let i = tree.index_of(path);
        lemma_index_in_range(tree.children[j], rest);
        lemma_path_of_index(tree.children[j], rest);
        assert(tree.path_at(i) == forest_path_at(
            tree.children,
            tree.children.len(),
            (i - 1) as nat,
        ));
        lemma_forest_path_of_index(tree.children, tree.children.len(), j, k);
        assert(seq![j] + rest == path);
    }
}

/// The same among the first `n` of some siblings, for the node at place `k`
/// below the sibling `j`.
pub proof fn lemma_forest_path_of_index(trees: Seq<Tree>, n: nat, j: int, k: nat)
    requires
        0 <= j < n <= trees.len(),
        k < trees[j].size(),
    ensures
        forest_path_at(trees, n, forest_size(trees, j as nat) + k) == seq![j] + trees[j].path_at(
            k,
        ),
    decreases n,
{
    let i = forest_size(trees, j as nat) + k;
    if j == n - 1 {
        assert(forest_path_at(trees, n, i) == seq![n - 1] + trees[n - 1].path_at(
            (i - forest_size(trees, (n - 1) as nat)) as nat,
        ));
    } else {
        lemma_forest_size_step(trees, (j + 1) as nat);
        lemma_forest_size_grows(trees, (j + 1) as nat, (n - 1) as nat);
        assert(forest_path_at(trees, n, i) == forest_path_at(trees, (n - 1) as nat, i));
        lemma_forest_path_of_index(trees, (n - 1) as nat, j, k);
    }
}

} // verus!
