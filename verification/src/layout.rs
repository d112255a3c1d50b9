//! What a diagram shows: one line for each node, in order, indented by the
//! node's depth and marked by whether the node is the last of its siblings.

use crate::node::{forest_size, Tree};
use crate::position::{lemma_forest_size_step, lemma_index_in_range, lemma_path_at, lemma_size};
use crate::render::{column, connector, forest_lines, indent, line};
use vstd::prelude::*;

verus! {

impl Tree {
    /// For each ancestor of the node that `path` leads to, from the root down,
    /// whether that ancestor is the last of its siblings.
    pub open spec fn guides_at(self, path: Seq<int>) -> Seq<bool> {
        Seq::new(path.len(), |k: int| self.last_at(path.take(k)))
    }

    /// The line that belongs to the node that `path` leads to: one column for
    /// each ancestor, the node's own connector, its name.
    pub open spec fn line_at(self, path: Seq<int>) -> Seq<char> {
        line(self.guides_at(path), self.last_at(path), self.at(path).name)
    }

    /// Whether the node that `path` leads to is the last of its siblings, when
    /// the root of this tree is one of several siblings itself, and the last
    /// of them exactly if `last`.
    spec fn flag_at(self, last: bool, path: Seq<int>) -> bool
        decreases path.len(),
    {
        if path.len() == 0 {
            last
        } else {
            self.children[path[0]].flag_at(
                path[0] + 1 == self.children.len(),
                path.drop_first(),
            )
        }
    }

    /// The flags of the ancestors of the node that `path` leads to, this
    /// tree's root among them, under the same reading.
    spec fn flags_above(self, last: bool, path: Seq<int>) -> Seq<bool> {
        Seq::new(path.len(), |k: int| self.flag_at(last, path.take(k)))
    }
}

/// An indentation is two characters wide for each flag.
pub proof fn lemma_indent_len(guides: Seq<bool>)
    ensures
        indent(guides).len() == 2 * guides.len(),
    decreases guides.len(),
{
    if guides.len() > 0 {
        lemma_indent_len(guides.drop_last());
    }
}

/// The `k`-th column of an indentation is drawn from the `k`-th flag.
pub proof fn lemma_indent_column(guides: Seq<bool>, k: int)
    requires
        0 <= k < guides.len(),
    ensures
        indent(guides).subrange(2 * k, 2 * k + 2) == column(guides[k]),
    decreases guides.len(),
{
    let front = guides.drop_last();
    lemma_indent_len(guides);
    lemma_indent_len(front);
    if k == guides.len() - 1 {
        assert(indent(guides).subrange(2 * k, 2 * k + 2) =~= column(guides.last()));
    } else {
        lemma_indent_column(front, k);
        assert(indent(guides).subrange(2 * k, 2 * k + 2) =~= indent(front).subrange(
            2 * k,
            2 * k + 2,
        ));
    }
}

/// A tree is drawn with one line for each of its nodes.
pub proof fn lemma_lines_len(tree: Tree, guides: Seq<bool>, last: bool)
    ensures
        tree.lines(guides, last).len() == tree.size(),
    decreases tree, 0nat,
{
    lemma_size(tree);
    lemma_forest_lines_len(tree.children, guides.push(last), tree.children.len());
    assert(tree.lines(guides, last) == seq![line(guides, last, tree.name)] + forest_lines(
        tree.children,
        guides.push(last),
        tree.children.len(),
    ));
}

/// Siblings are drawn with one line for each of their nodes.
pub proof fn lemma_forest_lines_len(trees: Seq<Tree>, guides: Seq<bool>, n: nat)
    requires
        n <= trees.len(),
    ensures
        forest_lines(trees, guides, n).len() == forest_size(trees, n),
    decreases trees, n,
{
    if n == 0 {
        assert(forest_lines(trees, guides, 0) == Seq::<Seq<char>>::empty());
        assert(forest_size(trees, 0) == 0);
    } else {
        lemma_forest_size_step(trees, n);
        lemma_forest_lines_len(trees, guides, (n - 1) as nat);
        lemma_lines_len(trees[n - 1], guides, n == trees.len());
        assert(forest_lines(trees, guides, n) == forest_lines(trees, guides, (n - 1) as nat)
            + trees[n - 1].lines(guides, n == trees.len()));
    }
}

/// Among the lines of some siblings, those of the sibling `j` follow the lines
/// of the siblings before it.
proof fn lemma_forest_line(trees: Seq<Tree>, guides: Seq<bool>, n: nat, j: int, k: int)
    requires
        0 <= j < n <= trees.len(),
        0 <= k < trees[j].size(),
    ensures
        forest_size(trees, j as nat) + k < forest_lines(trees, guides, n).len(),
        forest_lines(trees, guides, n)[forest_size(trees, j as nat) + k] == trees[j].lines(
            guides,
            j + 1 == trees.len(),
        )[k],
    decreases n,
{
    let front = forest_lines(trees, guides, (n - 1) as nat);
    let back = trees[n - 1].lines(guides, n == trees.len());
    assert(forest_lines(trees, guides, n) == front + back);
    lemma_forest_lines_len(trees, guides, (n - 1) as nat);
    lemma_lines_len(trees[n - 1], guides, n == trees.len());
    if j < n - 1 {
        lemma_forest_line(trees, guides, (n - 1) as nat, j, k);
    }
}

/// The line of a node, found by its place among the lines of a tree that is
/// drawn below the flags `guides` with the flag `last`.
proof fn lemma_line_from(tree: Tree, guides: Seq<bool>, last: bool, path: Seq<int>)
    requires
        tree.has(path),
    ensures
        tree.index_of(path) < tree.lines(guides, last).len(),
        tree.lines(guides, last)[tree.index_of(path) as int] == line(
            guides + tree.flags_above(last, path),
            tree.flag_at(last, path),
            tree.at(path).name,
        ),
    decreases path.len(),
{
    lemma_lines_len(tree, guides, last);
    lemma_index_in_range(tree, path);
    let below = forest_lines(tree.children, guides.push(last), tree.children.len());
    assert(tree.lines(guides, last) == seq![line(guides, last, tree.name)] + below);
    if path.len() == 0 {
        assert(guides + tree.flags_above(last, path) =~= guides);
    } else {
        let j = path[0];
        let rest = path.drop_first();
        let child = tree.children[j];
        let flag = j + 1 == tree.children.len();
        lemma_index_in_range(child, rest);
        lemma_forest_line(
            tree.children,
            guides.push(last),
            tree.children.len(),
            j,
            child.index_of(rest) as int,
        );
        lemma_line_from(child, guides.push(last), flag, rest);
        assert forall|k: int| 0 <= k < rest.len() implies tree.flag_at(last, path.take(k + 1))
            == child.flag_at(flag, rest.take(k)) by {
            assert(path.take(k + 1).drop_first() == rest.take(k));
        }
        assert(path.take(0) == Seq::<int>::empty());
        assert(guides + tree.flags_above(last, path) =~= guides.push(last) + child.flags_above(
            flag,
            rest,
        ));
    }
}

/// Read from the root of a whole diagram, the flag of a node says whether it
/// is the last of its siblings.
proof fn lemma_flag_at(tree: Tree, last: bool, path: Seq<int>)
    requires
        tree.has(path),
    ensures
        tree.flag_at(last, path) == (if path.len() == 0 {
            last
        } else {
            path.last() + 1 == tree.at(path.drop_last()).children.len()
        }),
    decreases path.len(),
{
    if path.len() > 0 {
        let rest = path.drop_first();
        let child = tree.children[path[0]];
        let flag = path[0] + 1 == tree.children.len();
        lemma_flag_at(child, flag, rest);
        assert(tree.flag_at(last, path) == child.flag_at(flag, rest));
        if rest.len() == 0 {
            assert(path.drop_last() == Seq::<int>::empty());
            assert(tree.at(path.drop_last()) == tree);
        } else {
            assert(path.drop_last().drop_first() == rest.drop_last());
            assert(tree.at(path.drop_last()) == child.at(rest.drop_last()));
        }
    }
}

/// A path that leads to a node leads through nodes.
pub proof fn lemma_has_prefix(tree: Tree, path: Seq<int>, k: int)
    requires
        tree.has(path),
        0 <= k <= path.len(),
    ensures
        tree.has(path.take(k)),
    decreases path.len(),
{
    if k > 0 {
        lemma_has_prefix(tree.children[path[0]], path.drop_first(), k - 1);
        assert(path.take(k).drop_first() == path.drop_first().take(k - 1));
    }
}

/// The diagram of a tree has one line for each node of the tree.
pub proof fn lemma_diagram_len(tree: Tree)
    ensures
        tree.diagram().len() == tree.size(),
{
    lemma_lines_len(tree, Seq::empty(), true);
}

/// The line at the place of a node is the line that belongs to that node.
pub proof fn lemma_diagram_line(tree: Tree, path: Seq<int>)
    requires
        tree.has(path),
    ensures
        tree.index_of(path) < tree.diagram().len(),
        tree.diagram()[tree.index_of(path) as int] == tree.line_at(path),
{
    lemma_line_from(tree, Seq::empty(), true, path);
    lemma_flag_at(tree, true, path);
    assert forall|k: int| 0 <= k < path.len() implies tree.flag_at(true, path.take(k))
        == tree.last_at(path.take(k)) by {
        lemma_has_prefix(tree, path, k);
        lemma_flag_at(tree, true, path.take(k));
    }
    assert(Seq::<bool>::empty() + tree.flags_above(true, path) =~= tree.guides_at(path));
}

/// Every line of a diagram belongs to a node of the tree, and the lines stand
/// in the order of the nodes: a parent before its children, the children in
/// their order.
pub proof fn lemma_diagram_in_order(tree: Tree, i: nat)
    requires
        i < tree.size(),
    ensures
        i < tree.diagram().len(),
        tree.has(tree.path_at(i)),
        tree.index_of(tree.path_at(i)) == i,
        tree.diagram()[i as int] == tree.line_at(tree.path_at(i)),
{
    lemma_path_at(tree, i);
    lemma_diagram_line(tree, tree.path_at(i));
}

/// The line of a node is made of one column for each of its ancestors, then
/// its connector, then its name, and of nothing else.
pub proof fn lemma_line_shape(tree: Tree, path: Seq<int>)
    requires
        tree.has(path),
    ensures
        ({
            let text = tree.line_at(path);
            let depth = path.len() as int;
            let name = tree.at(path).name;
            &&& text.len() == 2 * depth + 2 + name.len()
            &&& forall|k: int|
                0 <= k < depth ==> #[trigger] text.subrange(2 * k, 2 * k + 2) == column(
                    tree.last_at(path.take(k)),
                )
            &&& text.subrange(2 * depth, 2 * depth + 2) == connector(tree.last_at(path))
            &&& text.subrange(2 * depth + 2, text.len() as int) == name
        }),
{
    let text = tree.line_at(path);
    let guides = tree.guides_at(path);
    let depth = path.len() as int;
    lemma_indent_len(guides);
    assert(text.subrange(2 * depth, 2 * depth + 2) =~= connector(tree.last_at(path)));
    assert(text.subrange(2 * depth + 2, text.len() as int) =~= tree.at(path).name);
    assert forall|k: int| 0 <= k < depth implies #[trigger] text.subrange(2 * k, 2 * k + 2)
        == column(tree.last_at(path.take(k))) by {
        lemma_indent_column(guides, k);
        assert(text.subrange(2 * k, 2 * k + 2) =~= indent(guides).subrange(2 * k, 2 * k + 2));
    }
}

/// Every node but the root has exactly one of the two connectors in its line,
/// right behind the indentation: the corner if it is the last of its
/// siblings, the tee if it is not. The line of the root has the corner.
pub proof fn lemma_connector(tree: Tree, path: Seq<int>)
    requires
        tree.has(path),
    ensures
        ({
            let text = tree.diagram()[tree.index_of(path) as int];
            let depth = path.len() as int;
            let mark = text.subrange(2 * depth, 2 * depth + 2);
            &&& tree.index_of(path) < tree.diagram().len()
            &&& 2 * depth + 2 <= text.len()
            &&& mark == if tree.last_at(path) {
                seq!['└', '─']
            } else {
                seq!['├', '─']
            }
            &&& path.len() == 0 ==> mark == seq!['└', '─']
            &&& seq!['└', '─'] != seq!['├', '─']
        }),
{
    lemma_diagram_line(tree, path);
    lemma_line_shape(tree, path);
    assert(seq!['└', '─'][0] != seq!['├', '─'][0]);
}

/// The connector of a node is preceded by as many columns as the node is
/// deep, the root by none. Each column is blank or holds a vertical guide.
pub proof fn lemma_indentation(tree: Tree, path: Seq<int>)
    requires
        tree.has(path),
    ensures
        ({
            let text = tree.diagram()[tree.index_of(path) as int];
            let depth = path.len() as int;
            &&& tree.index_of(path) < tree.diagram().len()
            &&& 2 * depth + 2 <= text.len()
            &&& text.subrange(2 * depth, 2 * depth + 2) == connector(tree.last_at(path))
            &&& forall|k: int|
                0 <= k < depth ==> {
                    let cell = #[trigger] text.subrange(2 * k, 2 * k + 2);
                    cell == seq![' ', ' '] || cell == seq!['│', ' ']
                }
        }),
{
    lemma_diagram_line(tree, path);
    lemma_line_shape(tree, path);
}

} // verus!
