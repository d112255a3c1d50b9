//! Drawing a tree as lines of text.

use crate::layout::lemma_diagram_len;
use crate::node::{DirNode, Tree};
use vstd::prelude::*;

verus! {

/// The two characters drawn in one indentation column: blank below an ancestor
/// that was the last of its siblings, a vertical guide below one that was not.
pub open spec fn column(last: bool) -> Seq<char> {
    if last {
        seq![' ', ' ']
    } else {
        seq!['│', ' ']
    }
}

/// The two characters drawn in front of a name: a corner for the last of
/// several siblings, a tee for any other.
pub open spec fn connector(last: bool) -> Seq<char> {
    if last {
        seq!['└', '─']
    } else {
        seq!['├', '─']
    }
}

/// The indentation for a node whose ancestors, from the root down, have the
/// given flags: one column for each of them.
pub open spec fn indent(guides: Seq<bool>) -> Seq<char>
    decreases guides.len(),
{
    if guides.len() == 0 {
        Seq::empty()
    } else {
        indent(guides.drop_last()) + column(guides.last())
    }
}

/// The line drawn for a node: indentation, connector, name.
pub open spec fn line(guides: Seq<bool>, last: bool, name: Seq<char>) -> Seq<char> {
    indent(guides) + connector(last) + name
}

impl Tree {
    /// The lines drawn for the tree, when its root has ancestors with the flags
    /// `guides` and is itself the last of its siblings exactly if `last`: the
    /// root's own line, then the lines of each child in turn.
    pub open spec fn lines(self, guides: Seq<bool>, last: bool) -> Seq<Seq<char>>
        decreases self, 0nat,
    {
        seq![line(guides, last, self.name)] + forest_lines(
            self.children,
            guides.push(last),
            self.children.len(),
        )
    }

    /// The whole diagram: the root stands alone, without ancestors, and counts
    /// as the last of its siblings.
    pub open spec fn diagram(self) -> Seq<Seq<char>> {
        self.lines(Seq::empty(), true)
    }
}

/// The lines drawn for the first `n` of the siblings `trees`, whose common
/// ancestors have the flags `guides`.
pub open spec fn forest_lines(trees: Seq<Tree>, guides: Seq<bool>, n: nat) -> Seq<Seq<char>>
    decreases trees, n,
{
    if n == 0 || n > trees.len() {
        Seq::empty()
    } else {
        forest_lines(trees, guides, (n - 1) as nat) + trees[n - 1].lines(guides, n == trees.len())
    }
}

/// What a vector of strings holds, as sequences of characters.
pub open spec fn texts(lines: Seq<String>) -> Seq<Seq<char>> {
    lines.map_values(|s: String| s@)
}

/// Drawing the same tree again gives the same lines again.
pub proof fn lemma_render_repeats(node: DirNode, first: Seq<String>, second: Seq<String>)
    requires
        texts(first) == node@.diagram(),
        texts(second) == node@.diagram(),
    ensures
        first.len() == second.len(),
        forall|i: int| 0 <= i < first.len() ==> first[i]@ == second[i]@,
{
    assert(texts(first).len() == first.len());
    assert(texts(second).len() == second.len());
    assert forall|i: int| 0 <= i < first.len() implies first[i]@ == second[i]@ by {
        assert(texts(first)[i] == first[i]@);
        assert(texts(second)[i] == second[i]@);
    }
}

/// Draws the line of a node called `name`. `is_last` holds, for each ancestor
/// from the root down, whether that ancestor was the last of its siblings;
/// `self_is_last` says the same of the node itself and picks its connector.
pub fn render_line(is_last: &Vec<bool>, self_is_last: bool, name: &str) -> (text: String)
    ensures
        text@ == line(is_last@, self_is_last, name@),
{
    let mut text = String::new();
    let mut i: usize = 0;
    while i < is_last.len()
        invariant
            i <= is_last.len(),
            text@ == indent(is_last@.take(i as int)),
        decreases is_last.len() - i,
    {
        proof {
            reveal_strlit("  ");
            reveal_strlit("│ ");
            assert(is_last@.take(i + 1).drop_last() == is_last@.take(i as int));
        }
        text.append(if is_last[i] { "  " } else { "│ " });
        i += 1;
    }
    proof {
        reveal_strlit("└─");
        reveal_strlit("├─");
        assert(is_last@.take(i as int) == is_last@);
    }
    text.append(if self_is_last { "└─" } else { "├─" });
    text.append(name);
    text
}

impl DirNode {
    /// Draws the tree: one line for each node, a parent before its children,
    /// the children in their order.
    pub fn render(&self) -> (lines: Vec<String>)
        ensures
            texts(lines@) == self@.diagram(),
            lines@.len() == self@.size(),
    {
        let mut lines: Vec<String> = Vec::new();
        self.render_self_and_children(Vec::new(), true, &mut lines);
        proof {
            lemma_diagram_len(self@);
            assert(texts(lines@) =~= self@.diagram());
        }
        lines
    }

    /// Appends to `out` the lines of this node and of everything below it.
    /// `is_last` holds, for each ancestor from the root down, whether that
    /// ancestor was the last of its siblings; `self_is_last` says the same of
    /// this node.
    pub fn render_self_and_children(
        &self,
        is_last: Vec<bool>,
        self_is_last: bool,
        out: &mut Vec<String>,
    )
        ensures
            texts(final(out)@) == texts(old(out)@) + self@.lines(is_last@, self_is_last),
        decreases self,
    {
        proof {
            self.lemma_view();
        }
        let ghost guides = is_last@;
        let ghost before = texts(out@);
        let mut is_last = is_last;
        out.push(render_line(&is_last, self_is_last, self.name.as_str()));
        is_last.push(self_is_last);
        assert(texts(out@) =~= before + seq![line(guides, self_is_last, self@.name)]);
        let count = self.children.len();
        let mut i: usize = 0;
        while i < count
            invariant
                i <= count,
                count == self.children.len(),
                self@.children.len() == count,
                forall|k: int|
                    0 <= k < count ==> #[trigger] self@.children[k] == self.children@[k]@,
                is_last@ == guides.push(self_is_last),
                texts(out@) == before + seq![line(guides, self_is_last, self@.name)]
                    + forest_lines(self@.children, is_last@, i as nat),
            decreases count - i,
        {
            let ghost sofar = texts(out@);
            let below = is_last.clone();
            assert(below@ =~= is_last@);
            self.children[i].render_self_and_children(below, i + 1 == count, out);
            proof {
                assert(texts(out@) == sofar + self@.children[i as int].lines(
                    is_last@,
                    i + 1 == count,
                ));
                assert(forest_lines(self@.children, is_last@, (i + 1) as nat) == forest_lines(
                    self@.children,
                    is_last@,
                    i as nat,
                ) + self@.children[i as int].lines(is_last@, i + 1 == count));
            }
            i += 1;
        }
    }
}

} // verus!
