use dir_tree::node::DirNode;
use dir_tree::render::render_line;

fn node(name: &str, children: Vec<DirNode>) -> DirNode {
    DirNode { children, name: name.to_string() }
}

fn leaf(name: &str) -> DirNode {
    node(name, Vec::new())
}

fn sample() -> DirNode {
    node(
        "d",
        vec![
            node("a", vec![node("x", vec![leaf("deep")]), leaf("y")]),
            leaf("b"),
            node("c", vec![leaf("z")]),
        ],
    )
}

fn count(tree: &DirNode) -> usize {
    let mut total = 1;
    for child in &tree.children {
        total += count(child);
    }
    total
}

/// The nodes of a tree, a parent before its children: name, depth, and
/// whether the node is the last of its siblings.
fn visit(tree: &DirNode, depth: usize, last: bool, out: &mut Vec<(String, usize, bool)>) {
    out.push((tree.name.clone(), depth, last));
    for (i, child) in tree.children.iter().enumerate() {
        visit(child, depth + 1, i + 1 == tree.children.len(), out);
    }
}

#[test]
fn sample_is_drawn_line_by_line() {
    let expected = vec![
        "└─d",
        "  ├─a",
        "  │ ├─x",
        "  │ │ └─deep",
        "  │ └─y",
        "  ├─b",
        "  └─c",
        "    └─z",
    ];
    assert_eq!(sample().render(), expected);
}

#[test]
fn one_line_for_each_node_in_order() {
    let tree = sample();
    let lines = tree.render();
    let mut nodes = Vec::new();
    visit(&tree, 0, true, &mut nodes);
    assert_eq!(lines.len(), count(&tree));
    assert_eq!(lines.len(), nodes.len());
    for (line, (name, _, _)) in lines.iter().zip(nodes.iter()) {
        assert!(line.ends_with(name.as_str()), "{line} does not end with {name}");
    }
}

#[test]
fn connector_tells_the_last_sibling() {
    let tree = sample();
    let lines = tree.render();
    let mut nodes = Vec::new();
    visit(&tree, 0, true, &mut nodes);
    for (line, (name, depth, last)) in lines.iter().zip(nodes.iter()) {
        let chars: Vec<char> = line.chars().collect();
        let mark: String = chars[2 * depth..2 * depth + 2].iter().collect();
        assert_eq!(mark, if *last { "└─" } else { "├─" }, "at {name}");
    }
    assert!(lines[0].starts_with("└─"));
}

#[test]
fn indentation_is_as_wide_as_the_depth() {
    let tree = sample();
    let lines = tree.render();
    let mut nodes = Vec::new();
    visit(&tree, 0, true, &mut nodes);
    for (line, (name, depth, _)) in lines.iter().zip(nodes.iter()) {
        let chars: Vec<char> = line.chars().collect();
        assert_eq!(chars.len(), 2 * depth + 2 + name.chars().count());
        for column in 0..*depth {
            let cell: String = chars[2 * column..2 * column + 2].iter().collect();
            assert!(cell == "  " || cell == "│ ", "column {column} of {line}");
        }
    }
}

#[test]
fn rendering_twice_gives_the_same_lines() {
    let tree = sample();
    let first = tree.render();
    let second = tree.render();
    assert_eq!(first, second);
}

#[test]
fn lone_node_is_one_line() {
    assert_eq!(leaf("only").render(), vec!["└─only"]);
}

#[test]
fn guide_runs_below_an_ancestor_with_later_siblings() {
    let tree = node("r", vec![node("p", vec![leaf("q")]), leaf("s")]);
    assert_eq!(tree.render(), vec!["└─r", "  ├─p", "  │ └─q", "  └─s"]);
}

#[test]
fn own_flag_picks_the_connector_not_an_ancestors() {
    let tree = node("r", vec![node("p", vec![leaf("q"), leaf("t")])]);
    assert_eq!(tree.render(), vec!["└─r", "  └─p", "    ├─q", "    └─t"]);
}

#[test]
fn line_without_ancestors() {
    assert_eq!(render_line(&Vec::new(), true, "root"), "└─root");
    assert_eq!(render_line(&Vec::new(), false, "root"), "├─root");
}

#[test]
fn line_with_mixed_ancestors() {
    assert_eq!(render_line(&vec![true, false, true], false, "n"), "  │   ├─n");
    assert_eq!(render_line(&vec![false, false], true, "n"), "│ │ └─n");
}

#[test]
fn line_with_empty_name() {
    assert_eq!(render_line(&vec![true], true, ""), "  └─");
}

#[test]
fn subtree_is_appended_below_given_ancestors() {
    let tree = node("p", vec![leaf("q"), leaf("t")]);
    let mut out = vec!["first".to_string()];
    tree.render_self_and_children(vec![true, false], false, &mut out);
    assert_eq!(out, vec!["first", "  │ ├─p", "  │ │ ├─q", "  │ │ └─t"]);
}

#[test]
fn wide_directory_keeps_the_order_of_its_children() {
    let names = ["zeta", "alpha", "mid", "beta"];
    let tree = node("top", names.iter().map(|name| leaf(name)).collect());
    assert_eq!(
        tree.render(),
        vec!["└─top", "  ├─zeta", "  ├─alpha", "  ├─mid", "  └─beta"]
    );
}
