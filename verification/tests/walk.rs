use dir_tree::node::DirNode;
use dir_tree::walk::{name_or_fallback, BuildError, Probe, Walker};

fn seen_file(name: &str) -> Probe<u32> {
    Probe::File { file_name: Some(name.to_string()) }
}

fn seen_directory(name: &str, entries: Vec<Option<u32>>) -> Probe<u32> {
    Probe::Directory { file_name: Some(name.to_string()), entries: Some(entries) }
}

fn tree_of(walker: Walker<u32>) -> DirNode {
    match walker.finish() {
        Some(Ok(node)) => node,
        Some(Err(error)) => panic!("the walk failed: {:?}", error),
        None => panic!("the walk has not ended"),
    }
}

fn names(nodes: &Vec<DirNode>) -> Vec<&str> {
    nodes.iter().map(|node| node.name.as_str()).collect()
}

#[test]
fn walk_starts_by_awaiting_the_start() {
    let walker = Walker::new(1u32);
    assert_eq!(walker.awaited(), Some(&1));
    assert!(walker.finish().is_none());
}

#[test]
fn path_without_final_component_is_called_root() {
    let walker = Walker::new(1u32).supply(Probe::Directory { file_name: None, entries: Some(vec![]) });
    let root = tree_of(walker);
    assert_eq!(root.name, "root");
    assert!(root.children.is_empty());
    assert_eq!(root.render(), vec!["└─root"]);
}

#[test]
fn file_without_final_component_is_called_root() {
    let walker = Walker::new(1u32).supply(Probe::File { file_name: None });
    assert_eq!(tree_of(walker).name, "root");
}

#[test]
fn fallback_name_replaces_a_missing_or_empty_component() {
    assert_eq!(name_or_fallback(None), "root");
    assert_eq!(name_or_fallback(Some(String::new())), "root");
    assert_eq!(name_or_fallback(Some("c".to_string())), "c");
    assert_eq!(name_or_fallback(Some("résumé".to_string())), "résumé");
}

#[test]
fn empty_directory_has_no_children() {
    let walker = Walker::new(1u32).supply(seen_directory("empty", vec![]));
    assert_eq!(walker.awaited(), None);
    let root = tree_of(walker);
    assert_eq!(root.name, "empty");
    assert!(root.children.is_empty());
}

#[test]
fn directory_that_may_not_be_listed_is_a_leaf() {
    let walker = Walker::new(1u32).supply(seen_directory("d", vec![Some(2), Some(3)]));
    assert_eq!(walker.awaited(), Some(&2));
    let walker =
        walker.supply(Probe::Directory { file_name: Some("locked".to_string()), entries: None });
    assert_eq!(walker.awaited(), Some(&3));
    let walker = walker.supply(seen_file("f"));
    let root = tree_of(walker);
    assert_eq!(root.render(), vec!["└─d", "  ├─locked", "  └─f"]);
}

#[test]
fn start_that_may_not_be_listed_is_a_lone_node() {
    let walker =
        Walker::new(1u32).supply(Probe::Directory { file_name: Some("d".to_string()), entries: None });
    assert_eq!(walker.awaited(), None);
    assert_eq!(tree_of(walker).render(), vec!["└─d"]);
}

#[test]
fn unresolved_start_fails() {
    let walker = Walker::new(1u32).supply(Probe::Unreadable);
    assert_eq!(walker.awaited(), None);
    match walker.finish() {
        Some(Err(error)) => assert_eq!(error, BuildError::InvalidPath),
        _ => panic!("the walk should have failed"),
    }
}

#[test]
fn entries_that_could_not_be_read_are_left_out() {
    let walker =
        Walker::new(1u32).supply(seen_directory("d", vec![None, Some(2), None, Some(3), None]));
    assert_eq!(walker.awaited(), Some(&2));
    let walker = walker.supply(seen_file("a"));
    assert_eq!(walker.awaited(), Some(&3));
    let walker = walker.supply(seen_file("b"));
    assert_eq!(walker.awaited(), None);
    let root = tree_of(walker);
    assert_eq!(names(&root.children), vec!["a", "b"]);
}

#[test]
fn directory_with_only_unread_entries_is_empty() {
    let walker = Walker::new(1u32).supply(seen_directory("d", vec![None, None]));
    assert_eq!(walker.awaited(), None);
    assert!(tree_of(walker).children.is_empty());
}

#[test]
fn entry_that_vanished_is_passed_over() {
    let walker = Walker::new(1u32).supply(seen_directory("d", vec![Some(2), Some(3), Some(4)]));
    let walker = walker.supply(seen_file("a"));
    assert_eq!(walker.awaited(), Some(&3));
    let walker = walker.supply(Probe::Unreadable);
    assert_eq!(walker.awaited(), Some(&4));
    let walker = walker.supply(seen_file("c"));
    let root = tree_of(walker);
    assert_eq!(root.render(), vec!["└─d", "  ├─a", "  └─c"]);
}

#[test]
fn last_entry_that_vanished_closes_the_directory() {
    let walker = Walker::new(1u32).supply(seen_directory("d", vec![Some(2), Some(3)]));
    let walker = walker.supply(seen_directory("sub", vec![Some(4)]));
    assert_eq!(walker.awaited(), Some(&4));
    let walker = walker.supply(Probe::Unreadable);
    assert_eq!(walker.awaited(), Some(&3));
    let walker = walker.supply(Probe::Unreadable);
    assert_eq!(walker.awaited(), None);
    let root = tree_of(walker);
    assert_eq!(root.render(), vec!["└─d", "  └─sub"]);
}

#[test]
fn walk_goes_depth_first_and_keeps_the_order() {
    let walker = Walker::new(1u32).supply(seen_directory("d", vec![Some(10), Some(20), Some(30)]));
    assert_eq!(walker.awaited(), Some(&10));
    let walker = walker.supply(seen_directory("a", vec![Some(11), Some(12)]));
    assert_eq!(walker.awaited(), Some(&11));
    let walker = walker.supply(seen_directory("x", vec![Some(111)]));
    assert_eq!(walker.awaited(), Some(&111));
    let walker = walker.supply(seen_file("deep"));
    assert_eq!(walker.awaited(), Some(&12));
    let walker = walker.supply(seen_file("y"));
    assert_eq!(walker.awaited(), Some(&20));
    let walker = walker.supply(seen_file("b"));
    assert_eq!(walker.awaited(), Some(&30));
    let walker = walker.supply(seen_directory("c", vec![Some(31)]));
    assert_eq!(walker.awaited(), Some(&31));
    let walker = walker.supply(seen_file("z"));
    assert_eq!(walker.awaited(), None);
    let root = tree_of(walker);
    assert_eq!(
        root.render(),
        vec![
            "└─d",
            "  ├─a",
            "  │ ├─x",
            "  │ │ └─deep",
            "  │ └─y",
            "  ├─b",
            "  └─c",
            "    └─z",
        ]
    );
}

#[test]
fn several_directories_close_at_once() {
    let walker = Walker::new(1u32).supply(seen_directory("a", vec![Some(2)]));
    let walker = walker.supply(seen_directory("b", vec![Some(3)]));
    let walker = walker.supply(seen_directory("c", vec![Some(4)]));
    assert_eq!(walker.awaited(), Some(&4));
    let walker = walker.supply(seen_directory("d", vec![]));
    assert_eq!(walker.awaited(), None);
    let root = tree_of(walker);
    assert_eq!(root.render(), vec!["└─a", "  └─b", "    └─c", "      └─d"]);
}

#[test]
fn ended_walk_ignores_what_is_supplied() {
    let walker = Walker::new(1u32).supply(seen_file("f"));
    let walker = walker.supply(seen_directory("late", vec![Some(9)]));
    assert_eq!(walker.awaited(), None);
    let root = tree_of(walker);
    assert_eq!(root.name, "f");
    assert!(root.children.is_empty());
}

#[test]
fn failed_walk_stays_failed() {
    let walker = Walker::new(1u32).supply(Probe::Unreadable).supply(seen_file("f"));
    assert!(matches!(walker.finish(), Some(Err(BuildError::InvalidPath))));
}

#[test]
fn unfinished_walk_has_no_outcome() {
    let walker = Walker::new(1u32).supply(seen_directory("d", vec![Some(2)]));
    assert!(walker.finish().is_none());
}

#[test]
fn empty_component_inside_a_tree_is_called_root() {
    let walker = Walker::new(1u32).supply(seen_directory("d", vec![Some(2)]));
    let walker = walker.supply(Probe::File { file_name: Some(String::new()) });
    let root = tree_of(walker);
    assert_eq!(root.render(), vec!["└─d", "  └─root"]);
}

/// What a world that holds still shows at one path.
enum Shown {
    Gone,
    File(&'static str),
    Locked(&'static str),
    Directory(&'static str, Vec<Option<u32>>),
}

fn world() -> Vec<(u32, Shown)> {
    vec![
        (1, Shown::Directory("top", vec![Some(2), None, Some(3), Some(4), Some(5), Some(6)])),
        (2, Shown::File("first")),
        (3, Shown::Gone),
        (4, Shown::Directory("inner", vec![Some(7), Some(8)])),
        (5, Shown::Locked("locked")),
        (6, Shown::Directory("hollow", vec![None, Some(9)])),
        (7, Shown::Directory("void", vec![])),
        (8, Shown::File("leaf")),
    ]
}

fn shown(world: &Vec<(u32, Shown)>, path: u32) -> &Shown {
    match world.iter().find(|(at, _)| *at == path) {
        Some((_, shown)) => shown,
        None => &Shown::Gone,
    }
}

fn look(world: &Vec<(u32, Shown)>, path: u32) -> Probe<u32> {
    match shown(world, path) {
        Shown::Gone => Probe::Unreadable,
        Shown::File(name) => Probe::File { file_name: Some(name.to_string()) },
        Shown::Locked(name) => {
            Probe::Directory { file_name: Some(name.to_string()), entries: None }
        }
        Shown::Directory(name, entries) => {
            Probe::Directory { file_name: Some(name.to_string()), entries: Some(entries.clone()) }
        }
    }
}

/// The tree below a path, by descent.
fn descend(world: &Vec<(u32, Shown)>, path: u32) -> Option<DirNode> {
    match shown(world, path) {
        Shown::Gone => None,
        Shown::File(name) | Shown::Locked(name) => {
            Some(DirNode { children: Vec::new(), name: name.to_string() })
        }
        Shown::Directory(name, entries) => Some(DirNode {
            children: entries.iter().flatten().filter_map(|entry| descend(world, *entry)).collect(),
            name: name.to_string(),
        }),
    }
}

fn walk(world: &Vec<(u32, Shown)>, start: u32) -> (Option<Result<DirNode, BuildError>>, Vec<u32>) {
    let mut asked = Vec::new();
    let mut walker = Walker::new(start);
    loop {
        let seen = match walker.awaited() {
            Some(path) => {
                asked.push(*path);
                look(world, *path)
            }
            None => break,
        };
        walker = walker.supply(seen);
    }
    (walker.finish(), asked)
}

#[test]
fn walk_builds_what_descent_builds() {
    let world = world();
    let (outcome, asked) = walk(&world, 1);
    let built = match outcome {
        Some(Ok(node)) => node,
        _ => panic!("the walk should have built a tree"),
    };
    let expected = descend(&world, 1).unwrap();
    assert_eq!(built.render(), expected.render());
    assert_eq!(
        built.render(),
        vec![
            "└─top",
            "  ├─first",
            "  ├─inner",
            "  │ ├─void",
            "  │ └─leaf",
            "  ├─locked",
            "  └─hollow",
        ]
    );
    assert_eq!(asked, vec![1, 2, 3, 4, 7, 8, 5, 6, 9]);
}

#[test]
fn walk_below_a_file_is_one_step() {
    let world = world();
    let (outcome, asked) = walk(&world, 8);
    assert_eq!(asked, vec![8]);
    match outcome {
        Some(Ok(node)) => assert_eq!(node.render(), vec!["└─leaf"]),
        _ => panic!("the walk should have built a tree"),
    }
}

#[test]
fn walk_from_a_missing_start_fails_after_one_step() {
    let world = world();
    let (outcome, asked) = walk(&world, 42);
    assert_eq!(asked, vec![42]);
    assert!(matches!(outcome, Some(Err(BuildError::InvalidPath))));
}

fn check_names(node: &DirNode) {
    assert!(!node.name.is_empty());
    for child in &node.children {
        check_names(child);
    }
}

#[test]
fn built_names_are_never_empty() {
    let walker = Walker::new(1u32)
        .supply(Probe::Directory { file_name: None, entries: Some(vec![Some(2), Some(3)]) });
    let walker = walker.supply(Probe::File { file_name: Some(String::new()) });
    let walker = walker.supply(Probe::Directory { file_name: Some(String::new()), entries: None });
    let root = tree_of(walker);
    check_names(&root);
    assert_eq!(root.render(), vec!["└─root", "  ├─root", "  └─root"]);
}
