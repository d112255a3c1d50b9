//! A file system that holds still, and the tree that a walk builds from it.
//!
//! A world says what is seen at each path. The tree below a path is defined
//! by descent: a directory has one child for each readable entry that can be
//! resolved. The walker, which asks for one path at a time, is shown to build
//! exactly that tree.

use crate::node::Tree;
use crate::walk::{complete, display_name, resume, to_visit, OpenDir, Seen, Walk};
use vstd::prelude::*;

verus! {

/// Whether nothing below `path` lies more than `depth` directories deep: the
/// world below `path` is finite and without cycles.
pub open spec fn shallow<P>(world: spec_fn(P) -> Seen<P>, path: P, depth: nat) -> bool
    decreases depth,
{
    match world(path) {
        Seen::Directory { entries, .. } => depth > 0 && forall|i: int|
            0 <= i < to_visit(entries).len() ==> shallow(
                world,
                #[trigger] to_visit(entries)[i],
                (depth - 1) as nat,
            ),
        _ => true,
    }
}

/// The tree below `path`: nothing where the path cannot be resolved, a node
/// without children for a file, and for a directory a node whose children
/// are the trees below the entries to visit, in the order of the listing.
/// Directories more than `depth` deep are taken to be empty.
pub open spec fn grown<P>(world: spec_fn(P) -> Seen<P>, path: P, depth: nat) -> Option<Tree>
    decreases depth, 0nat,
{
    match world(path) {
        Seen::Unreadable => None,
        Seen::File { file_name } => Some(
            Tree { name: display_name(file_name), children: Seq::empty() },
        ),
        Seen::Directory { file_name, entries } => Some(
            Tree {
                name: display_name(file_name),
                children: if depth == 0 {
                    Seq::empty()
                } else {
                    grown_all(world, to_visit(entries), (depth - 1) as nat)
                },
            },
        ),
    }
}

/// The trees below those of `paths` that can be resolved, in their order.
pub open spec fn grown_all<P>(world: spec_fn(P) -> Seen<P>, paths: Seq<P>, depth: nat) -> Seq<
    Tree,
>
    decreases depth, paths.len(),
{
    if paths.len() == 0 {
        Seq::empty()
    } else {
        let rest = grown_all(world, paths.drop_first(), depth);
        match grown(world, paths.first(), depth) {
            Some(tree) => seq![tree] + rest,
            None => rest,
        }
    }
}

/// The state of a walk after `steps` more paths have been looked up in the
/// world, or fewer where the walk ends before.
pub open spec fn run<P>(world: spec_fn(P) -> Seen<P>, walk: Walk<P>, steps: nat) -> Walk<P>
    decreases steps,
{
    if steps == 0 {
        walk
    } else {
        match walk {
            Walk::Awaiting { path, .. } => run(
                world,
                walk.supply(world(path)),
                (steps - 1) as nat,
            ),
            _ => walk,
        }
    }
}

/// The state in which a walk goes on after visiting a path inside the
/// directories `open`, given the tree that was found below that path.
pub open spec fn after<P>(open: Seq<OpenDir<P>>, found: Option<Tree>) -> Walk<P> {
    match found {
        Some(tree) => complete(open, tree),
        None => if open.len() == 0 {
            Walk::Failed
        } else {
            resume(open)
        },
    }
}

/// Below a path that is shallow, the tree is the same whatever greater depth
/// is allowed for.
pub proof fn lemma_deep_enough<P>(world: spec_fn(P) -> Seen<P>, path: P, a: nat, b: nat)
    requires
        shallow(world, path, a),
        a <= b,
    ensures
        shallow(world, path, b),
        grown(world, path, a) == grown(world, path, b),
    decreases a, 0nat,
{
    match world(path) {
        Seen::Directory { file_name, entries } => {
            let paths = to_visit(entries);
            assert forall|i: int| 0 <= i < paths.len() implies shallow(
                world,
                #[trigger] paths[i],
                (b - 1) as nat,
            ) by {
                lemma_deep_enough(world, paths[i], (a - 1) as nat, (b - 1) as nat);
            }
            lemma_deep_enough_all(world, paths, (a - 1) as nat, (b - 1) as nat);
        },
        _ => {},
    }
}

/// The same for the trees below several paths.
pub proof fn lemma_deep_enough_all<P>(
    world: spec_fn(P) -> Seen<P>,
    paths: Seq<P>,
    a: nat,
    b: nat,
)
    requires
        forall|i: int| 0 <= i < paths.len() ==> shallow(world, #[trigger] paths[i], a),
        a <= b,
    ensures
        grown_all(world, paths, a) == grown_all(world, paths, b),
    decreases a, paths.len() + 1,
{
    if paths.len() > 0 {
        let rest = paths.drop_first();
        lemma_deep_enough(world, paths.first(), a, b);
        assert forall|i: int| 0 <= i < rest.len() implies shallow(
            world,
            #[trigger] rest[i],
            a,
        ) by {
            assert(rest[i] == paths[i + 1]);
        }
        lemma_deep_enough_all(world, rest, a, b);
        assert(grown_all(world, paths, a) == match grown(world, paths.first(), a) {
            Some(tree) => seq![tree] + grown_all(world, rest, a),
            None => grown_all(world, rest, a),
        });
        assert(grown_all(world, paths, b) == match grown(world, paths.first(), b) {
            Some(tree) => seq![tree] + grown_all(world, rest, b),
            None => grown_all(world, rest, b),
        });
    } else {
        assert(grown_all(world, paths, a) == Seq::<Tree>::empty());
        assert(grown_all(world, paths, b) == Seq::<Tree>::empty());
    }
}

/// Running on is the same in one go as in two.
pub proof fn lemma_run_on<P>(world: spec_fn(P) -> Seen<P>, walk: Walk<P>, a: nat, b: nat)
    ensures
        run(world, walk, a + b) == run(world, run(world, walk, a), b),
    decreases a,
{
    if a > 0 {
        match walk {
            Walk::Awaiting { path, .. } => {
                lemma_run_on(world, walk.supply(world(path)), (a - 1) as nat, b);
            },
            _ => {
                lemma_run_ended(world, walk, b);
            },
        }
    }
}

/// A walk that has ended stays as it is.
pub proof fn lemma_run_ended<P>(world: spec_fn(P) -> Seen<P>, walk: Walk<P>, steps: nat)
    requires
        !(walk is Awaiting),
    ensures
        run(world, walk, steps) == walk,
{
}

/// A walk that waits to hear of `path` goes on, after some steps, as if the
/// whole tree below `path` had been found at once.
pub proof fn lemma_visit<P>(
    world: spec_fn(P) -> Seen<P>,
    open: Seq<OpenDir<P>>,
    path: P,
    depth: nat,
) -> (steps: nat)
    requires
        shallow(world, path, depth),
    ensures
        run(world, Walk::Awaiting { path, open }, steps) == after(
            open,
            grown(world, path, depth),
        ),
    decreases depth, 0nat,
{
    let walk = Walk::Awaiting { path, open };
    let next = walk.supply(world(path));
    assert(run(world, walk, 1) == run(world, next, 0));
    match world(path) {
        Seen::Unreadable => 1,
        Seen::File { file_name } => 1,
        Seen::Directory { file_name, entries } => {
            let name = display_name(file_name);
            let pending = to_visit(entries);
            let more = lemma_visit_all(
                world,
                open,
                name,
                Seq::empty(),
                pending,
                (depth - 1) as nat,
            );
            assert(Seq::<Tree>::empty() + grown_all(world, pending, (depth - 1) as nat)
                =~= grown_all(world, pending, (depth - 1) as nat));
            lemma_run_on(world, walk, 1, more);
            1 + more
        },
    }
}

/// A walk that goes on inside a directory with the paths `pending` still to
/// visit leaves it, after some steps, with the trees below those paths added
/// to the children built before.
pub proof fn lemma_visit_all<P>(
    world: spec_fn(P) -> Seen<P>,
    outer: Seq<OpenDir<P>>,
    name: Seq<char>,
    built: Seq<Tree>,
    pending: Seq<P>,
    depth: nat,
) -> (steps: nat)
    requires
        forall|i: int| 0 <= i < pending.len() ==> shallow(world, #[trigger] pending[i], depth),
    ensures
        run(world, resume(outer.push(OpenDir { name, built, pending })), steps) == complete(
            outer,
            Tree { name, children: built + grown_all(world, pending, depth) },
        ),
    decreases depth, pending.len() + 1,
{
    let open = outer.push(OpenDir { name, built, pending });
    assert(open.drop_last() =~= outer);
    if pending.len() == 0 {
        assert(built + grown_all(world, pending, depth) =~= built);
        assert(resume(open) == complete(outer, Tree { name, children: built }));
        0
    } else {
        let path = pending.first();
        let rest = pending.drop_first();
        let inner = outer.push(OpenDir { name, built, pending: rest });
        assert(inner.drop_last() =~= outer);
        assert(resume(open) == Walk::Awaiting { path, open: inner });
        let first = lemma_visit(world, inner, path, depth);
        assert forall|i: int| 0 <= i < rest.len() implies shallow(
            world,
            #[trigger] rest[i],
            depth,
        ) by {
            assert(rest[i] == pending[i + 1]);
        }
        match grown(world, path, depth) {
            Some(tree) => {
                assert(complete(inner, tree) == resume(
                    outer.push(OpenDir { name, built: built.push(tree), pending: rest }),
                ));
                let more = lemma_visit_all(world, outer, name, built.push(tree), rest, depth);
                assert(built + grown_all(world, pending, depth) =~= built.push(tree) + grown_all(
                    world,
                    rest,
                    depth,
                ));
                lemma_run_on(world, resume(open), first, more);
                first + more
            },
            None => {
                let more = lemma_visit_all(world, outer, name, built, rest, depth);
                lemma_run_on(world, resume(open), first, more);
                first + more
            },
        }
    }
}

/// A walk through a world that holds still builds the tree that lies below
/// its starting path, and fails exactly if that path cannot be resolved.
pub proof fn lemma_walk_builds_grown<P>(world: spec_fn(P) -> Seen<P>, start: P, depth: nat) -> (steps:
    nat)
    requires
        shallow(world, start, depth),
    ensures
        run(world, Walk::begin(start), steps) == match grown(world, start, depth) {
            Some(tree) => Walk::<P>::Done { tree },
            None => Walk::<P>::Failed,
        },
{
    let steps = lemma_visit(world, Seq::empty(), start, depth);
    match grown(world, start, depth) {
        Some(tree) => {
            assert(complete(Seq::<OpenDir<P>>::empty(), tree) == Walk::<P>::Done { tree });
        },
        None => {},
    }
    steps
}

} // verus!
