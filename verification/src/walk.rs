//! Building a tree from what is seen of a file system.
//!
//! The walker never touches the file system. It names one path at a time; the
//! caller looks at that path and supplies what it saw; the walker decides what
//! becomes of it and which path comes next.

use crate::node::{forest_view, lemma_forest_view, DirNode, Tree};
use vstd::prelude::*;

verus! {

/// Why no tree could be built.
#[derive(Debug, Clone, Copy, PartialEq, Eq)]
pub enum BuildError {
    /// The path at which the walk started could not be resolved.
    InvalidPath,
}

/// What the caller saw when it looked at one path. `P` is the caller's type of
/// paths, which the walker hands back as it got them.
pub enum Probe<P> {
    /// The path could not be resolved.
    Unreadable,
    /// The path was resolved and is no directory. `file_name` is the final
    /// component of the path, if it has one.
    File { file_name: Option<String> },
    /// The path was resolved and is a directory. `entries` is `None` where
    /// the directory may not be listed. Else it holds the path of each entry
    /// in the order of the listing, `None` for an entry that could not be
    /// read.
    Directory { file_name: Option<String>, entries: Option<Vec<Option<P>>> },
}

/// The mathematical model of a [`Probe`].
pub ghost enum Seen<P> {
    Unreadable,
    File { file_name: Option<Seq<char>> },
    Directory { file_name: Option<Seq<char>>, entries: Option<Seq<Option<P>>> },
}

/// The listing of a directory as a sequence, if there is one.
pub open spec fn listing_of<P>(entries: Option<Vec<Option<P>>>) -> Option<Seq<Option<P>>> {
    match entries {
        Some(listing) => Some(listing@),
        None => None,
    }
}

/// The characters of an optional string.
pub open spec fn chars_of(text: Option<String>) -> Option<Seq<char>> {
    match text {
        Some(s) => Some(s@),
        None => None,
    }
}

impl<P> View for Probe<P> {
    type V = Seen<P>;

    open spec fn view(&self) -> Seen<P> {
        match *self {
            Probe::Unreadable => Seen::Unreadable,
            Probe::File { file_name } => Seen::File { file_name: chars_of(file_name) },
            Probe::Directory { file_name, entries } => Seen::Directory {
                file_name: chars_of(file_name),
                entries: listing_of(entries),
            },
        }
    }
}

/// The name given to a path without a final component.
pub open spec fn fallback_name() -> Seq<char> {
    seq!['r', 'o', 'o', 't']
}

/// The name under which a path is shown: its final component, or the fallback
/// where it has none or an empty one.
pub open spec fn display_name(file_name: Option<Seq<char>>) -> Seq<char> {
    match file_name {
        Some(name) if name.len() > 0 => name,
        _ => fallback_name(),
    }
}

/// The paths of the entries that could be read, in the order of the listing.
pub open spec fn readable<P>(entries: Seq<Option<P>>) -> Seq<P>
    decreases entries.len(),
{
    if entries.len() == 0 {
        Seq::empty()
    } else {
        match entries.last() {
            Some(path) => readable(entries.drop_last()).push(path),
            None => readable(entries.drop_last()),
        }
    }
}

/// The paths to visit in a directory: those of its readable entries, and none
/// where the directory may not be listed.
pub open spec fn to_visit<P>(entries: Option<Seq<Option<P>>>) -> Seq<P> {
    match entries {
        Some(listing) => readable(listing),
        None => Seq::empty(),
    }
}

/// A directory that the walk has entered and not yet left: its name, the
/// children built so far, and the paths still to visit, the next one first.
pub ghost struct OpenDir<P> {
    pub name: Seq<char>,
    pub built: Seq<Tree>,
    pub pending: Seq<P>,
}

/// The state of a walk.
pub ghost enum Walk<P> {
    /// The walk waits to hear of `path`. `open` holds the directories it is
    /// in, the outermost first.
    Awaiting { path: P, open: Seq<OpenDir<P>> },
    /// The walk has ended with a tree.
    Done { tree: Tree },
    /// The walk has ended because its starting path could not be resolved.
    Failed,
}

/// Where a walk goes on once the innermost open directory has got all it will
/// get from the entry last visited: to the next path of that directory, or,
/// when none is left, out of it.
pub open spec fn resume<P>(open: Seq<OpenDir<P>>) -> Walk<P>
    recommends
        open.len() > 0,
    decreases open.len(), 0nat,
{
    if open.len() == 0 {
        Walk::Failed
    } else {
        let top = open.last();
        if top.pending.len() > 0 {
            Walk::Awaiting {
                path: top.pending.first(),
                open: open.drop_last().push(OpenDir { pending: top.pending.drop_first(), ..top }),
            }
        } else {
            complete(open.drop_last(), Tree { name: top.name, children: top.built })
        }
    }
}

/// Where a walk goes on once `tree` has been built inside the directories
/// `open`: the tree is the result where there are none, and else the next
/// child of the innermost.
pub open spec fn complete<P>(open: Seq<OpenDir<P>>, tree: Tree) -> Walk<P>
    decreases open.len(), 1nat,
{
    if open.len() == 0 {
        Walk::Done { tree }
    } else {
        let top = open.last();
        resume(open.drop_last().push(OpenDir { built: top.built.push(tree), ..top }))
    }
}

impl<P> OpenDir<P> {
    /// Whether the directory and all that was built in it have names that are
    /// not empty.
    pub open spec fn named(self) -> bool {
        self.name.len() > 0 && forall|i: int|
            0 <= i < self.built.len() ==> (#[trigger] self.built[i]).named()
    }
}

/// Whether all of the open directories are named.
pub open spec fn all_named<P>(open: Seq<OpenDir<P>>) -> bool {
    forall|i: int| 0 <= i < open.len() ==> (#[trigger] open[i]).named()
}

impl<P> Walk<P> {
    /// Whether every name that the walk has given so far is not empty.
    pub open spec fn named(self) -> bool {
        match self {
            Walk::Awaiting { open, .. } => all_named(open),
            Walk::Done { tree } => tree.named(),
            Walk::Failed => true,
        }
    }

    /// The state in which a walk starts at `start`.
    pub open spec fn begin(start: P) -> Walk<P> {
        Walk::Awaiting { path: start, open: Seq::empty() }
    }

    /// The state after the caller has supplied what it saw of the awaited
    /// path. A path that could not be resolved ends the walk where it is the
    /// starting path and is passed over anywhere else. A file becomes a node
    /// without children, and so does a directory that may not be listed. Any
    /// other directory is entered: its readable entries are visited in their
    /// order, and become its children unless passed over. A walk that has
    /// ended stays as it is.
    pub open spec fn supply(self, seen: Seen<P>) -> Walk<P> {
        match self {
            Walk::Awaiting { path, open } => match seen {
                Seen::Unreadable => if open.len() == 0 {
                    Walk::Failed
                } else {
                    resume(open)
                },
                Seen::File { file_name } => complete(
                    open,
                    Tree { name: display_name(file_name), children: Seq::empty() },
                ),
                Seen::Directory { file_name, entries } => resume(
                    open.push(
                        OpenDir {
                            name: display_name(file_name),
                            built: Seq::empty(),
                            pending: to_visit(entries),
                        },
                    ),
                ),
            },
            _ => self,
        }
    }
}

/// A walk never fails inside a directory: there it goes on to another path or
/// ends with a tree.
pub proof fn lemma_goes_on<P>(open: Seq<OpenDir<P>>, tree: Tree)
    ensures
        open.len() > 0 ==> !(resume(open) is Failed),
        !(complete(open, tree) is Failed),
    decreases open.len(),
{
    if open.len() > 0 {
        let top = open.last();
        let below = open.drop_last();
        if top.pending.len() > 0 {
            assert(resume(open) is Awaiting);
        } else {
            assert(resume(open) == complete(below, Tree { name: top.name, children: top.built }));
            lemma_goes_on(below, Tree { name: top.name, children: top.built });
        }
        let next = below.push(OpenDir { built: top.built.push(tree), ..top });
        assert(complete(open, tree) == resume(next));
        assert(next.drop_last() =~= below);
        if top.pending.len() > 0 {
            assert(resume(next) is Awaiting);
        } else {
            let built = Tree { name: top.name, children: top.built.push(tree) };
            assert(resume(next) == complete(below, built));
            lemma_goes_on(below, built);
        }
    } else {
        assert(complete(open, tree) == Walk::<P>::Done { tree });
    }
}

/// An entry that cannot be resolved when the walk comes to it is passed
/// over: nothing is added for it, the walk does not fail, and it goes on with
/// the entry that follows, or leaves the directory where none does.
pub proof fn lemma_unreadable_entry<P>(path: P, open: Seq<OpenDir<P>>)
    requires
        open.len() > 0,
    ensures
        ({
            let top = open.last();
            let next = (Walk::Awaiting { path, open }).supply(Seen::Unreadable);
            &&& !(next is Failed)
            &&& top.pending.len() > 0 ==> next == Walk::Awaiting {
                path: top.pending.first(),
                open: open.drop_last().push(OpenDir { pending: top.pending.drop_first(), ..top }),
            }
            &&& top.pending.len() == 0 ==> next == complete(
                open.drop_last(),
                Tree { name: top.name, children: top.built },
            )
        }),
{
    lemma_goes_on(open, Tree { name: Seq::empty(), children: Seq::empty() });
    let top = open.last();
    if top.pending.len() > 0 {
        assert(resume(open) == Walk::Awaiting {
            path: top.pending.first(),
            open: open.drop_last().push(OpenDir { pending: top.pending.drop_first(), ..top }),
        });
    } else {
        assert(resume(open) == complete(
            open.drop_last(),
            Tree { name: top.name, children: top.built },
        ));
    }
}

/// Going on inside named directories gives only names that are not empty.
pub proof fn lemma_resume_named<P>(open: Seq<OpenDir<P>>)
    requires
        all_named(open),
    ensures
        resume(open).named(),
    decreases open.len(), 0nat,
{
    if open.len() > 0 {
        let top = open.last();
        if top.pending.len() > 0 {
            let next = open.drop_last().push(OpenDir { pending: top.pending.drop_first(), ..top });
            assert(resume(open) == Walk::Awaiting { path: top.pending.first(), open: next });
            assert(all_named(next));
        } else {
            let tree = Tree { name: top.name, children: top.built };
            assert(resume(open) == complete(open.drop_last(), tree));
            assert(tree.named());
            lemma_complete_named(open.drop_last(), tree);
        }
    } else {
        assert(resume(open) == Walk::<P>::Failed);
    }
}

/// Adding a named tree to named directories gives only names that are not
/// empty.
pub proof fn lemma_complete_named<P>(open: Seq<OpenDir<P>>, tree: Tree)
    requires
        all_named(open),
        tree.named(),
    ensures
        complete(open, tree).named(),
    decreases open.len(), 1nat,
{
    if open.len() == 0 {
        assert(complete(open, tree) == Walk::<P>::Done { tree });
    } else {
        let top = open.last();
        let next = open.drop_last().push(OpenDir { built: top.built.push(tree), ..top });
        assert(complete(open, tree) == resume(next));
        assert(all_named(next));
        lemma_resume_named(next);
    }
}

/// Every node of every tree that a walk builds has a name that is not empty:
/// whatever is supplied, a walk that has given such names so far goes on
/// doing so.
pub proof fn lemma_supply_named<P>(walk: Walk<P>, seen: Seen<P>)
    requires
        walk.named(),
    ensures
        walk.supply(seen).named(),
{
    match walk {
        Walk::Awaiting { path, open } => match seen {
            Seen::Unreadable => {
                lemma_resume_named(open);
            },
            Seen::File { file_name } => {
                lemma_complete_named(
                    open,
                    Tree { name: display_name(file_name), children: Seq::empty() },
                );
            },
            Seen::Directory { file_name, entries } => {
                let next = open.push(
                    OpenDir {
                        name: display_name(file_name),
                        built: Seq::empty(),
                        pending: to_visit(entries),
                    },
                );
                assert(all_named(next));
                lemma_resume_named(next);
            },
        },
        _ => {},
    }
}

/// A directory that the walker has entered and not yet left.
struct Frame<P> {
    name: String,
    built: Vec<DirNode>,
    /// The paths still to visit, in reverse: the next one is the last.
    pending: Vec<P>,
}

impl<P> View for Frame<P> {
    type V = OpenDir<P>;

    closed spec fn view(&self) -> OpenDir<P> {
        OpenDir {
            name: self.name@,
            built: forest_view(self.built@, self.built@.len()),
            pending: self.pending@.reverse(),
        }
    }
}

/// Where the walker stands.
enum Phase<P> {
    Awaiting(P),
    Done(DirNode),
    Failed,
}

/// A walk in progress.
pub struct Walker<P> {
    phase: Phase<P>,
    open: Vec<Frame<P>>,
}

/// The models of the frames of a stack.
spec fn open_dirs<P>(frames: Seq<Frame<P>>) -> Seq<OpenDir<P>> {
    frames.map_values(|frame: Frame<P>| frame@)
}

impl<P> View for Walker<P> {
    type V = Walk<P>;

    closed spec fn view(&self) -> Walk<P> {
        match self.phase {
            Phase::Awaiting(path) => Walk::Awaiting { path, open: open_dirs(self.open@) },
            Phase::Done(node) => Walk::Done { tree: node@ },
            Phase::Failed => Walk::Failed,
        }
    }
}

/// Chooses the name under which a path is shown. It is never empty.
pub fn name_or_fallback(file_name: Option<String>) -> (name: String)
    ensures
        name@ == display_name(chars_of(file_name)),
        name@.len() > 0,
{
    match file_name {
        Some(name) => {
            if name.as_str().is_empty() {
                proof {
                    reveal_strlit("root");
                    assert("root"@ =~= fallback_name());
                }
                String::from_str("root")
            } else {
                name
            }
        },
        None => {
            proof {
                reveal_strlit("root");
                assert("root"@ =~= fallback_name());
            }
            String::from_str("root")
        },
    }
}

/// Keeps the paths of the entries that could be read, the first one last.
fn readable_reversed<P>(entries: Vec<Option<P>>) -> (pending: Vec<P>)
    ensures
        pending@.reverse() == readable(entries@),
{
    let ghost listing = entries@;
    let mut entries = entries;
    let mut pending: Vec<P> = Vec::new();
    assert(readable(listing) =~= readable(entries@) + pending@.reverse());
    while entries.len() > 0
        invariant
            readable(listing) == readable(entries@) + pending@.reverse(),
        decreases entries.len(),
    {
        let ghost before = entries@;
        let ghost kept = pending@;
        let entry = entries.pop();
        assert(entries@ == before.drop_last());
        match entry {
            Some(Some(path)) => {
                pending.push(path);
                assert(pending@.reverse() =~= seq![path] + kept.reverse());
                assert(readable(before) + kept.reverse() =~= readable(entries@) + pending@.reverse());
            },
            _ => {},
        }
    }
    assert(readable(entries@) + pending@.reverse() =~= pending@.reverse());
    pending
}

impl<P> Walker<P> {
    /// A walker gives no empty name.
    #[verifier::type_invariant]
    spec fn names_given(self) -> bool {
        self@.named()
    }

    /// Starts a walk at `start`.
    pub fn new(start: P) -> (walker: Walker<P>)
        ensures
            walker@ == Walk::begin(start),
    {
        let walker = Walker { phase: Phase::Awaiting(start), open: Vec::new() };
        assert(open_dirs(walker.open@) =~= Seq::empty());
        walker
    }

    /// The path of which the walker waits to hear, if the walk has not ended.
    pub fn awaited(&self) -> (path: Option<&P>)
        ensures
            match self@ {
                Walk::Awaiting { path: awaited, .. } => path == Some(&awaited),
                _ => path is None,
            },
    {
        match &self.phase {
            Phase::Awaiting(path) => Some(path),
            _ => None,
        }
    }

    /// Takes what the caller saw of the awaited path, and moves on.
    pub fn supply(self, probe: Probe<P>) -> (next: Walker<P>)
        ensures
            next@ == self@.supply(probe@),
    {
        proof {
            use_type_invariant(&self);
        }
        let Walker { phase, open } = self;
        let mut open = open;
        match phase {
            Phase::Awaiting(_) => match probe {
                Probe::Unreadable => {
                    if open.len() == 0 {
                        Walker { phase: Phase::Failed, open }
                    } else {
                        Self::resume(open)
                    }
                },
                Probe::File { file_name } => {
                    let node = DirNode { children: Vec::new(), name: name_or_fallback(file_name) };
                    assert(node@.children =~= Seq::empty()) by {
                        node.lemma_view();
                    }
                    Self::complete(open, node)
                },
                Probe::Directory { file_name, entries } => {
                    let ghost below = open_dirs(open@);
                    let frame = Frame {
                        name: name_or_fallback(file_name),
                        built: Vec::new(),
                        pending: match entries {
                            Some(listing) => readable_reversed(listing),
                            None => Vec::new(),
                        },
                    };
                    assert(frame@.pending =~= to_visit(listing_of(entries)));
                    assert(frame@.built =~= Seq::empty());
                    open.push(frame);
                    assert(open_dirs(open@) =~= below.push(frame@));
                    assert(all_named(open_dirs(open@)));
                    Self::resume(open)
                },
            },
            other => Walker { phase: other, open },
        }
    }

    /// The tree that the walk has built, or why it built none; `None` while
    /// the walk has not ended.
    pub fn finish(self) -> (outcome: Option<Result<DirNode, BuildError>>)
        ensures
            match self@ {
                Walk::Awaiting { .. } => outcome is None,
                Walk::Done { tree } => outcome matches Some(Ok(node)) && node@ == tree
                    && node@.named(),
                Walk::Failed => outcome == Some(Err::<DirNode, BuildError>(BuildError::InvalidPath)),
            },
    {
        proof {
            use_type_invariant(&self);
        }
        match self.phase {
            Phase::Awaiting(_) => None,
            Phase::Done(node) => Some(Ok(node)),
            Phase::Failed => Some(Err(BuildError::InvalidPath)),
        }
    }

    /// Goes on inside the innermost open directory.
    fn resume(frames: Vec<Frame<P>>) -> (next: Walker<P>)
        requires
            frames.len() > 0,
            all_named(open_dirs(frames@)),
        ensures
            next@ == resume(open_dirs(frames@)),
    {
        proof {
            lemma_resume_named(open_dirs(frames@));
        }
        let mut open = frames;
        loop
            invariant
                open.len() > 0,
                resume(open_dirs(open@)) == resume(open_dirs(frames@)),
                resume(open_dirs(frames@)).named(),
            decreases open.len(),
        {
            let ghost stack = open_dirs(open@);
            let mut top = open.pop().unwrap();
            let ghost below = open_dirs(open@);
            assert(below =~= stack.drop_last());
            assert(top@ == stack.last());
            let ghost rest = top.pending@;
            match top.pending.pop() {
                Some(path) => {
                    proof {
                        assert(rest.reverse().first() == path);
                        assert(top.pending@.reverse() =~= rest.reverse().drop_first());
                    }
                    open.push(top);
                    assert(open_dirs(open@) =~= below.push(top@));
                    assert(resume(stack) == Walk::Awaiting { path, open: open_dirs(open@) });
                    return Walker { phase: Phase::Awaiting(path), open };
                },
                None => {
                    assert(top@.pending.len() == 0);
                    let node = DirNode { children: top.built, name: top.name };
                    assert(node@ == (Tree { name: top@.name, children: top@.built }));
                    assert(resume(stack) == complete(below, node@));
                    match open.pop() {
                        None => {
                            assert(complete(below, node@) == Walk::<P>::Done { tree: node@ });
                            return Walker { phase: Phase::Done(node), open };
                        },
                        Some(parent) => {
                            let ghost outer = open_dirs(open@);
                            assert(outer =~= below.drop_last());
                            assert(parent@ == below.last());
                            let mut parent = parent;
                            let ghost had = parent.built@;
                            parent.built.push(node);
                            proof {
                                lemma_forest_view(had, had.len());
                                lemma_forest_view(parent.built@, parent.built@.len());
                                assert(parent@.built =~= below.last().built.push(node@));
                            }
                            open.push(parent);
                            assert(open_dirs(open@) =~= outer.push(parent@));
                            assert(complete(below, node@) == resume(open_dirs(open@)));
                        },
                    }
                },
            }
        }
    }

    /// Goes on after `node` has been built inside the open directories.
    fn complete(frames: Vec<Frame<P>>, node: DirNode) -> (next: Walker<P>)
        requires
            all_named(open_dirs(frames@)),
            node@.named(),
        ensures
            next@ == complete(open_dirs(frames@), node@),
    {
        let ghost stack = open_dirs(frames@);
        proof {
            lemma_complete_named(stack, node@);
        }
        let mut open = frames;
        match open.pop() {
            None => {
                assert(complete(stack, node@) == Walk::<P>::Done { tree: node@ });
                Walker { phase: Phase::Done(node), open }
            },
            Some(parent) => {
                let ghost outer = open_dirs(open@);
                assert(outer =~= stack.drop_last());
                assert(parent@ == stack.last());
                let mut parent = parent;
                let ghost had = parent.built@;
                parent.built.push(node);
                proof {
                    lemma_forest_view(had, had.len());
                    lemma_forest_view(parent.built@, parent.built@.len());
                    assert(parent@.built =~= stack.last().built.push(node@));
                }
                open.push(parent);
                assert(open_dirs(open@) =~= outer.push(parent@));
                assert(complete(stack, node@) == resume(open_dirs(open@)));
                assert(all_named(open_dirs(open@)));
                Self::resume(open)
            },
        }
    }
}

} // verus!
