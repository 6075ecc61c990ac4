//! A model of the file system that a run is driven against, and of the
//! archive that the operations of a run make.
//!
//! The model is what the statements about whole runs are made of: a file
//! system is a map from paths to nodes, a faithful run answers every action
//! from that map, and an archive is the sequence of entries that a sequence of
//! writer operations yields.

use vstd::prelude::*;
use vstd::multiset::Multiset;
use crate::file_utils::relative_name;
use crate::options::Options;
use crate::traversal::{ActionView, EntryKind, EventView, SinkOp, State};

verus! {

/// What a file system holds at one path.
pub enum FsNode {
    /// A regular file with its contents.
    File { contents: Seq<u8> },
    /// A directory with the names of its immediate children, in the order in
    /// which a listing gives them.
    Directory { names: Seq<Seq<char>> },
    /// Anything else.
    Other,
}

/// The names that a listing of `path` gives: those of the directory there,
/// and none where there is no directory.
pub open spec fn listing(fs: Map<Seq<Seq<char>>, FsNode>, path: Seq<Seq<char>>) -> Seq<Seq<char>> {
    if fs.contains_key(path) {
        match fs[path] {
            FsNode::Directory { names } => names,
            _ => Seq::empty(),
        }
    } else {
        Seq::empty()
    }
}

/// There is a directory at `path`.
pub open spec fn is_directory(fs: Map<Seq<Seq<char>>, FsNode>, path: Seq<Seq<char>>) -> bool {
    fs.contains_key(path) && fs[path] is Directory
}

/// The answer of the file system `fs` to `action`, with a writer that does
/// whatever is asked of it. An action on a path that does not hold what the
/// action needs fails.
pub open spec fn answer(fs: Map<Seq<Seq<char>>, FsNode>, action: ActionView) -> EventView {
    match action {
        ActionView::ListDirectory { path } => if is_directory(fs, path) {
            EventView::Listed(listing(fs, path))
        } else {
            EventView::FilesystemFailed(arbitrary())
        },
        ActionView::Inspect { path } => if fs.contains_key(path) {
            EventView::Inspected(
                match fs[path] {
                    FsNode::File { .. } => EntryKind::File,
                    FsNode::Directory { .. } => EntryKind::Directory,
                    FsNode::Other => EntryKind::Other,
                },
            )
        } else {
            EventView::FilesystemFailed(arbitrary())
        },
        ActionView::ReadFile { path, buffer } => if fs.contains_key(path) {
            match fs[path] {
                FsNode::File { contents } => EventView::Read(buffer + contents),
                _ => EventView::FilesystemFailed(arbitrary()),
            }
        } else {
            EventView::FilesystemFailed(arbitrary())
        },
        _ => EventView::SinkSucceeded,
    }
}

/// The state and the pending action after `steps` steps of a run in which
/// every action is answered by `fs`.
pub open spec fn run(
    fs: Map<Seq<Seq<char>>, FsNode>,
    state: State,
    action: ActionView,
    steps: nat,
) -> (State, ActionView)
    decreases steps,
{
    if steps == 0 {
        (state, action)
    } else {
        let next = state.step(answer(fs, action));
        run(fs, next.0, next.1, (steps - 1) as nat)
    }
}

/// One entry of an archive, as the writer was asked to make it.
pub struct ArchiveEntry {
    /// The name that the writer was given.
    pub name: Seq<char>,
    /// Whether the entry is a directory entry.
    pub directory: bool,
    /// The bytes written to the entry.
    pub contents: Seq<u8>,
    /// The configuration that the entry was begun with.
    pub options: Options,
}

/// The entries that the operations `ops` make, in the order in which they
/// were begun. Bytes go to the entry begun last, if it is a file entry.
pub open spec fn archive_of(ops: Seq<SinkOp>) -> Seq<ArchiveEntry>
    decreases ops.len(),
{
    if ops.len() == 0 {
        Seq::empty()
    } else {
        let before = archive_of(ops.drop_last());
        match ops.last() {
            SinkOp::BeginDirectory { name, options } => before.push(
                ArchiveEntry { name, directory: true, contents: Seq::empty(), options },
            ),
            SinkOp::BeginFile { name, options } => before.push(
                ArchiveEntry { name, directory: false, contents: Seq::empty(), options },
            ),
            SinkOp::Write { bytes } => if before.len() > 0 && !before.last().directory {
                before.update(
                    before.len() - 1,
                    ArchiveEntry { contents: before.last().contents + bytes, ..before.last() },
                )
            } else {
                before
            },
            SinkOp::Finalize => before,
        }
    }
}

/// How many levels of directories may still lie below `path` in a tree of
/// `height` levels under `root`.
pub open spec fn depth_left(root: Seq<Seq<char>>, height: nat, path: Seq<Seq<char>>) -> int {
    height + root.len() - path.len()
}

/// `fs` holds a tree of at most `height` levels at `root`: there is a
/// directory at `root`, every name listed in a directory at or below `root`
/// is the name of a node, and a directory `height` levels below `root` is
/// empty.
pub open spec fn is_tree(fs: Map<Seq<Seq<char>>, FsNode>, root: Seq<Seq<char>>, height: nat) -> bool {
    &&& is_directory(fs, root)
    &&& forall|path: Seq<Seq<char>>, i: int|
        #![trigger listing(fs, path)[i]]
        crate::file_utils::is_under(root, path) && 0 <= i < listing(fs, path).len() ==> {
            &&& fs.contains_key(path.push(listing(fs, path)[i]))
            &&& depth_left(root, height, path) > 0
        }
}

/// The entry of the node at `path` itself: a file entry with the file's
/// contents, a directory entry without contents, and nothing for any other
/// node. Its name is the path relative to `root`.
pub open spec fn own_entry(
    fs: Map<Seq<Seq<char>>, FsNode>,
    root: Seq<Seq<char>>,
    options: Options,
    path: Seq<Seq<char>>,
) -> Multiset<ArchiveEntry> {
    if fs.contains_key(path) {
        match fs[path] {
            FsNode::File { contents } => Multiset::singleton(
                ArchiveEntry {
                    name: relative_name(root, path),
                    directory: false,
                    contents,
                    options,
                },
            ),
            FsNode::Directory { .. } => Multiset::singleton(
                ArchiveEntry {
                    name: relative_name(root, path),
                    directory: true,
                    contents: Seq::empty(),
                    options,
                },
            ),
            FsNode::Other => Multiset::empty(),
        }
    } else {
        Multiset::empty()
    }
}

/// The entries of all that lies below the directory at `path`, counting only
/// the children from index `from` on: each such child's own entry and, where
/// it is a directory, the entries of all that lies below it.
pub open spec fn entries_from(
    fs: Map<Seq<Seq<char>>, FsNode>,
    root: Seq<Seq<char>>,
    options: Options,
    height: nat,
    path: Seq<Seq<char>>,
    from: nat,
) -> Multiset<ArchiveEntry>
    decreases depth_left(root, height, path), listing(fs, path).len() - from,
{
    let names = listing(fs, path);
    if depth_left(root, height, path) > 0 && from < names.len() {
        let child = path.push(names[from as int]);
        own_entry(fs, root, options, child).add(
            entries_from(fs, root, options, height, child, 0),
        ).add(entries_from(fs, root, options, height, path, from + 1))
    } else {
        Multiset::empty()
    }
}

/// The entries of every file and directory that lies below `root`, at any
/// depth: what a complete archive of `root` holds.
pub open spec fn tree_entries(
    fs: Map<Seq<Seq<char>>, FsNode>,
    root: Seq<Seq<char>>,
    options: Options,
    height: nat,
) -> Multiset<ArchiveEntry> {
    entries_from(fs, root, options, height, root, 0)
}

} // verus!
