//! Whole runs: what a traversal that is answered faithfully by a file system
//! asks of the archive writer before it ends.

use vstd::prelude::*;
use vstd::multiset::Multiset;
use crate::file_utils::{
    has_no_separator, is_under, lemma_joined_injective, lemma_joined_prefix,
    lemma_relative_name_below, plain, relative_name,
};
use crate::filesystem::{
    answer, archive_of, depth_left, entries_from, is_directory, is_tree, listing, own_entry, run,
    tree_entries, ArchiveEntry, FsNode,
};
use crate::options::{CompressionMethod, Options};
use crate::traversal::{
    all_under, lemma_drop_last_under, ActionView, EventView, Phase, SinkOp, State,
};
use crate::write::{settle, sink_rank};

verus! {

/// The steps that a run still takes for the children of the directory at
/// `path` from index `from` on, and for all that lies below them: each node
/// is inspected, and each directory is also listed.
pub open spec fn cost_from(
    fs: Map<Seq<Seq<char>>, FsNode>,
    root: Seq<Seq<char>>,
    height: nat,
    path: Seq<Seq<char>>,
    from: nat,
) -> nat
    decreases depth_left(root, height, path), listing(fs, path).len() - from,
{
    let names = listing(fs, path);
    if depth_left(root, height, path) > 0 && from < names.len() {
        let child = path.push(names[from as int]);
        1 + (if is_directory(fs, child) {
            1 + cost_from(fs, root, height, child, 0)
        } else {
            0
        }) + cost_from(fs, root, height, path, from + 1)
    } else {
        0
    }
}

/// The steps that a run still takes for the pending directories and for all
/// that lies below them.
pub open spec fn frontier_cost(
    fs: Map<Seq<Seq<char>>, FsNode>,
    root: Seq<Seq<char>>,
    height: nat,
    frontier: Seq<Seq<Seq<char>>>,
) -> nat
    decreases frontier.len(),
{
    if frontier.len() == 0 {
        0
    } else {
        frontier_cost(fs, root, height, frontier.drop_last()) + 1 + cost_from(
            fs,
            root,
            height,
            frontier.last(),
            0,
        )
    }
}

/// The entries of all that lies below the pending directories.
pub open spec fn frontier_entries(
    fs: Map<Seq<Seq<char>>, FsNode>,
    root: Seq<Seq<char>>,
    options: Options,
    height: nat,
    frontier: Seq<Seq<Seq<char>>>,
) -> Multiset<ArchiveEntry>
    decreases frontier.len(),
{
    if frontier.len() == 0 {
        Multiset::empty()
    } else {
        frontier_entries(fs, root, options, height, frontier.drop_last()).add(
            entries_from(fs, root, options, height, frontier.last(), 0),
        )
    }
}

/// Every path of `paths` holds a directory.
pub open spec fn all_directories(fs: Map<Seq<Seq<char>>, FsNode>, paths: Seq<Seq<Seq<char>>>) -> bool {
    forall|i: int| 0 <= i < paths.len() ==> is_directory(fs, #[trigger] paths[i])
}

/// The entries that a run in state `state` has still to make, but for the
/// child in hand.
pub open spec fn remaining(
    fs: Map<Seq<Seq<char>>, FsNode>,
    options: Options,
    height: nat,
    state: State,
) -> Multiset<ArchiveEntry> {
    frontier_entries(fs, state.root, options, height, state.frontier).add(
        entries_from(fs, state.root, options, height, state.directory, state.cursor as nat),
    )
}

/// The steps that a run in state `state` has still to take for the nodes it
/// has not dealt with.
pub open spec fn work(fs: Map<Seq<Seq<char>>, FsNode>, height: nat, state: State) -> nat {
    frontier_cost(fs, state.root, height, state.frontier) + cost_from(
        fs,
        state.root,
        height,
        state.directory,
        state.cursor as nat,
    ) + if state.phase is Listing {
        1nat
    } else {
        0nat
    }
}

/// How many steps a phase is away from the end of the child in hand.
pub open spec fn phase_rank(phase: Phase) -> nat {
    match phase {
        Phase::Inspecting => 3,
        Phase::Reading => 2,
        Phase::BeginningFile => 1,
        Phase::Finalizing => 1,
        _ => 0,
    }
}

/// The operations of `state` without those of the entry that is under way
/// and without the finalization.
pub open spec fn settled_ops(state: State) -> Seq<SinkOp> {
    match state.phase {
        Phase::BeginningDirectory => state.ops.drop_last(),
        Phase::BeginningFile => state.ops.drop_last(),
        Phase::Writing => state.ops.drop_last().drop_last(),
        Phase::Finalizing => state.ops.drop_last(),
        Phase::Finished => state.ops.drop_last(),
        _ => state.ops,
    }
}

/// What the child in hand is fits the phase, and the scratch buffer holds its
/// contents while its entry is under way.
pub open spec fn child_matches(fs: Map<Seq<Seq<char>>, FsNode>, state: State) -> bool {
    &&& state.phase.holds_child() ==> fs.contains_key(state.child())
    &&& state.phase is Reading ==> fs[state.child()] is File
    &&& state.phase is BeginningFile || state.phase is Writing ==> fs[state.child()] == (
    FsNode::File { contents: state.scratch })
    &&& state.phase is BeginningDirectory ==> fs[state.child()] is Directory
}

/// What holds of every state of a run on the tree at `root` that is answered
/// by `fs`: the run has not failed, it holds what `fs` holds, and the entries
/// made so far together with those still to make are the entries of the tree.
pub open spec fn faithful(
    fs: Map<Seq<Seq<char>>, FsNode>,
    root: Seq<Seq<char>>,
    options: Options,
    height: nat,
    state: State,
    action: ActionView,
) -> bool {
    &&& state.wf()
    &&& state.root == root
    &&& state.options == options
    &&& state.pending(action)
    &&& !(state.phase is Failed)
    &&& is_directory(fs, state.directory)
    &&& all_directories(fs, state.frontier)
    &&& if state.phase is Listing {
        state.cursor == 0
    } else {
        state.names == listing(fs, state.directory)
    }
    &&& state.phase is Finalizing || state.phase is Finished ==> state.frontier.len() == 0
        && state.cursor == state.names.len()
    &&& child_matches(fs, state)
    &&& archive_of(settled_ops(state)).to_multiset().add(remaining(fs, options, height, state))
        == tree_entries(fs, root, options, height)
}

/// A state between two children: the directory in hand is listed, no child
/// is in hand, and every entry begun is complete.
pub open spec fn between(
    fs: Map<Seq<Seq<char>>, FsNode>,
    root: Seq<Seq<char>>,
    options: Options,
    height: nat,
    state: State,
) -> bool {
    &&& state.in_bounds()
    &&& state.scratch.len() == 0
    &&& state.root == root
    &&& state.options == options
    &&& !state.phase.is_terminal()
    &&& is_directory(fs, state.directory)
    &&& all_directories(fs, state.frontier)
    &&& state.names == listing(fs, state.directory)
    &&& archive_of(state.ops).to_multiset().add(remaining(fs, options, height, state))
        == tree_entries(fs, root, options, height)
}

/// Taking the last pending directory away leaves directories.
proof fn lemma_drop_last_directories(fs: Map<Seq<Seq<char>>, FsNode>, paths: Seq<Seq<Seq<char>>>)
    requires
        all_directories(fs, paths),
        paths.len() > 0,
    ensures
        all_directories(fs, paths.drop_last()),
        is_directory(fs, paths.last()),
{
    assert forall|i: int| 0 <= i < paths.drop_last().len() implies is_directory(
        fs,
        #[trigger] paths.drop_last()[i],
    ) by {
        assert(paths.drop_last()[i] == paths[i]);
    }
    assert(is_directory(fs, paths[paths.len() - 1]));
}

/// What `proceed` makes of a state between two children: a faithful state
/// with the same work left.
proof fn lemma_proceed(
    fs: Map<Seq<Seq<char>>, FsNode>,
    root: Seq<Seq<char>>,
    options: Options,
    height: nat,
    state: State,
)
    requires
        is_tree(fs, root, height),
        between(fs, root, options, height, state),
    ensures
        faithful(fs, root, options, height, state.proceed().0, state.proceed().1),
        work(fs, height, state.proceed().0) == frontier_cost(fs, root, height, state.frontier)
            + cost_from(fs, root, height, state.directory, state.cursor as nat),
{
    let next = state.proceed().0;
    if state.cursor < state.names.len() {
        assert(listing(fs, state.directory)[state.cursor] == state.names[state.cursor]);
        assert(fs.contains_key(state.child()));
        assert(remaining(fs, options, height, next) == remaining(fs, options, height, state));
    } else if state.frontier.len() > 0 {
        lemma_drop_last_under(root, state.frontier);
        lemma_drop_last_directories(fs, state.frontier);
        assert(entries_from(fs, root, options, height, state.directory, state.cursor as nat)
            =~= Multiset::empty());
        assert(cost_from(fs, root, height, state.directory, state.cursor as nat) == 0);
        assert(remaining(fs, options, height, next) =~= remaining(fs, options, height, state));
    } else {
        assert(next.ops.drop_last() =~= state.ops);
        assert(state.frontier =~= Seq::empty());
        assert(remaining(fs, options, height, next) == remaining(fs, options, height, state));
        assert(cost_from(fs, root, height, state.directory, state.cursor as nat) == 0);
    }
}


/// A directory entry begun after `ops` is one more entry of the archive.
proof fn lemma_archive_directory(ops: Seq<SinkOp>, name: Seq<char>, options: Options)
    ensures
        archive_of(ops.push(SinkOp::BeginDirectory { name, options })).to_multiset()
            == archive_of(ops).to_multiset().insert(
            ArchiveEntry { name, directory: true, contents: Seq::empty(), options },
        ),
{
    let op = SinkOp::BeginDirectory { name, options };
    assert(ops.push(op).drop_last() =~= ops);
    archive_of(ops).to_multiset_ensures();
}

/// A file entry begun after `ops` and written once is one more entry of the
/// archive, with the bytes written.
proof fn lemma_archive_file(ops: Seq<SinkOp>, name: Seq<char>, options: Options, bytes: Seq<u8>)
    ensures
        archive_of(
            ops.push(SinkOp::BeginFile { name, options }).push(SinkOp::Write { bytes }),
        ).to_multiset() == archive_of(ops).to_multiset().insert(
            ArchiveEntry { name, directory: false, contents: bytes, options },
        ),
{
    let begun = ops.push(SinkOp::BeginFile { name, options });
    let written = begun.push(SinkOp::Write { bytes });
    let empty = ArchiveEntry { name, directory: false, contents: Seq::empty(), options };
    let full = ArchiveEntry { name, directory: false, contents: bytes, options };
    assert(begun.drop_last() =~= ops);
    assert(written.drop_last() =~= begun);
    assert(archive_of(begun) == archive_of(ops).push(empty));
    assert(Seq::<u8>::empty() + bytes =~= bytes);
    assert(archive_of(written) =~= archive_of(ops).push(full));
    archive_of(ops).to_multiset_ensures();
}

/// The work left and the rank of the phase, taken together, have gone down
/// from `before` to `after`.
pub open spec fn advanced(
    fs: Map<Seq<Seq<char>>, FsNode>,
    height: nat,
    before: State,
    after: State,
) -> bool {
    work(fs, height, after) < work(fs, height, before) || (work(fs, height, after) == work(
        fs,
        height,
        before,
    ) && phase_rank(after.phase) < phase_rank(before.phase))
}

/// The child in hand lies below the root, and the tree leaves room for it.
proof fn lemma_child_in_tree(
    fs: Map<Seq<Seq<char>>, FsNode>,
    root: Seq<Seq<char>>,
    options: Options,
    height: nat,
    state: State,
    action: ActionView,
)
    requires
        is_tree(fs, root, height),
        faithful(fs, root, options, height, state, action),
        state.phase.holds_child(),
    ensures
        is_under(root, state.child()),
        depth_left(root, height, state.directory) > 0,
        fs.contains_key(state.child()),
        state.child() == state.directory.push(listing(fs, state.directory)[state.cursor]),
        state.cursor < listing(fs, state.directory).len(),
{
    assert(listing(fs, state.directory)[state.cursor] == state.names[state.cursor]);
    assert(state.child().subrange(0, root.len() as int) =~= state.directory.subrange(
        0,
        root.len() as int,
    ));
}

/// One step of a faithful run is faithful again and brings the run closer to
/// its end.
proof fn lemma_step_faithful(
    fs: Map<Seq<Seq<char>>, FsNode>,
    root: Seq<Seq<char>>,
    options: Options,
    height: nat,
    state: State,
    action: ActionView,
)
    requires
        is_tree(fs, root, height),
        faithful(fs, root, options, height, state, action),
        !state.phase.is_terminal(),
    ensures
        faithful(
            fs,
            root,
            options,
            height,
            state.step(answer(fs, action)).0,
            state.step(answer(fs, action)).1,
        ),
        advanced(fs, height, state, state.step(answer(fs, action)).0),
{
    let event = answer(fs, action);
    let next = state.step(event).0;
    state.lemma_step_pending(event);
    match state.phase {
        Phase::Listing => {
            let listed = State { names: listing(fs, state.directory), cursor: 0, ..state };
            assert(remaining(fs, options, height, listed) == remaining(fs, options, height, state));
            lemma_proceed(fs, root, options, height, listed);
        },
        Phase::Inspecting => {
            lemma_child_in_tree(fs, root, options, height, state, action);
            let child = state.child();
            match fs[child] {
                FsNode::Directory { .. } => {
                    assert(next.ops.drop_last() =~= state.ops);
                    assert(remaining(fs, options, height, next) == remaining(
                        fs,
                        options,
                        height,
                        state,
                    ));
                },
                FsNode::File { .. } => {
                    assert(remaining(fs, options, height, next) == remaining(
                        fs,
                        options,
                        height,
                        state,
                    ));
                },
                FsNode::Other => {
                    let skipped = State { cursor: state.cursor + 1, ..state };
                    assert(listing(fs, child) =~= Seq::empty());
                    assert(entries_from(fs, root, options, height, child, 0) =~= Multiset::empty());
                    assert(own_entry(fs, root, options, child) =~= Multiset::empty());
                    assert(remaining(fs, options, height, skipped) =~= remaining(
                        fs,
                        options,
                        height,
                        state,
                    ));
                    lemma_proceed(fs, root, options, height, skipped);
                },
            }
        },
        Phase::Reading => {
            lemma_child_in_tree(fs, root, options, height, state, action);
            let contents = fs[state.child()]->contents;
            assert(Seq::<u8>::empty() + contents =~= contents);
            assert(next.ops.drop_last() =~= state.ops);
            assert(remaining(fs, options, height, next) == remaining(fs, options, height, state));
        },
        Phase::BeginningFile => {
            assert(next.ops.drop_last().drop_last() =~= state.ops.drop_last());
            assert(remaining(fs, options, height, next) == remaining(fs, options, height, state));
        },
        Phase::Writing => {
            lemma_child_in_tree(fs, root, options, height, state, action);
            let child = state.child();
            let written = State { scratch: Seq::empty(), cursor: state.cursor + 1, ..state };
            let before = state.ops.drop_last().drop_last();
            assert(state.ops =~= before.push(
                SinkOp::BeginFile { name: state.entry_name(), options },
            ).push(SinkOp::Write { bytes: state.scratch }));
            lemma_archive_file(before, state.entry_name(), options, state.scratch);
            assert(listing(fs, child) =~= Seq::empty());
            assert(entries_from(fs, root, options, height, child, 0) =~= Multiset::empty());
            assert(archive_of(written.ops).to_multiset().add(
                remaining(fs, options, height, written),
            ) =~= archive_of(before).to_multiset().add(remaining(fs, options, height, state)));
            lemma_proceed(fs, root, options, height, written);
        },
        Phase::BeginningDirectory => {
            lemma_child_in_tree(fs, root, options, height, state, action);
            let child = state.child();
            let begun = State {
                frontier: state.frontier.push(child),
                cursor: state.cursor + 1,
                ..state
            };
            let before = state.ops.drop_last();
            assert(state.ops =~= before.push(
                SinkOp::BeginDirectory { name: state.entry_name(), options },
            ));
            lemma_archive_directory(before, state.entry_name(), options);
            assert(begun.frontier.drop_last() =~= state.frontier);
            assert(all_under(root, begun.frontier));
            assert(all_directories(fs, begun.frontier));
            assert(archive_of(begun.ops).to_multiset().add(remaining(fs, options, height, begun))
                =~= archive_of(before).to_multiset().add(remaining(fs, options, height, state)));
            lemma_proceed(fs, root, options, height, begun);
        },
        Phase::Finalizing => {
            assert(remaining(fs, options, height, next) == remaining(fs, options, height, state));
        },
        _ => {},
    }
}

/// A faithful run ends: after the steps returned it has finished, and the
/// entries of its archive are those of the tree.
proof fn lemma_run_finishes(
    fs: Map<Seq<Seq<char>>, FsNode>,
    root: Seq<Seq<char>>,
    options: Options,
    height: nat,
    state: State,
    action: ActionView,
) -> (steps: nat)
    requires
        is_tree(fs, root, height),
        faithful(fs, root, options, height, state, action),
    ensures
        run(fs, state, action, steps).0.phase is Finished,
        run(fs, state, action, steps).0.ops.last() == SinkOp::Finalize,
        archive_of(run(fs, state, action, steps).0.ops).to_multiset() == tree_entries(
            fs,
            root,
            options,
            height,
        ),
    decreases work(fs, height, state), phase_rank(state.phase),
{
    if state.phase is Finished {
        assert(entries_from(fs, root, options, height, state.directory, state.cursor as nat)
            =~= Multiset::empty());
        assert(remaining(fs, options, height, state) =~= Multiset::empty());
        assert(archive_of(state.ops) == archive_of(state.ops.drop_last()));
        assert(archive_of(state.ops).to_multiset() =~= tree_entries(fs, root, options, height));
        0
    } else {
        lemma_step_faithful(fs, root, options, height, state, action);
        let next = state.step(answer(fs, action));
        let more = lemma_run_finishes(fs, root, options, height, next.0, next.1);
        more + 1
    }
}


/// A run starts faithful to every tree at its root.
proof fn lemma_initial_faithful(
    fs: Map<Seq<Seq<char>>, FsNode>,
    root: Seq<Seq<char>>,
    options: Options,
    height: nat,
)
    requires
        is_tree(fs, root, height),
    ensures
        faithful(
            fs,
            root,
            options,
            height,
            State::initial(root, options).0,
            State::initial(root, options).1,
        ),
{
    let first = State::initial(root, options).0;
    assert(root.subrange(0, root.len() as int) =~= root);
    assert(first.frontier =~= Seq::empty());
    assert(archive_of(first.ops) =~= Seq::empty());
    archive_of(first.ops).to_multiset_ensures();
    vstd::multiset::lemma_multiset_empty_len(archive_of(first.ops).to_multiset());
    assert(archive_of(first.ops).to_multiset() =~= Multiset::empty());
    assert(remaining(fs, options, height, first) =~= tree_entries(fs, root, options, height));
    assert(archive_of(settled_ops(first)).to_multiset().add(
        remaining(fs, options, height, first),
    ) =~= tree_entries(fs, root, options, height));
}

/// Every tree is archived whole. A run on `root` whose actions are answered
/// by a file system that holds a tree there ends after the number of steps
/// returned: it has finished, its last operation finalized the archive, and
/// the entries of the archive are the entries of the files and directories
/// below `root`, each as often as the tree holds it and so neither left out
/// nor made twice. The archive has as many entries as the tree has files and
/// directories below `root`.
pub proof fn complete_run_archives_tree(
    fs: Map<Seq<Seq<char>>, FsNode>,
    root: Seq<Seq<char>>,
    options: Options,
    height: nat,
) -> (steps: nat)
    requires
        is_tree(fs, root, height),
    ensures
        ({
            let start = State::initial(root, options);
            let end = run(fs, start.0, start.1, steps).0;
            &&& end.phase is Finished
            &&& end.ops.last() == SinkOp::Finalize
            &&& archive_of(end.ops).to_multiset() == tree_entries(fs, root, options, height)
            &&& archive_of(end.ops).len() == tree_entries(fs, root, options, height).len()
        }),
{
    let start = State::initial(root, options);
    lemma_initial_faithful(fs, root, options, height);
    let steps = lemma_run_finishes(fs, root, options, height, start.0, start.1);
    archive_of(run(fs, start.0, start.1, steps).0.ops).to_multiset_ensures();
    steps
}

/// An empty root gives an empty archive: the listing is answered with the
/// finalization, and once the writer has finalized the run has finished
/// without an entry.
pub proof fn empty_root_gives_empty_archive(
    fs: Map<Seq<Seq<char>>, FsNode>,
    root: Seq<Seq<char>>,
    options: Options,
)
    requires
        fs.contains_key(root),
        fs[root] == (FsNode::Directory { names: Seq::empty() }),
    ensures
        ({
            let start = State::initial(root, options);
            let end = run(fs, start.0, start.1, 2).0;
            &&& run(fs, start.0, start.1, 1).1 == ActionView::Finalize
            &&& end.phase is Finished
            &&& end.ops == seq![SinkOp::Finalize]
            &&& archive_of(end.ops).len() == 0
        }),
{
    let start = State::initial(root, options);
    reveal_with_fuel(run, 3);
    let listed = start.0.step(answer(fs, start.1));
    assert(listed.0.frontier =~= Seq::empty());
    let end = listed.0.step(answer(fs, listed.1)).0;
    assert(end.ops =~= seq![SinkOp::Finalize]);
    assert(end.ops.drop_last() =~= Seq::empty());
    assert(archive_of(end.ops.drop_last()) =~= Seq::empty());
}

/// A root that is no directory fails the run at once: the first step ends
/// the run with an error of the file system, and nothing has been asked of
/// the archive writer.
pub proof fn missing_root_fails_before_any_operation(
    fs: Map<Seq<Seq<char>>, FsNode>,
    root: Seq<Seq<char>>,
    options: Options,
)
    requires
        !is_directory(fs, root),
    ensures
        ({
            let start = State::initial(root, options);
            let end = run(fs, start.0, start.1, 1);
            &&& start.1 == (ActionView::ListDirectory { path: root })
            &&& start.0.ops.len() == 0
            &&& end.0.phase.failed_by_filesystem()
            &&& end.0.ops.len() == 0
            &&& end.1 == ActionView::Done
        }),
{
    let start = State::initial(root, options);
    reveal_with_fuel(run, 2);
}

/// Entries are named relative to the root. Every entry of a tree has the
/// name of a path that lies strictly below the root and that the file system
/// holds: the segments of that path after those of the root, joined with
/// `/`. The segments of the root itself are no part of the name.
pub proof fn entries_are_named_below_root(
    fs: Map<Seq<Seq<char>>, FsNode>,
    root: Seq<Seq<char>>,
    options: Options,
    height: nat,
    entry: ArchiveEntry,
) -> (path: Seq<Seq<char>>)
    requires
        tree_entries(fs, root, options, height).count(entry) > 0,
    ensures
        is_under(root, path),
        path.len() > root.len(),
        fs.contains_key(path),
        entry.name == relative_name(root, path),
        entry.options == options,
        entry.directory == is_directory(fs, path),
        !entry.directory ==> fs[path] == (FsNode::File { contents: entry.contents }),
{
    assert(root.subrange(0, root.len() as int) =~= root);
    lemma_entry_below(fs, root, options, height, root, 0, entry)
}

/// An entry among those below `path` is the entry of a node strictly below
/// `path`.
proof fn lemma_entry_below(
    fs: Map<Seq<Seq<char>>, FsNode>,
    root: Seq<Seq<char>>,
    options: Options,
    height: nat,
    path: Seq<Seq<char>>,
    from: nat,
    entry: ArchiveEntry,
) -> (found: Seq<Seq<char>>)
    requires
        is_under(root, path),
        entries_from(fs, root, options, height, path, from).count(entry) > 0,
    ensures
        is_under(root, found),
        found.len() > path.len(),
        fs.contains_key(found),
        entry.name == relative_name(root, found),
        entry.options == options,
        entry.directory == is_directory(fs, found),
        !entry.directory ==> fs[found] == (FsNode::File { contents: entry.contents }),
    decreases depth_left(root, height, path), listing(fs, path).len() - from,
{
    let names = listing(fs, path);
    let child = path.push(names[from as int]);
    assert(child.subrange(0, root.len() as int) =~= path.subrange(0, root.len() as int));
    if own_entry(fs, root, options, child).count(entry) > 0 {
        child
    } else if entries_from(fs, root, options, height, child, 0).count(entry) > 0 {
        lemma_entry_below(fs, root, options, height, child, 0, entry)
    } else {
        lemma_entry_below(fs, root, options, height, path, from + 1, entry)
    }
}


/// While the traversal waits for the writer, the steps of a run with a writer
/// that does all that is asked are the steps of a faithful run.
proof fn lemma_settle_follows_run(
    fs: Map<Seq<Seq<char>>, FsNode>,
    state: State,
    action: ActionView,
) -> (steps: nat)
    requires
        state.wf(),
        state.pending(action),
    ensures
        run(fs, state, action, steps) == settle(state, action),
    decreases sink_rank(state.phase),
{
    if state.phase.awaits_sink() {
        let next = state.step(EventView::SinkSucceeded);
        state.lemma_step_pending(EventView::SinkSucceeded);
        lemma_settle_follows_run(fs, next.0, next.1) + 1
    } else {
        0
    }
}

/// An archiver whose writer does all that is asked follows the faithful run.
/// From a well-formed state that waits on `action`, the state that
/// [`settle`] gives after the step on the answer of `fs` is the state of the
/// faithful run after the number of steps returned, which is at least one.
pub proof fn settled_step_follows_run(
    fs: Map<Seq<Seq<char>>, FsNode>,
    state: State,
    action: ActionView,
) -> (steps: nat)
    requires
        state.wf(),
        state.pending(action),
    ensures
        steps >= 1,
        run(fs, state, action, steps) == settle(
            state.step(answer(fs, action)).0,
            state.step(answer(fs, action)).1,
        ),
{
    let next = state.step(answer(fs, action));
    state.lemma_step_pending(answer(fs, action));
    lemma_settle_follows_run(fs, next.0, next.1) + 1
}

/// The default configuration is the stored one: a run that is started with
/// the default starts in the state, and with the action, of a run started
/// with the stored configuration named explicitly, so that both ask the same
/// of the writer on the same answers.
pub proof fn default_run_is_stored_run(root: Seq<Seq<char>>)
    ensures
        Options::stored_spec().compression_method == CompressionMethod::Stored,
        State::initial(root, Options::stored_spec()) == State::initial(
            root,
            Options { compression_method: CompressionMethod::Stored },
        ),
{
}


/// Every listing at or below `root` gives names without a separator, and
/// gives no name twice: what a file system does.
pub open spec fn listings_are_sets(fs: Map<Seq<Seq<char>>, FsNode>, root: Seq<Seq<char>>) -> bool {
    forall|path: Seq<Seq<char>>, i: int, j: int|
        #![trigger listing(fs, path)[i], listing(fs, path)[j]]
        is_under(root, path) && 0 <= i < listing(fs, path).len() && 0 <= j < listing(fs, path).len()
            ==> has_no_separator(listing(fs, path)[i]) && (i != j ==> listing(fs, path)[i]
            != listing(fs, path)[j])
}

/// A child of a path with plain segments below the root has plain segments
/// below the root.
proof fn lemma_child_plain(
    fs: Map<Seq<Seq<char>>, FsNode>,
    root: Seq<Seq<char>>,
    path: Seq<Seq<char>>,
    index: int,
)
    requires
        listings_are_sets(fs, root),
        is_under(root, path),
        plain(path.skip(root.len() as int)),
        0 <= index < listing(fs, path).len(),
    ensures
        is_under(root, path.push(listing(fs, path)[index])),
        is_under(path, path.push(listing(fs, path)[index])),
        plain(path.push(listing(fs, path)[index]).skip(root.len() as int)),
{
    let name = listing(fs, path)[index];
    let child = path.push(name);
    assert(child.subrange(0, root.len() as int) =~= path.subrange(0, root.len() as int));
    assert(child.subrange(0, path.len() as int) =~= path);
    assert(has_no_separator(listing(fs, path)[index]));
    assert forall|i: int| 0 <= i < child.skip(root.len() as int).len() implies has_no_separator(
        #[trigger] child.skip(root.len() as int)[i],
    ) by {
        if i < path.len() - root.len() {
            assert(child.skip(root.len() as int)[i] == path.skip(root.len() as int)[i]);
        }
    }
}

/// The entries of the children from `from` on are among those of all
/// children.
proof fn lemma_from_included(
    fs: Map<Seq<Seq<char>>, FsNode>,
    root: Seq<Seq<char>>,
    options: Options,
    height: nat,
    path: Seq<Seq<char>>,
    from: nat,
    entry: ArchiveEntry,
)
    ensures
        entries_from(fs, root, options, height, path, from).count(entry) <= entries_from(
            fs,
            root,
            options,
            height,
            path,
            0,
        ).count(entry),
    decreases from,
{
    if from > 0 {
        lemma_from_included(fs, root, options, height, path, (from - 1) as nat, entry);
    }
}

/// An entry among those of the children of `path` from `from` on is the
/// entry of a node below one of these children. The node's path and the
/// child's index are returned. The entry is among those below every
/// directory between `path` and the node.
proof fn lemma_entry_place(
    fs: Map<Seq<Seq<char>>, FsNode>,
    root: Seq<Seq<char>>,
    options: Options,
    height: nat,
    path: Seq<Seq<char>>,
    from: nat,
    entry: ArchiveEntry,
) -> (found: (Seq<Seq<char>>, int))
    requires
        listings_are_sets(fs, root),
        is_under(root, path),
        plain(path.skip(root.len() as int)),
        entries_from(fs, root, options, height, path, from).count(entry) > 0,
    ensures
        is_under(root, found.0),
        is_under(path, found.0),
        found.0.len() > path.len(),
        from <= found.1 < listing(fs, path).len(),
        found.0[path.len() as int] == listing(fs, path)[found.1],
        plain(found.0.skip(root.len() as int)),
        own_entry(fs, root, options, found.0).count(entry) > 0,
        forall|between: Seq<Seq<char>>|
            is_under(path, between) && is_under(between, found.0) && between.len() < found.0.len()
                ==> #[trigger] entries_from(fs, root, options, height, between, 0).count(entry)
                > 0,
    decreases depth_left(root, height, path), listing(fs, path).len() - from,
{
    let names = listing(fs, path);
    let child = path.push(names[from as int]);
    lemma_child_plain(fs, root, path, from as int);
    lemma_from_included(fs, root, options, height, path, from, entry);
    if own_entry(fs, root, options, child).count(entry) > 0 {
        assert forall|between: Seq<Seq<char>>|
            is_under(path, between) && is_under(between, child) && between.len()
                < child.len() implies #[trigger] entries_from(
            fs,
            root,
            options,
            height,
            between,
            0,
        ).count(entry) > 0 by {
            assert(between =~= between.subrange(0, path.len() as int));
        }
        (child, from as int)
    } else if entries_from(fs, root, options, height, child, 0).count(entry) > 0 {
        let below = lemma_entry_place(fs, root, options, height, child, 0, entry);
        assert(below.0.subrange(0, path.len() as int) =~= child.subrange(0, path.len() as int)) by {
            assert(below.0.subrange(0, child.len() as int) == child);
            assert forall|k: int| 0 <= k < path.len() implies below.0[k] == child[k] by {
                assert(below.0.subrange(0, child.len() as int)[k] == child[k]);
            }
        }
        assert(below.0[path.len() as int] == child[path.len() as int]) by {
            assert(below.0.subrange(0, child.len() as int)[path.len() as int] == child[path.len() as int]);
        }
        assert forall|between: Seq<Seq<char>>|
            is_under(path, between) && is_under(between, below.0) && between.len()
                < below.0.len() implies #[trigger] entries_from(
            fs,
            root,
            options,
            height,
            between,
            0,
        ).count(entry) > 0 by {
            if between.len() == path.len() {
                assert(between =~= between.subrange(0, path.len() as int));
            } else {
                assert(between.subrange(0, child.len() as int) =~= child) by {
                    assert forall|k: int| 0 <= k < child.len() implies between[k] == child[k] by {
                        assert(below.0.subrange(0, between.len() as int)[k] == between[k]);
                        assert(below.0.subrange(0, child.len() as int)[k] == child[k]);
                    }
                }
            }
        }
        (below.0, from as int)
    } else {
        lemma_entry_place(fs, root, options, height, path, from + 1, entry)
    }
}

/// Two nodes below the root whose entries have the same name are one node.
proof fn lemma_same_name_same_place(
    fs: Map<Seq<Seq<char>>, FsNode>,
    root: Seq<Seq<char>>,
    options: Options,
    entry: ArchiveEntry,
    other: ArchiveEntry,
    first: Seq<Seq<char>>,
    second: Seq<Seq<char>>,
)
    requires
        is_under(root, first),
        is_under(root, second),
        first.len() > root.len(),
        second.len() > root.len(),
        plain(first.skip(root.len() as int)),
        plain(second.skip(root.len() as int)),
        own_entry(fs, root, options, first).count(entry) > 0,
        own_entry(fs, root, options, second).count(other) > 0,
        entry.name == other.name,
    ensures
        first == second,
        entry == other,
{
    lemma_joined_injective(first.skip(root.len() as int), second.skip(root.len() as int));
    assert(first =~= second) by {
        assert(first.len() == second.len());
        assert forall|k: int| 0 <= k < first.len() implies first[k] == second[k] by {
            if k < root.len() {
                assert(first.subrange(0, root.len() as int)[k] == root[k]);
                assert(second.subrange(0, root.len() as int)[k] == root[k]);
            } else {
                assert(first.skip(root.len() as int)[k - root.len()] == first[k]);
                assert(second.skip(root.len() as int)[k - root.len()] == second[k]);
            }
        }
    }
}

/// No entry comes twice among those of the children of `path`.
proof fn lemma_entry_once(
    fs: Map<Seq<Seq<char>>, FsNode>,
    root: Seq<Seq<char>>,
    options: Options,
    height: nat,
    path: Seq<Seq<char>>,
    from: nat,
    entry: ArchiveEntry,
)
    requires
        listings_are_sets(fs, root),
        is_under(root, path),
        plain(path.skip(root.len() as int)),
    ensures
        entries_from(fs, root, options, height, path, from).count(entry) <= 1,
    decreases depth_left(root, height, path), listing(fs, path).len() - from,
{
    let names = listing(fs, path);
    if depth_left(root, height, path) > 0 && from < names.len() {
        let child = path.push(names[from as int]);
        lemma_child_plain(fs, root, path, from as int);
        lemma_entry_once(fs, root, options, height, child, 0, entry);
        lemma_entry_once(fs, root, options, height, path, from + 1, entry);
        let own = own_entry(fs, root, options, child).count(entry);
        let below = entries_from(fs, root, options, height, child, 0).count(entry);
        let rest = entries_from(fs, root, options, height, path, from + 1).count(entry);
        if own > 0 && below > 0 {
            let place = lemma_entry_place(fs, root, options, height, child, 0, entry);
            lemma_same_name_same_place(fs, root, options, entry, entry, child, place.0);
        }
        if (own > 0 || below > 0) && rest > 0 {
            let later = lemma_entry_place(fs, root, options, height, path, from + 1, entry);
            if own > 0 {
                lemma_same_name_same_place(fs, root, options, entry, entry, child, later.0);
            } else {
                let place = lemma_entry_place(fs, root, options, height, child, 0, entry);
                lemma_same_name_same_place(fs, root, options, entry, entry, place.0, later.0);
                assert(place.0[path.len() as int] == child[path.len() as int]) by {
                    assert(place.0.subrange(0, child.len() as int)[path.len() as int]
                        == child[path.len() as int]);
                }
            }
            assert(names[from as int] == names[later.1]);
        }
    }
}

/// No path is archived twice. Where listings give plain names and no name
/// twice, two entries of a tree with the same name are one entry, and the
/// tree holds it once: the names of the entries are pairwise distinct.
pub proof fn entries_have_distinct_names(
    fs: Map<Seq<Seq<char>>, FsNode>,
    root: Seq<Seq<char>>,
    options: Options,
    height: nat,
    entry: ArchiveEntry,
    other: ArchiveEntry,
)
    requires
        listings_are_sets(fs, root),
        tree_entries(fs, root, options, height).count(entry) > 0,
        tree_entries(fs, root, options, height).count(other) > 0,
        entry.name == other.name,
    ensures
        entry == other,
        tree_entries(fs, root, options, height).count(entry) == 1,
{
    assert(root.subrange(0, root.len() as int) =~= root);
    assert(root.skip(root.len() as int) =~= Seq::empty());
    let first = lemma_entry_place(fs, root, options, height, root, 0, entry);
    let second = lemma_entry_place(fs, root, options, height, root, 0, other);
    lemma_same_name_same_place(fs, root, options, entry, other, first.0, second.0);
    lemma_entry_once(fs, root, options, height, root, 0, entry);
}

/// An archive that holds the entries of a tree names no two of its entries
/// alike, where listings give plain names and no name twice. With
/// [`complete_run_archives_tree`]: the names that a complete run passes to
/// the writer are pairwise distinct.
pub proof fn archive_names_are_distinct(
    fs: Map<Seq<Seq<char>>, FsNode>,
    root: Seq<Seq<char>>,
    options: Options,
    height: nat,
    archive: Seq<ArchiveEntry>,
)
    requires
        listings_are_sets(fs, root),
        archive.to_multiset() == tree_entries(fs, root, options, height),
    ensures
        forall|i: int, j: int|
            0 <= i < j < archive.len() ==> (#[trigger] archive[i]).name != (#[trigger] archive[j]).name,
{
    archive.to_multiset_ensures();
    assert forall|entry: ArchiveEntry| archive.to_multiset().contains(entry) implies archive.to_multiset().count(
        entry,
    ) == 1 by {
        entries_have_distinct_names(fs, root, options, height, entry, entry);
    }
    archive.lemma_multiset_has_no_duplicates_conv();
    assert forall|i: int, j: int| 0 <= i < j < archive.len() implies (#[trigger] archive[i]).name
        != (#[trigger] archive[j]).name by {
        if archive[i].name == archive[j].name {
            assert(archive.contains(archive[i]));
            assert(archive.contains(archive[j]));
            entries_have_distinct_names(fs, root, options, height, archive[i], archive[j]);
        }
    }
}


/// The entry `entry` of an archive of the directory `middle`, as it is named
/// in an archive of `root`: the name of `middle` seen from `root` and a
/// separator come before its name.
pub open spec fn seen_from(
    root: Seq<Seq<char>>,
    middle: Seq<Seq<char>>,
    entry: ArchiveEntry,
) -> ArchiveEntry {
    ArchiveEntry { name: relative_name(root, middle) + seq!['/'] + entry.name, ..entry }
}

/// The height that is left below `middle` in a tree of `height` levels under
/// `root`.
pub open spec fn height_below(root: Seq<Seq<char>>, middle: Seq<Seq<char>>, height: nat) -> nat {
    (height - (middle.len() - root.len())) as nat
}

/// Every directory between `root` and `path` lists the next segment of
/// `path`: the traversal comes to `path` from `root`.
pub open spec fn reached_from(
    fs: Map<Seq<Seq<char>>, FsNode>,
    root: Seq<Seq<char>>,
    path: Seq<Seq<char>>,
) -> bool {
    forall|k: int|
        root.len() <= k < path.len() ==> listing(fs, path.subrange(0, k)).contains(#[trigger] path[k])
}

/// Below `middle`, the entries seen from `middle` are those seen from `root`
/// under the names they have there.
proof fn lemma_entries_seen_from(
    fs: Map<Seq<Seq<char>>, FsNode>,
    root: Seq<Seq<char>>,
    middle: Seq<Seq<char>>,
    options: Options,
    height: nat,
    path: Seq<Seq<char>>,
    from: nat,
    entry: ArchiveEntry,
)
    requires
        is_under(root, middle),
        is_under(middle, path),
        middle.len() > root.len(),
        height >= middle.len() - root.len(),
    ensures
        entries_from(fs, middle, options, height_below(root, middle, height), path, from).count(
            entry,
        ) == entries_from(fs, root, options, height, path, from).count(
            seen_from(root, middle, entry),
        ),
    decreases depth_left(root, height, path), listing(fs, path).len() - from,
{
    let below = height_below(root, middle, height);
    let names = listing(fs, path);
    assert(depth_left(middle, below, path) == depth_left(root, height, path));
    if depth_left(root, height, path) > 0 && from < names.len() {
        let child = path.push(names[from as int]);
        assert(child.subrange(0, middle.len() as int) =~= path.subrange(0, middle.len() as int));
        lemma_entries_seen_from(fs, root, middle, options, height, child, 0, entry);
        lemma_entries_seen_from(fs, root, middle, options, height, path, from + 1, entry);
        lemma_relative_name_below(root, middle, child);
        let prefix = relative_name(root, middle) + seq!['/'];
        let inner = relative_name(middle, child);
        assert(relative_name(root, child) =~= prefix + inner);
        assert(entry.name == inner <==> prefix + entry.name == prefix + inner) by {
            if prefix + entry.name == prefix + inner {
                assert(entry.name =~= (prefix + entry.name).subrange(
                    prefix.len() as int,
                    (prefix + entry.name).len() as int,
                ));
                assert(inner =~= (prefix + inner).subrange(
                    prefix.len() as int,
                    (prefix + inner).len() as int,
                ));
            }
        }
        assert(own_entry(fs, middle, options, child).count(entry) == own_entry(
            fs,
            root,
            options,
            child,
        ).count(seen_from(root, middle, entry)));
    }
}

/// The entries below a listed child are among those of the children.
proof fn lemma_child_entries_included(
    fs: Map<Seq<Seq<char>>, FsNode>,
    root: Seq<Seq<char>>,
    options: Options,
    height: nat,
    path: Seq<Seq<char>>,
    from: nat,
    index: int,
    entry: ArchiveEntry,
)
    requires
        from <= index < listing(fs, path).len(),
    ensures
        entries_from(fs, root, options, height, path.push(listing(fs, path)[index]), 0).count(
            entry,
        ) <= entries_from(fs, root, options, height, path, from).count(entry),
    decreases index - from,
{
    if depth_left(root, height, path) > 0 {
        if from < index {
            lemma_child_entries_included(fs, root, options, height, path, from + 1, index, entry);
        }
    } else {
        assert(depth_left(root, height, path.push(listing(fs, path)[index])) <= 0);
    }
}

/// The entries below a directory that the traversal comes to are among the
/// entries of the tree.
proof fn lemma_reached_entries_included(
    fs: Map<Seq<Seq<char>>, FsNode>,
    root: Seq<Seq<char>>,
    options: Options,
    height: nat,
    path: Seq<Seq<char>>,
    entry: ArchiveEntry,
)
    requires
        is_under(root, path),
        reached_from(fs, root, path),
    ensures
        entries_from(fs, root, options, height, path, 0).count(entry) <= tree_entries(
            fs,
            root,
            options,
            height,
        ).count(entry),
    decreases path.len(),
{
    if path.len() > root.len() {
        let parent = path.drop_last();
        assert(parent.subrange(0, root.len() as int) =~= path.subrange(0, root.len() as int));
        assert forall|k: int| root.len() <= k < parent.len() implies listing(
            fs,
            parent.subrange(0, k),
        ).contains(#[trigger] parent[k]) by {
            assert(parent.subrange(0, k) =~= path.subrange(0, k));
            assert(listing(fs, path.subrange(0, k)).contains(path[k]));
        }
        lemma_reached_entries_included(fs, root, options, height, parent, entry);
        assert(path.subrange(0, path.len() - 1) =~= parent);
        assert(listing(fs, parent).contains(path[path.len() - 1]));
        let index = choose|index: int|
            0 <= index < listing(fs, parent).len() && listing(fs, parent)[index] == path.last();
        assert(path =~= parent.push(listing(fs, parent)[index]));
        lemma_child_entries_included(fs, root, options, height, parent, 0, index, entry);
    } else {
        assert(path =~= root) by {
            assert(path.subrange(0, root.len() as int) =~= path);
        }
    }
}

/// Names depend only on the place below the chosen root. For a directory
/// `middle` that the traversal of `root` comes to, every entry of the archive
/// of `middle` is, as often, an entry of the part of the archive of `root`
/// that lies below `middle`, under its name with the name of `middle` and a
/// separator before it; and that part is part of the archive of `root`.
pub proof fn subdirectory_archive_is_renamed_part(
    fs: Map<Seq<Seq<char>>, FsNode>,
    root: Seq<Seq<char>>,
    middle: Seq<Seq<char>>,
    options: Options,
    height: nat,
    entry: ArchiveEntry,
)
    requires
        is_under(root, middle),
        middle.len() > root.len(),
        height >= middle.len() - root.len(),
        reached_from(fs, root, middle),
    ensures
        tree_entries(fs, middle, options, height_below(root, middle, height)).count(entry)
            == entries_from(fs, root, options, height, middle, 0).count(
            seen_from(root, middle, entry),
        ),
        entries_from(fs, root, options, height, middle, 0).count(seen_from(root, middle, entry))
            <= tree_entries(fs, root, options, height).count(seen_from(root, middle, entry)),
{
    assert(middle.subrange(0, middle.len() as int) =~= middle);
    lemma_entries_seen_from(fs, root, middle, options, height, middle, 0, entry);
    lemma_reached_entries_included(
        fs,
        root,
        options,
        height,
        middle,
        seen_from(root, middle, entry),
    );
}


/// What the archive of `root` names below a directory lies below it. Where
/// listings give plain names and no name twice, an entry of the archive of
/// `root` whose name is the name of the directory `middle`, a separator and
/// `inner` is an entry of the part below `middle`, and the archive of
/// `middle` holds it under the name `inner`. With
/// [`subdirectory_archive_is_renamed_part`]: the archive of `middle` is the
/// part of the archive of `root` named below `middle`, with the name of
/// `middle` and the separator taken off.
pub proof fn entries_named_below_directory_lie_below_it(
    fs: Map<Seq<Seq<char>>, FsNode>,
    root: Seq<Seq<char>>,
    middle: Seq<Seq<char>>,
    options: Options,
    height: nat,
    entry: ArchiveEntry,
    inner: Seq<char>,
)
    requires
        listings_are_sets(fs, root),
        is_under(root, middle),
        middle.len() > root.len(),
        plain(middle.skip(root.len() as int)),
        height >= middle.len() - root.len(),
        tree_entries(fs, root, options, height).count(entry) > 0,
        entry.name == relative_name(root, middle) + seq!['/'] + inner,
    ensures
        entries_from(fs, root, options, height, middle, 0).count(entry) > 0,
        tree_entries(fs, middle, options, height_below(root, middle, height)).count(
            ArchiveEntry { name: inner, ..entry },
        ) > 0,
{
    assert(root.subrange(0, root.len() as int) =~= root);
    assert(root.skip(root.len() as int) =~= Seq::empty());
    let place = lemma_entry_place(fs, root, options, height, root, 0, entry).0;
    let front = middle.skip(root.len() as int);
    let whole = place.skip(root.len() as int);
    lemma_joined_prefix(front, whole, inner);
    assert(place.subrange(0, middle.len() as int) =~= middle) by {
        assert forall|k: int| 0 <= k < middle.len() implies place[k] == middle[k] by {
            if k < root.len() {
                assert(place.subrange(0, root.len() as int)[k] == root[k]);
                assert(middle.subrange(0, root.len() as int)[k] == root[k]);
            } else {
                assert(whole.subrange(0, front.len() as int)[k - root.len()] == front[k
                    - root.len()]);
            }
        }
    }
    assert(entries_from(fs, root, options, height, middle, 0).count(entry) > 0);
    let renamed = ArchiveEntry { name: inner, ..entry };
    assert(seen_from(root, middle, renamed) == entry);
    assert(middle.subrange(0, middle.len() as int) =~= middle);
    lemma_entries_seen_from(fs, root, middle, options, height, middle, 0, renamed);
}

} // verus!
