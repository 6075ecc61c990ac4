//! The traversal of a directory tree as a state machine.
//!
//! A [`Traversal`] never touches a disk or an archive. It asks for one thing
//! at a time with an [`Action`], and is told what came of it with an
//! [`Event`]. Whoever drives it lists directories, reads files and hands the
//! entries to an archive writer; the traversal decides what is asked next,
//! under which name an entry goes into the archive, and when the run ends.

use vstd::prelude::*;
use crate::error::ArchiveError;
use crate::file_utils::{is_under, make_relative_path, relative_name};
use crate::options::Options;

verus! {

/// What a path on disk turned out to be.
#[derive(Clone, Copy, Debug, PartialEq, Eq, Structural)]
pub enum EntryKind {
    /// A regular file.
    File,
    /// A directory.
    Directory,
    /// Anything else. Such an entry is skipped: it gets no archive entry and
    /// is not descended into.
    Other,
}

/// Where a run stands: what the traversal waits for, or how it ended.
#[derive(Debug)]
pub enum Phase {
    /// Waits for the listing of the directory in hand.
    Listing,
    /// Waits to learn what the child in hand is.
    Inspecting,
    /// Waits for the contents of the child in hand, a file.
    Reading,
    /// Waits for the writer to begin the directory entry of the child in hand.
    BeginningDirectory,
    /// Waits for the writer to begin the file entry of the child in hand.
    BeginningFile,
    /// Waits for the writer to take the bytes of the child in hand.
    Writing,
    /// Waits for the writer to finalize the archive.
    Finalizing,
    /// The archive is complete.
    Finished,
    /// The run failed.
    Failed(ArchiveError),
}

impl Phase {
    /// The run has ended, well or badly.
    pub open spec fn is_terminal(self) -> bool {
        self is Finished || self is Failed
    }

    /// The pending action is one on the file system.
    pub open spec fn awaits_filesystem(self) -> bool {
        self is Listing || self is Inspecting || self is Reading
    }

    /// The pending action is one on the archive writer.
    pub open spec fn awaits_sink(self) -> bool {
        self is BeginningDirectory || self is BeginningFile || self is Writing
            || self is Finalizing
    }

    /// The run failed because the archive writer refused an operation.
    pub open spec fn failed_by_sink(self) -> bool {
        match self {
            Phase::Failed(ArchiveError::Sink(_)) => true,
            _ => false,
        }
    }

    /// The run failed because of the file system.
    pub open spec fn failed_by_filesystem(self) -> bool {
        match self {
            Phase::Failed(ArchiveError::Filesystem(_)) => true,
            _ => false,
        }
    }

    /// A child of the directory in hand is being dealt with.
    pub open spec fn holds_child(self) -> bool {
        self is Inspecting || self is Reading || self is BeginningDirectory
            || self is BeginningFile || self is Writing
    }
}

/// One operation asked of the archive writer.
pub enum SinkOp {
    /// Begin a directory entry.
    BeginDirectory { name: Seq<char>, options: Options },
    /// Begin a file entry.
    BeginFile { name: Seq<char>, options: Options },
    /// Append bytes to the file entry begun last.
    Write { bytes: Seq<u8> },
    /// Finalize the archive.
    Finalize,
}

/// What the traversal is told.
#[derive(Debug)]
pub enum Event {
    /// The directory was listed: the names of its immediate children.
    Listed(Vec<String>),
    /// The child was inspected.
    Inspected(EntryKind),
    /// The file was read: the buffer that came with the action, now holding
    /// the file's whole contents.
    Read(Vec<u8>),
    /// The action on the file system failed.
    FilesystemFailed(std::io::Error),
    /// The archive writer did what was asked.
    SinkSucceeded,
    /// The archive writer failed.
    SinkFailed(zip::result::ZipError),
}

/// An [`Event`] as contracts see it.
pub enum EventView {
    Listed(Seq<Seq<char>>),
    Inspected(EntryKind),
    Read(Seq<u8>),
    FilesystemFailed(std::io::Error),
    SinkSucceeded,
    SinkFailed(zip::result::ZipError),
}

impl View for Event {
    type V = EventView;

    open spec fn view(&self) -> EventView {
        match self {
            Event::Listed(names) => EventView::Listed(names.deep_view()),
            Event::Inspected(kind) => EventView::Inspected(*kind),
            Event::Read(bytes) => EventView::Read(bytes@),
            Event::FilesystemFailed(cause) => EventView::FilesystemFailed(*cause),
            Event::SinkSucceeded => EventView::SinkSucceeded,
            Event::SinkFailed(cause) => EventView::SinkFailed(*cause),
        }
    }
}

/// What the traversal asks for. Each action but `Done` is answered with one
/// event.
#[derive(Debug, PartialEq, Eq)]
pub enum Action {
    /// List the immediate children of the directory at `path`, in one
    /// listing. Answered with `Listed` or `FilesystemFailed`.
    ListDirectory { path: Vec<String> },
    /// Find out what is at `path`. Answered with `Inspected` or
    /// `FilesystemFailed`.
    Inspect { path: Vec<String> },
    /// Read the whole file at `path` into `buffer`. Answered with `Read`,
    /// which hands the buffer back, or with `FilesystemFailed`.
    ReadFile { path: Vec<String>, buffer: Vec<u8> },
    /// Begin a directory entry in the archive. Answered with `SinkSucceeded`
    /// or `SinkFailed`.
    BeginDirectory { name: String, options: Options },
    /// Begin a file entry in the archive. Answered with `SinkSucceeded` or
    /// `SinkFailed`.
    BeginFile { name: String, options: Options },
    /// Write the traversal's scratch buffer to the entry begun last. Answered
    /// with `SinkSucceeded` or `SinkFailed`.
    Write,
    /// Finalize the archive. Answered with `SinkSucceeded` or `SinkFailed`.
    Finalize,
    /// Nothing is left to do: the run has finished or failed.
    Done,
}

/// An [`Action`] as contracts see it.
pub enum ActionView {
    ListDirectory { path: Seq<Seq<char>> },
    Inspect { path: Seq<Seq<char>> },
    ReadFile { path: Seq<Seq<char>>, buffer: Seq<u8> },
    BeginDirectory { name: Seq<char>, options: Options },
    BeginFile { name: Seq<char>, options: Options },
    Write,
    Finalize,
    Done,
}

impl View for Action {
    type V = ActionView;

    open spec fn view(&self) -> ActionView {
        match self {
            Action::ListDirectory { path } => ActionView::ListDirectory { path: path.deep_view() },
            Action::Inspect { path } => ActionView::Inspect { path: path.deep_view() },
            Action::ReadFile { path, buffer } => ActionView::ReadFile {
                path: path.deep_view(),
                buffer: buffer@,
            },
            Action::BeginDirectory { name, options } => ActionView::BeginDirectory {
                name: name@,
                options: *options,
            },
            Action::BeginFile { name, options } => ActionView::BeginFile {
                name: name@,
                options: *options,
            },
            Action::Write => ActionView::Write,
            Action::Finalize => ActionView::Finalize,
            Action::Done => ActionView::Done,
        }
    }
}

/// Every path of `paths` is `root` or lies below it.
pub open spec fn all_under(root: Seq<Seq<char>>, paths: Seq<Seq<Seq<char>>>) -> bool {
    forall|i: int| 0 <= i < paths.len() ==> is_under(root, #[trigger] paths[i])
}

/// The state of a run as contracts see it.
pub struct State {
    /// The directory that is archived.
    pub root: Seq<Seq<char>>,
    /// The configuration of every entry.
    pub options: Options,
    /// The directories found and not yet listed. The last one is listed next.
    pub frontier: Seq<Seq<Seq<char>>>,
    /// The directory in hand.
    pub directory: Seq<Seq<char>>,
    /// The names of the children of the directory in hand, as listed.
    pub names: Seq<Seq<char>>,
    /// How many of these children are dealt with. While a child is in hand,
    /// it is the one at this index.
    pub cursor: int,
    /// The contents of the file in hand, between its reading and its writing;
    /// empty at any other time.
    pub scratch: Seq<u8>,
    /// Where the run stands.
    pub phase: Phase,
    /// Every operation asked of the archive writer so far, oldest first.
    pub ops: Seq<SinkOp>,
}

impl State {
    /// The path of the child in hand.
    pub open spec fn child(self) -> Seq<Seq<char>> {
        self.directory.push(self.names[self.cursor])
    }

    /// The archive name of the child in hand: its path relative to the root.
    pub open spec fn entry_name(self) -> Seq<char> {
        relative_name(self.root, self.child())
    }

    /// The directory in hand and every pending directory are the root or lie
    /// below it, and the cursor is within the listing or at its end.
    pub open spec fn in_bounds(self) -> bool {
        &&& is_under(self.root, self.directory)
        &&& all_under(self.root, self.frontier)
        &&& 0 <= self.cursor <= self.names.len()
    }

    /// The operations asked last are those that the phase waits on.
    pub open spec fn asked_last(self) -> bool {
        match self.phase {
            Phase::BeginningDirectory => self.ops.len() >= 1 && self.ops.last() == (
            SinkOp::BeginDirectory { name: self.entry_name(), options: self.options }),
            Phase::BeginningFile => self.ops.len() >= 1 && self.ops.last() == (SinkOp::BeginFile {
                name: self.entry_name(),
                options: self.options,
            }),
            Phase::Writing => self.ops.len() >= 2 && self.ops.last() == (SinkOp::Write {
                bytes: self.scratch,
            }) && self.ops[self.ops.len() - 2] == (SinkOp::BeginFile {
                name: self.entry_name(),
                options: self.options,
            }),
            Phase::Finalizing => self.ops.len() >= 1 && self.ops.last() == SinkOp::Finalize,
            Phase::Finished => self.ops.len() >= 1 && self.ops.last() == SinkOp::Finalize,
            _ => true,
        }
    }

    /// What holds of the state of every run.
    pub open spec fn wf(self) -> bool {
        &&& self.in_bounds()
        &&& self.phase.holds_child() ==> self.cursor < self.names.len()
        &&& !(self.phase is BeginningFile || self.phase is Writing || self.phase is Failed)
            ==> self.scratch.len() == 0
        &&& self.asked_last()
    }

    /// The run has failed with `error`.
    pub open spec fn fail(self, error: ArchiveError) -> (State, ActionView) {
        (State { phase: Phase::Failed(error), ..self }, ActionView::Done)
    }

    /// What comes once no child is in hand: the next child of the directory
    /// in hand is inspected; if there is none, the directory found last is
    /// listed; if none is pending either, the archive is finalized.
    pub open spec fn proceed(self) -> (State, ActionView) {
        if self.cursor < self.names.len() {
            (State { phase: Phase::Inspecting, ..self }, ActionView::Inspect { path: self.child() })
        } else if self.frontier.len() > 0 {
            (
                State {
                    phase: Phase::Listing,
                    directory: self.frontier.last(),
                    names: Seq::empty(),
                    cursor: 0,
                    frontier: self.frontier.drop_last(),
                    ..self
                },
                ActionView::ListDirectory { path: self.frontier.last() },
            )
        } else {
            (
                State { phase: Phase::Finalizing, ops: self.ops.push(SinkOp::Finalize), ..self },
                ActionView::Finalize,
            )
        }
    }

    /// The child in hand is dealt with.
    pub open spec fn next_child(self) -> (State, ActionView) {
        (State { cursor: self.cursor + 1, ..self }).proceed()
    }

    /// The state in which a run on `root` starts, and its first action: the
    /// root is the one pending directory, and its listing is asked for.
    pub open spec fn initial(root: Seq<Seq<char>>, options: Options) -> (State, ActionView) {
        (State {
            root,
            options,
            frontier: seq![root],
            directory: root,
            names: Seq::empty(),
            cursor: 0,
            scratch: Seq::empty(),
            phase: Phase::Listing,
            ops: Seq::empty(),
        }).proceed()
    }

    /// `action` is the one that this state waits on.
    pub open spec fn pending(self, action: ActionView) -> bool {
        match self.phase {
            Phase::Listing => action == (ActionView::ListDirectory { path: self.directory }),
            Phase::Inspecting => action == (ActionView::Inspect { path: self.child() }),
            Phase::Reading => action == (ActionView::ReadFile {
                path: self.child(),
                buffer: Seq::empty(),
            }),
            Phase::BeginningDirectory => action == (ActionView::BeginDirectory {
                name: self.entry_name(),
                options: self.options,
            }),
            Phase::BeginningFile => action == (ActionView::BeginFile {
                name: self.entry_name(),
                options: self.options,
            }),
            Phase::Writing => action == ActionView::Write,
            Phase::Finalizing => action == ActionView::Finalize,
            Phase::Finished => action == ActionView::Done,
            Phase::Failed(_) => action == ActionView::Done,
        }
    }

    /// The state after `event`, and the action asked for next.
    pub open spec fn step(self, event: EventView) -> (State, ActionView) {
        if self.phase.is_terminal() {
            (self, ActionView::Done)
        } else {
            match event {
                EventView::Listed(names) => if self.phase is Listing {
                    (State { names, cursor: 0, ..self }).proceed()
                } else {
                    self.fail(ArchiveError::UnexpectedEvent)
                },
                EventView::Inspected(kind) => if self.phase is Inspecting {
                    match kind {
                        EntryKind::Directory => (
                            State {
                                phase: Phase::BeginningDirectory,
                                ops: self.ops.push(
                                    SinkOp::BeginDirectory {
                                        name: self.entry_name(),
                                        options: self.options,
                                    },
                                ),
                                ..self
                            },
                            ActionView::BeginDirectory {
                                name: self.entry_name(),
                                options: self.options,
                            },
                        ),
                        EntryKind::File => (
                            State { phase: Phase::Reading, scratch: Seq::empty(), ..self },
                            ActionView::ReadFile { path: self.child(), buffer: self.scratch },
                        ),
                        EntryKind::Other => self.next_child(),
                    }
                } else {
                    self.fail(ArchiveError::UnexpectedEvent)
                },
                EventView::Read(bytes) => if self.phase is Reading {
                    (
                        State {
                            phase: Phase::BeginningFile,
                            scratch: bytes,
                            ops: self.ops.push(
                                SinkOp::BeginFile {
                                    name: self.entry_name(),
                                    options: self.options,
                                },
                            ),
                            ..self
                        },
                        ActionView::BeginFile { name: self.entry_name(), options: self.options },
                    )
                } else {
                    self.fail(ArchiveError::UnexpectedEvent)
                },
                EventView::FilesystemFailed(cause) => if self.phase.awaits_filesystem() {
                    self.fail(ArchiveError::Filesystem(cause))
                } else {
                    self.fail(ArchiveError::UnexpectedEvent)
                },
                EventView::SinkSucceeded => match self.phase {
                    Phase::BeginningDirectory => (State {
                        frontier: self.frontier.push(self.child()),
                        ..self
                    }).next_child(),
                    Phase::BeginningFile => (
                        State {
                            phase: Phase::Writing,
                            ops: self.ops.push(SinkOp::Write { bytes: self.scratch }),
                            ..self
                        },
                        ActionView::Write,
                    ),
                    Phase::Writing => (State { scratch: Seq::empty(), ..self }).next_child(),
                    Phase::Finalizing => (State { phase: Phase::Finished, ..self }, ActionView::Done),
                    _ => self.fail(ArchiveError::UnexpectedEvent),
                },
                EventView::SinkFailed(cause) => if self.phase.awaits_sink() {
                    self.fail(ArchiveError::Sink(cause))
                } else {
                    self.fail(ArchiveError::UnexpectedEvent)
                },
            }
        }
    }
}


impl State {
    /// The action that a step gives is the one that the new state waits on,
    /// and a step keeps a well-formed state well formed.
    pub proof fn lemma_step_pending(self, event: EventView)
        requires
            self.wf(),
        ensures
            self.step(event).0.wf(),
            self.step(event).0.pending(self.step(event).1),
    {
        if !self.phase.is_terminal() {
            assert(self.phase is Inspecting ==> self.scratch =~= Seq::<u8>::empty());
            match event {
                EventView::SinkSucceeded => {
                    if self.phase is BeginningDirectory {
                        let pushed = self.frontier.push(self.child());
                        assert(self.child().subrange(0, self.root.len() as int)
                            =~= self.directory.subrange(0, self.root.len() as int));
                        assert(all_under(self.root, pushed));
                        lemma_drop_last_under(self.root, pushed);
                    } else {
                        lemma_drop_last_under(self.root, self.frontier);
                    }
                },
                _ => {
                    lemma_drop_last_under(self.root, self.frontier);
                },
            }
        }
    }

    /// A step asks one operation of the writer exactly when the new state
    /// waits for the writer, and none otherwise: the operations after the
    /// step are those before, with the one asked added last.
    pub proof fn lemma_step_asks_once(self, event: EventView)
        ensures
            ({
                let next = self.step(event).0;
                if next.phase.awaits_sink() && !self.phase.is_terminal() {
                    next.ops.len() == self.ops.len() + 1 && next.ops.drop_last() == self.ops
                } else {
                    next.ops == self.ops
                }
            }),
    {
        assert(forall|op: SinkOp| self.ops.push(op).drop_last() =~= self.ops);
    }

    /// A step never takes back an operation asked of the writer: the
    /// operations after the step extend those before.
    pub proof fn lemma_step_extends_ops(self, event: EventView)
        ensures
            self.ops.is_prefix_of(self.step(event).0.ops),
    {
        let after = self.step(event).0.ops;
        assert(after == self.ops || after.len() == self.ops.len() + 1 && after.drop_last()
            == self.ops) by {
            assert(forall|op: SinkOp| self.ops.push(op).drop_last() =~= self.ops);
        }
        if after != self.ops {
            assert(after.subrange(0, self.ops.len() as int) =~= after.drop_last());
        }
        assert(self.ops.subrange(0, self.ops.len() as int) =~= self.ops);
    }
}

/// Paths below a root stay below it when the last of them is taken away.
pub proof fn lemma_drop_last_under(root: Seq<Seq<char>>, paths: Seq<Seq<Seq<char>>>)
    requires
        all_under(root, paths),
    ensures
        paths.len() > 0 ==> all_under(root, paths.drop_last()) && is_under(root, paths.last()),
{
    if paths.len() > 0 {
        assert forall|i: int| 0 <= i < paths.drop_last().len() implies is_under(
            root,
            #[trigger] paths.drop_last()[i],
        ) by {
            assert(paths.drop_last()[i] == paths[i]);
        }
        assert(is_under(root, paths[paths.len() - 1]));
    }
}

/// A copy of a path, segment by segment.
fn clone_path(path: &Vec<String>) -> (copy: Vec<String>)
    ensures
        copy.deep_view() == path.deep_view(),
{
    let mut copy: Vec<String> = Vec::new();
    let mut i: usize = 0;
    while i < path.len()
        invariant
            i <= path.len(),
            copy.len() == i,
            forall|j: int| 0 <= j < i ==> copy[j]@ == path[j]@,
        decreases path.len() - i,
    {
        copy.push(path[i].clone());
        i += 1;
    }
    proof {
        assert(copy.deep_view() =~= path.deep_view());
    }
    copy
}

/// One run of the traversal: the root, the configuration, the directories
/// still to list, the listing in hand and the scratch buffer. All of it is
/// made when the run starts and gone when the value is dropped.
pub struct Traversal {
    root: Vec<String>,
    options: Options,
    frontier: Vec<Vec<String>>,
    directory: Vec<String>,
    names: Vec<String>,
    cursor: usize,
    scratch: Vec<u8>,
    phase: Phase,
    ops: Ghost<Seq<SinkOp>>,
}

impl View for Traversal {
    type V = State;

    closed spec fn view(&self) -> State {
        State {
            root: self.root.deep_view(),
            options: self.options,
            frontier: self.frontier.deep_view(),
            directory: self.directory.deep_view(),
            names: self.names.deep_view(),
            cursor: self.cursor as int,
            scratch: self.scratch@,
            phase: self.phase,
            ops: self.ops@,
        }
    }
}

impl Traversal {
    /// What holds of every run between two calls.
    pub open spec fn wf(&self) -> bool {
        self@.wf()
    }

    /// Starts a run on the directory `root` with `options`, and gives the
    /// first action: the listing of the root. Nothing has been asked of the
    /// archive writer yet.
    pub fn new(root: Vec<String>, options: Options) -> (started: (Traversal, Action))
        ensures
            started.0.wf(),
            (started.0@, started.1@) == State::initial(root.deep_view(), options),
    {
        let mut frontier: Vec<Vec<String>> = Vec::new();
        frontier.push(clone_path(&root));
        let directory = clone_path(&root);
        let mut traversal = Traversal {
            root,
            options,
            frontier,
            directory,
            names: Vec::new(),
            cursor: 0,
            scratch: Vec::new(),
            phase: Phase::Listing,
            ops: Ghost(Seq::empty()),
        };
        proof {
            assert(traversal.frontier.deep_view() =~= seq![root.deep_view()]);
            assert(traversal.names.deep_view() =~= Seq::<Seq<char>>::empty());
            assert(root.deep_view().subrange(0, root.deep_view().len() as int) =~= root.deep_view());
        }
        let action = traversal.proceed();
        (traversal, action)
    }

    /// The configuration of the run.
    pub fn options(&self) -> (options: Options)
        ensures
            options == self@.options,
    {
        self.options
    }

    /// The scratch buffer: after `Action::Write`, the bytes to hand to the
    /// archive writer.
    pub fn scratch(&self) -> (bytes: &Vec<u8>)
        ensures
            bytes@ == self@.scratch,
    {
        &self.scratch
    }

    /// Whether the run has ended, well or badly.
    pub fn is_done(&self) -> (done: bool)
        ensures
            done == self@.phase.is_terminal(),
    {
        match &self.phase {
            Phase::Finished => true,
            Phase::Failed(_) => true,
            _ => false,
        }
    }

    /// Whether the pending action is one on the file system, or none at all.
    pub fn awaits_filesystem_or_done(&self) -> (outside: bool)
        ensures
            outside == !self@.phase.awaits_sink(),
    {
        match &self.phase {
            Phase::BeginningDirectory => false,
            Phase::BeginningFile => false,
            Phase::Writing => false,
            Phase::Finalizing => false,
            _ => true,
        }
    }

    /// Ends the run and tells how it went: `Some(Ok(()))` once the archive
    /// has been finalized, `Some(Err(..))` with the first failure, and `None`
    /// while the run is still under way.
    pub fn into_result(self) -> (result: Option<Result<(), ArchiveError>>)
        ensures
            result == match self@.phase {
                Phase::Finished => Some(Ok::<(), ArchiveError>(())),
                Phase::Failed(error) => Some(Err::<(), ArchiveError>(error)),
                _ => None::<Result<(), ArchiveError>>,
            },
    {
        match self.phase {
            Phase::Finished => Some(Ok(())),
            Phase::Failed(error) => Some(Err(error)),
            _ => None,
        }
    }

    /// The path of the child in hand.
    fn child_path(&self) -> (path: Vec<String>)
        requires
            self@.cursor < self@.names.len(),
        ensures
            path.deep_view() == self@.child(),
    {
        let mut path = clone_path(&self.directory);
        let ghost before = path.deep_view();
        path.push(self.names[self.cursor].clone());
        proof {
            assert(path.deep_view() =~= before.push(self.names[self.cursor as int]@));
        }
        path
    }

    /// The archive name of the child in hand.
    fn child_name(&self) -> (name: String)
        requires
            self@.in_bounds(),
            self@.cursor < self@.names.len(),
        ensures
            name@ == self@.entry_name(),
    {
        let path = self.child_path();
        proof {
            let child = self@.child();
            assert(child.subrange(0, self@.root.len() as int) =~= self@.directory.subrange(
                0,
                self@.root.len() as int,
            ));
        }
        make_relative_path(&self.root, &path)
    }

    fn fail(&mut self, error: ArchiveError) -> (action: Action)
        requires
            old(self).wf(),
        ensures
            final(self).wf(),
            (final(self)@, action@) == old(self)@.fail(error),
    {
        self.phase = Phase::Failed(error);
        Action::Done
    }

    fn proceed(&mut self) -> (action: Action)
        requires
            old(self)@.in_bounds(),
            old(self)@.scratch.len() == 0,
        ensures
            final(self).wf(),
            (final(self)@, action@) == old(self)@.proceed(),
    {
        if self.cursor < self.names.len() {
            self.phase = Phase::Inspecting;
            let path = self.child_path();
            Action::Inspect { path }
        } else {
            let ghost pending = self.frontier.deep_view();
            match self.frontier.pop() {
                Some(directory) => {
                    proof {
                        assert(self.frontier.deep_view() =~= pending.drop_last());
                        assert(directory.deep_view() == pending.last());
                        assert(is_under(self.root.deep_view(), pending[pending.len() - 1]));
                        assert(all_under(self.root.deep_view(), pending.drop_last())) by {
                            assert forall|i: int| 0 <= i < pending.drop_last().len() implies is_under(
                                self.root.deep_view(),
                                #[trigger] pending.drop_last()[i],
                            ) by {
                                assert(pending.drop_last()[i] == pending[i]);
                            }
                        }
                    }
                    let path = clone_path(&directory);
                    self.directory = directory;
                    self.names = Vec::new();
                    self.cursor = 0;
                    self.phase = Phase::Listing;
                    proof {
                        assert(self.names.deep_view() =~= Seq::<Seq<char>>::empty());
                    }
                    Action::ListDirectory { path }
                },
                None => {
                    proof {
                        assert(self.frontier.deep_view() =~= pending);
                    }
                    self.phase = Phase::Finalizing;
                    self.ops = Ghost(self.ops@.push(SinkOp::Finalize));
                    Action::Finalize
                },
            }
        }
    }

    fn next_child(&mut self) -> (action: Action)
        requires
            old(self)@.in_bounds(),
            old(self)@.cursor < old(self)@.names.len(),
            old(self)@.scratch.len() == 0,
        ensures
            final(self).wf(),
            (final(self)@, action@) == old(self)@.next_child(),
    {
        assert(self@.names.len() == self.names.len());
        self.cursor = self.cursor + 1;
        self.proceed()
    }

    /// Takes the answer to the pending action and gives the next action. The
    /// new state and the action are those of [`State::step`]: the function is
    /// total, and an event that does not answer the pending action fails the
    /// run with `UnexpectedEvent`.
    pub fn step(&mut self, event: Event) -> (action: Action)
        requires
            old(self).wf(),
        ensures
            final(self).wf(),
            (final(self)@, action@) == old(self)@.step(event@),
    {
        if self.is_done() {
            return Action::Done;
        }
        match event {
            Event::Listed(names) => match &self.phase {
                Phase::Listing => {
                    self.names = names;
                    self.cursor = 0;
                    self.proceed()
                },
                _ => self.fail(ArchiveError::UnexpectedEvent),
            },
            Event::Inspected(kind) => match &self.phase {
                Phase::Inspecting => match kind {
                    EntryKind::Directory => {
                        let name = self.child_name();
                        self.phase = Phase::BeginningDirectory;
                        self.ops = Ghost(
                            self.ops@.push(
                                SinkOp::BeginDirectory { name: name@, options: self.options },
                            ),
                        );
                        Action::BeginDirectory { name, options: self.options }
                    },
                    EntryKind::File => {
                        let path = self.child_path();
                        let mut buffer: Vec<u8> = Vec::new();
                        core::mem::swap(&mut self.scratch, &mut buffer);
                        self.phase = Phase::Reading;
                        Action::ReadFile { path, buffer }
                    },
                    EntryKind::Other => self.next_child(),
                },
                _ => self.fail(ArchiveError::UnexpectedEvent),
            },
            Event::Read(bytes) => match &self.phase {
                Phase::Reading => {
                    let name = self.child_name();
                    self.scratch = bytes;
                    self.phase = Phase::BeginningFile;
                    self.ops = Ghost(
                        self.ops@.push(SinkOp::BeginFile { name: name@, options: self.options }),
                    );
                    Action::BeginFile { name, options: self.options }
                },
                _ => self.fail(ArchiveError::UnexpectedEvent),
            },
            Event::FilesystemFailed(cause) => match &self.phase {
                Phase::Listing => self.fail(ArchiveError::Filesystem(cause)),
                Phase::Inspecting => self.fail(ArchiveError::Filesystem(cause)),
                Phase::Reading => self.fail(ArchiveError::Filesystem(cause)),
                _ => self.fail(ArchiveError::UnexpectedEvent),
            },
            Event::SinkSucceeded => match &self.phase {
                Phase::BeginningDirectory => {
                    let path = self.child_path();
                    let ghost pending = self.frontier.deep_view();
                    self.frontier.push(path);
                    proof {
                        assert(self.frontier.deep_view() =~= pending.push(old(self)@.child()));
                        let child = old(self)@.child();
                        let root = old(self)@.root;
                        assert(child.subrange(0, root.len() as int) =~= old(self)@.directory.subrange(
                            0,
                            root.len() as int,
                        ));
                    }
                    self.next_child()
                },
                Phase::BeginningFile => {
                    self.phase = Phase::Writing;
                    self.ops = Ghost(self.ops@.push(SinkOp::Write { bytes: self.scratch@ }));
                    Action::Write
                },
                Phase::Writing => {
                    self.scratch.clear();
                    self.next_child()
                },
                Phase::Finalizing => {
                    self.phase = Phase::Finished;
                    Action::Done
                },
                _ => self.fail(ArchiveError::UnexpectedEvent),
            },
            Event::SinkFailed(cause) => match &self.phase {
                Phase::BeginningDirectory => self.fail(ArchiveError::Sink(cause)),
                Phase::BeginningFile => self.fail(ArchiveError::Sink(cause)),
                Phase::Writing => self.fail(ArchiveError::Sink(cause)),
                Phase::Finalizing => self.fail(ArchiveError::Sink(cause)),
                _ => self.fail(ArchiveError::UnexpectedEvent),
            },
        }
    }
}

} // verus!
