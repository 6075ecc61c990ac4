//! Archiving into memory: a traversal joined to a zip writer.
//!
//! An [`Archiver`] drives a [`Traversal`] and performs every action on the
//! archive writer itself, with the `zip` crate. Its caller is left with the
//! file system: it lists, inspects and reads, and hands the answers in.

use vstd::prelude::*;
use crate::error::ArchiveError;
use crate::options::{CompressionMethod, Options};
use crate::traversal::{Action, ActionView, Event, EventView, Phase, SinkOp, State, Traversal};

verus! {

/// A `zip::ZipWriter` over a `std::io::Cursor<Vec<u8>>`, which builds its
/// archive in memory. Nothing inside it is visible to contracts: they know a
/// writer by the operations it has carried out, [`written`], and by whether
/// it is [`intact`]. The `zip` crate finalizes a writer that is dropped; file
/// entries are begun with its large-file setting, under which no size of an
/// entry makes it give up half-way, so that a dropped writer finalizes from a
/// state that the crate has left in order.
#[verifier::external_body]
pub struct MemoryZipWriter {
    inner: zip::ZipWriter<std::io::Cursor<Vec<u8>>>,
}

/// The operations that `writer` has carried out since it was made, oldest
/// first: the entries begun with their names and options, and the bytes
/// taken. An operation counts where the call returned `Ok`.
pub uninterp spec fn written(writer: MemoryZipWriter) -> Seq<SinkOp>;

/// No call on `writer` has failed and it has not finalized: it is as the
/// `zip` crate leaves a writer after the operations of [`written`] and
/// nothing else.
pub uninterp spec fn intact(writer: MemoryZipWriter) -> bool;

/// Whether the `zip` crate refuses the operation `op` on an intact writer
/// that has carried out `ops`. The destination is memory, so nothing but the
/// operations decides.
pub uninterp spec fn refused(ops: Seq<SinkOp>, op: SinkOp) -> bool;

/// The bytes of the archive that the `zip` crate makes of the operations
/// `ops` when an intact writer that has carried out these finalizes. Every
/// entry is begun with the same fixed modification time, so that names,
/// options and bytes are all that the archive depends on.
pub uninterp spec fn encoded(ops: Seq<SinkOp>) -> Seq<u8>;

/// `zip::ZipWriter::new` on an empty in-memory destination: the writer is
/// intact and has carried out nothing yet.
#[verifier::external_body]
fn writer_new() -> (writer: MemoryZipWriter)
    ensures
        intact(writer),
        written(writer) == Seq::<SinkOp>::empty(),
{
    MemoryZipWriter { inner: zip::ZipWriter::new(std::io::Cursor::new(Vec::new())) }
}

/// `zip::ZipWriter::start_file`, with `FileOptions` made of the compression
/// method that `options` names, the modification time `DateTime::default()`
/// and the large-file setting given. Without that setting the crate gives up
/// on an entry whose compressed size passes 32 bits and leaves the writer in
/// a state in which dropping it can panic, so the setting is required. The
/// call fails exactly where the crate refuses the operation after those
/// carried out; where it succeeds, the writer is intact and has begun the
/// file entry `name` after them.
#[verifier::external_body]
fn writer_start_file(
    writer: &mut MemoryZipWriter,
    name: &str,
    options: Options,
    large_file: bool,
) -> (outcome: Result<(), zip::result::ZipError>)
    requires
        intact(*old(writer)),
        large_file,
    ensures
        outcome is Err <==> refused(
            written(*old(writer)),
            SinkOp::BeginFile { name: name@, options },
        ),
        outcome is Ok ==> intact(*final(writer)) && written(*final(writer)) == written(
            *old(writer),
        ).push(SinkOp::BeginFile { name: name@, options }),
{
    writer.inner.start_file(
        name,
        zip::write::FileOptions::default().compression_method(
            match options.compression_method {
                CompressionMethod::Stored => zip::CompressionMethod::Stored,
                CompressionMethod::Deflated => zip::CompressionMethod::Deflated,
            },
        ).last_modified_time(zip::DateTime::default()).large_file(large_file),
    )
}

/// `zip::ZipWriter::add_directory`, with `FileOptions` made of the
/// compression method that `options` names and the modification time
/// `DateTime::default()`. The call fails exactly where the crate refuses the
/// operation after those carried out; where it succeeds, the writer is intact
/// and has begun the directory entry `name` after them.
#[verifier::external_body]
fn writer_add_directory(writer: &mut MemoryZipWriter, name: &str, options: Options) -> (outcome:
    Result<(), zip::result::ZipError>)
    requires
        intact(*old(writer)),
    ensures
        outcome is Err <==> refused(
            written(*old(writer)),
            SinkOp::BeginDirectory { name: name@, options },
        ),
        outcome is Ok ==> intact(*final(writer)) && written(*final(writer)) == written(
            *old(writer),
        ).push(SinkOp::BeginDirectory { name: name@, options }),
{
    writer.inner.add_directory(
        name,
        zip::write::FileOptions::default().compression_method(
            match options.compression_method {
                CompressionMethod::Stored => zip::CompressionMethod::Stored,
                CompressionMethod::Deflated => zip::CompressionMethod::Deflated,
            },
        ).last_modified_time(zip::DateTime::default()),
    )
}

/// `std::io::Write::write_all` on the `zip::ZipWriter`, with the error turned
/// into a `ZipError`. The call fails exactly where the crate refuses the
/// operation after those carried out; where it succeeds, the writer is intact
/// and has taken all of `bytes` after them.
#[verifier::external_body]
fn writer_write_all(writer: &mut MemoryZipWriter, bytes: &Vec<u8>) -> (outcome: Result<
    (),
    zip::result::ZipError,
>)
    requires
        intact(*old(writer)),
    ensures
        outcome is Err <==> refused(written(*old(writer)), SinkOp::Write { bytes: bytes@ }),
        outcome is Ok ==> intact(*final(writer)) && written(*final(writer)) == written(
            *old(writer),
        ).push(SinkOp::Write { bytes: bytes@ }),
{
    std::io::Write::write_all(&mut writer.inner, bytes).map_err(zip::result::ZipError::Io)
}

/// `zip::ZipWriter::finish`, which hands back the destination; the bytes
/// written to it are taken out. The call fails exactly where the crate
/// refuses to finalize after the operations carried out; where it succeeds,
/// the bytes are those that the crate makes of these operations. Nothing is
/// claimed of the writer afterwards.
#[verifier::external_body]
fn writer_finish(writer: &mut MemoryZipWriter) -> (outcome: Result<Vec<u8>, zip::result::ZipError>)
    requires
        intact(*old(writer)),
    ensures
        outcome is Err <==> refused(written(*old(writer)), SinkOp::Finalize),
        outcome matches Ok(bytes) ==> bytes@ == encoded(written(*old(writer))),
{
    writer.inner.finish().map(|destination| destination.into_inner())
}

impl MemoryZipWriter {
    /// An intact writer with an empty destination, which has carried out
    /// nothing.
    pub fn new() -> (writer: MemoryZipWriter)
        ensures
            intact(writer),
            written(writer) == Seq::<SinkOp>::empty(),
    {
        writer_new()
    }
}

/// How many more operations on the writer may follow before the traversal
/// turns to the file system again or ends.
pub open spec fn sink_rank(phase: Phase) -> nat {
    match phase {
        Phase::BeginningFile => 3,
        Phase::Writing => 2,
        Phase::BeginningDirectory => 2,
        Phase::Finalizing => 1,
        _ => 0,
    }
}

/// The state and action reached from `state` when the writer does all that is
/// asked of it: the first state that waits for the file system, or the end of
/// the run.
pub open spec fn settle(state: State, action: ActionView) -> (State, ActionView)
    decreases sink_rank(state.phase),
{
    if state.phase.awaits_sink() {
        let next = state.step(EventView::SinkSucceeded);
        settle(next.0, next.1)
    } else {
        (state, action)
    }
}

/// `end` is the state and action that a run reaches from `state` with a
/// writer that had carried out `prior` before the run: the writer is asked
/// one operation after the other until the traversal turns to the file system
/// again or ends. Where the writer refuses the operation asked, the run ends
/// there, failed with the writer's error; where it does not, the run goes on.
pub open spec fn carried_to(
    prior: Seq<SinkOp>,
    state: State,
    action: ActionView,
    end: (State, ActionView),
) -> bool
    decreases sink_rank(state.phase),
{
    if state.phase.awaits_sink() {
        if refused(prior + state.ops.drop_last(), state.ops.last()) {
            exists|cause: zip::result::ZipError|
                end == state.step(EventView::SinkFailed(cause))
        } else {
            let next = state.step(EventView::SinkSucceeded);
            carried_to(prior, next.0, next.1, end)
        }
    } else {
        end == (state, action)
    }
}

/// One archiving run into memory.
pub struct Archiver {
    traversal: Traversal,
    writer: MemoryZipWriter,
    archive: Option<Vec<u8>>,
    prior: Ghost<Seq<SinkOp>>,
}

impl View for Archiver {
    type V = State;

    closed spec fn view(&self) -> State {
        self.traversal@
    }
}

impl Archiver {
    /// The bytes of the finalized archive, once there are any.
    pub closed spec fn archive(&self) -> Option<Seq<u8>> {
        match self.archive {
            Some(bytes) => Some(bytes@),
            None => None,
        }
    }

    /// What the writer had carried out before the run began.
    pub closed spec fn prior(&self) -> Seq<SinkOp> {
        self.prior@
    }

    /// The writer that the run archives into.
    pub closed spec fn writer(&self) -> MemoryZipWriter {
        self.writer
    }

    /// What holds of every run between two calls: the traversal is well
    /// formed and waits for the file system or has ended; unless the writer
    /// has refused an operation or has finalized, it is intact and has
    /// carried out what it had before the run and the operations of the run,
    /// nothing else; and there is an archive exactly when the run has
    /// finished: the one that the `zip` crate makes of all operations before
    /// the finalization.
    pub open spec fn wf(&self) -> bool {
        &&& self@.wf()
        &&& !self@.phase.awaits_sink()
        &&& !(self@.phase.failed_by_sink() || self@.phase is Finished) ==> intact(self.writer())
            && written(self.writer()) == self.prior() + self@.ops
        &&& self.archive() == if self@.phase is Finished {
            Some(encoded(self.prior() + self@.ops.drop_last()))
        } else {
            None
        }
    }

    /// Takes the answer of the file system to the pending action, performs on
    /// the writer whatever the traversal then asks of it, and gives the next
    /// action on the file system, or `Done`.
    ///
    /// State and action are those that [`carried_to`] gives after the step on
    /// `event`: the run fails by the writer exactly where the writer refuses
    /// the operation asked, and goes on otherwise. So when the writer does
    /// all that is asked, state and action are those of [`settle`]; when it
    /// refuses an operation, the operations asked are those up to the one
    /// refused. Where the step asks nothing of the writer, no call is made on
    /// it.
    pub fn advance(&mut self, event: Event) -> (action: Action)
        requires
            old(self).wf(),
        ensures
            final(self).wf(),
            final(self).prior() == old(self).prior(),
            final(self)@.pending(action@),
            carried_to(
                old(self).prior(),
                old(self)@.step(event@).0,
                old(self)@.step(event@).1,
                (final(self)@, action@),
            ),
            !old(self)@.step(event@).0.phase.awaits_sink() ==> final(self).writer() == old(
                self,
            ).writer(),
            ({
                let stepped = old(self)@.step(event@);
                let settled = settle(stepped.0, stepped.1);
                ||| (final(self)@, action@) == settled
                ||| {
                    &&& final(self)@.phase.failed_by_sink()
                    &&& stepped.0.phase.awaits_sink()
                    &&& stepped.0.ops.is_prefix_of(final(self)@.ops)
                    &&& final(self)@.ops.is_prefix_of(settled.0.ops)
                }
            }),
    {
        let mut action = self.traversal.step(event);
        let ghost stepped = (self.traversal@, action@);
        let ghost settled = settle(stepped.0, stepped.1);
        proof {
            old(self)@.lemma_step_pending(event@);
            old(self)@.lemma_step_asks_once(event@);
            lemma_settle_extends_ops(stepped.0, stepped.1);
            assert(stepped.0.ops.is_prefix_of(stepped.0.ops));
        }
        while !self.traversal.awaits_filesystem_or_done()
            invariant
                stepped == old(self)@.step(event@),
                settled == settle(stepped.0, stepped.1),
                self.prior == old(self).prior,
                self.traversal.wf(),
                self.traversal@.pending(action@),
                self.archive() == if self.traversal@.phase is Finished {
                    Some(encoded(self.prior@ + self.traversal@.ops.drop_last()))
                } else {
                    None
                },
                !(self.traversal@.phase.failed_by_sink() || self.traversal@.phase is Finished
                    || self.traversal@.phase.awaits_sink()) ==> intact(self.writer) && written(
                    self.writer,
                ) == self.prior@ + self.traversal@.ops,
                self.traversal@.phase.awaits_sink() ==> intact(self.writer) && written(
                    self.writer,
                ) == self.prior@ + self.traversal@.ops.drop_last(),
                !stepped.0.phase.awaits_sink() ==> self.writer == old(self).writer,
                forall|end: (State, ActionView)|
                    #[trigger] carried_to(self.prior@, self.traversal@, action@, end)
                        ==> carried_to(self.prior@, stepped.0, stepped.1, end),
                stepped.0.phase.awaits_sink() || (self.traversal@, action@) == stepped,
                settle(self.traversal@, action@) == settled,
                stepped.0.ops.is_prefix_of(self.traversal@.ops),
                self.traversal@.ops.is_prefix_of(settled.0.ops),
            decreases sink_rank(self.traversal@.phase),
        {
            let ghost before = self.traversal@;
            let ghost asked = action@;
            let ghost carried = written(self.writer);
            let reply = match &action {
                Action::BeginDirectory { name, options } => writer_add_directory(
                    &mut self.writer,
                    name.as_str(),
                    *options,
                ),
                Action::BeginFile { name, options } => writer_start_file(
                    &mut self.writer,
                    name.as_str(),
                    *options,
                    true,
                ),
                Action::Write => writer_write_all(&mut self.writer, self.traversal.scratch()),
                _ => match writer_finish(&mut self.writer) {
                    Ok(bytes) => {
                        self.archive = Some(bytes);
                        Ok(())
                    },
                    Err(cause) => Err(cause),
                },
            };
            proof {
                before.lemma_step_pending(EventView::SinkSucceeded);
                before.lemma_step_extends_ops(EventView::SinkSucceeded);
                before.lemma_step_asks_once(EventView::SinkSucceeded);
                lemma_settle_extends_ops(
                    before.step(EventView::SinkSucceeded).0,
                    before.step(EventView::SinkSucceeded).1,
                );
                lemma_prefix_transitive(
                    stepped.0.ops,
                    before.ops,
                    before.step(EventView::SinkSucceeded).0.ops,
                );
                assert(carried.push(before.ops.last()) =~= self.prior@ + before.ops);
            }
            match reply {
                Ok(()) => {
                    action = self.traversal.step(Event::SinkSucceeded);
                    assert forall|end: (State, ActionView)| #[trigger]
                        carried_to(self.prior@, self.traversal@, action@, end) implies carried_to(
                        self.prior@,
                        stepped.0,
                        stepped.1,
                        end,
                    ) by {
                        assert(carried_to(self.prior@, before, asked, end));
                    }
                },
                Err(cause) => {
                    proof {
                        before.lemma_step_pending(EventView::SinkFailed(cause));
                    }
                    action = self.traversal.step(Event::SinkFailed(cause));
                    assert(carried_to(self.prior@, before, asked, (self.traversal@, action@)));
                    return action;
                },
            }
        }
        assert(carried_to(self.prior@, self.traversal@, action@, (self.traversal@, action@)));
        action
    }

    /// Ends the run: `Some(Ok(bytes))` with the finalized archive,
    /// `Some(Err(..))` with the first failure, `None` while the run is still
    /// under way.
    pub fn into_archive(self) -> (result: Option<Result<Vec<u8>, ArchiveError>>)
        requires
            self.wf(),
        ensures
            match self@.phase {
                Phase::Finished => result matches Some(Ok(bytes)) && bytes@ == encoded(
                    self.prior() + self@.ops.drop_last(),
                ),
                Phase::Failed(error) => result == Some(Err::<Vec<u8>, ArchiveError>(error)),
                _ => result is None,
            },
    {
        match self.archive {
            Some(bytes) => Some(Ok(bytes)),
            None => match self.traversal.into_result() {
                Some(Err(error)) => Some(Err(error)),
                _ => None,
            },
        }
    }
}

/// Directory archiving for an archive writer: the writer becomes the
/// destination of one archiving run.
pub trait ZipWriterExtensions: Sized {
    /// The writer can take a run: no call on it has failed and it has not
    /// finalized.
    spec fn ready(&self) -> bool;

    /// The operations that the writer has carried out.
    spec fn carried(&self) -> Seq<SinkOp>;

    /// Starts a run that archives `directory` into this writer with the
    /// default configuration, in which entries are stored without
    /// compression. The run starts as one with that configuration named
    /// explicitly does.
    fn create_from_directory(self, directory: Vec<String>) -> (started: (Archiver, Action))
        requires
            self.ready(),
        ensures
            started.0.wf(),
            started.0.prior() == self.carried(),
            (started.0@, started.1@) == State::initial(
                directory.deep_view(),
                Options::stored_spec(),
            ),
    ;

    /// Starts a run that archives `directory` into this writer and applies
    /// `options` to every entry. The first action asks for the listing of
    /// `directory`; nothing has been asked of the writer yet.
    fn create_from_directory_with_options(self, directory: Vec<String>, options: Options) -> (started:
        (Archiver, Action))
        requires
            self.ready(),
        ensures
            started.0.wf(),
            started.0.prior() == self.carried(),
            (started.0@, started.1@) == State::initial(directory.deep_view(), options),
    ;
}

impl ZipWriterExtensions for MemoryZipWriter {
    open spec fn ready(&self) -> bool {
        intact(*self)
    }

    open spec fn carried(&self) -> Seq<SinkOp> {
        written(*self)
    }

    fn create_from_directory(self, directory: Vec<String>) -> (started: (Archiver, Action))
        ensures
            started.0.writer() == self,
    {
        self.create_from_directory_with_options(directory, Options::stored())
    }

    fn create_from_directory_with_options(self, directory: Vec<String>, options: Options) -> (started:
        (Archiver, Action))
        ensures
            started.0.writer() == self,
    {
        let (traversal, first) = Traversal::new(directory, options);
        proof {
            assert(written(self) + traversal@.ops =~= written(self));
        }
        (
            Archiver { traversal, writer: self, archive: None, prior: Ghost(written(self)) },
            first,
        )
    }
}

/// Starts a run that archives `directory` into a new in-memory archive with
/// the default configuration: entries are stored without compression. The
/// run starts as [`zip_create_from_directory_with_options`] starts one with
/// the stored configuration.
pub fn zip_create_from_directory(directory: Vec<String>) -> (started: (Archiver, Action))
    ensures
        started.0.wf(),
        started.0.prior() == Seq::<SinkOp>::empty(),
        written(started.0.writer()) == Seq::<SinkOp>::empty(),
        (started.0@, started.1@) == State::initial(directory.deep_view(), Options::stored_spec()),
{
    MemoryZipWriter::new().create_from_directory(directory)
}

/// Starts a run that archives `directory` into a new in-memory archive and
/// applies `options` to every entry.
pub fn zip_create_from_directory_with_options(directory: Vec<String>, options: Options) -> (started:
    (Archiver, Action))
    ensures
        started.0.wf(),
        started.0.prior() == Seq::<SinkOp>::empty(),
        written(started.0.writer()) == Seq::<SinkOp>::empty(),
        (started.0@, started.1@) == State::initial(directory.deep_view(), options),
{
    MemoryZipWriter::new().create_from_directory_with_options(directory, options)
}

/// A prefix of a prefix is a prefix.
proof fn lemma_prefix_transitive<A>(a: Seq<A>, b: Seq<A>, c: Seq<A>)
    requires
        a.is_prefix_of(b),
        b.is_prefix_of(c),
    ensures
        a.is_prefix_of(c),
{
    assert(a =~= c.subrange(0, a.len() as int)) by {
        assert(b =~= c.subrange(0, b.len() as int));
        assert(a =~= b.subrange(0, a.len() as int));
    }
}

/// The operations asked after the writer did all that was asked extend those
/// asked before.
pub proof fn lemma_settle_extends_ops(state: State, action: ActionView)
    ensures
        state.ops.is_prefix_of(settle(state, action).0.ops),
    decreases sink_rank(state.phase),
{
    if state.phase.awaits_sink() {
        let next = state.step(EventView::SinkSucceeded);
        state.lemma_step_extends_ops(EventView::SinkSucceeded);
        lemma_settle_extends_ops(next.0, next.1);
        lemma_prefix_transitive(state.ops, next.0.ops, settle(next.0, next.1).0.ops);
    } else {
        assert(state.ops.subrange(0, state.ops.len() as int) =~= state.ops);
    }
}

} // verus!
