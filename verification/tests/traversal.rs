use dir_archive::error::ArchiveError;
use dir_archive::options::{CompressionMethod, Options};
use dir_archive::traversal::{Action, EntryKind, Event, Traversal};

fn segments(parts: &[&str]) -> Vec<String> {
    parts.iter().map(|part| part.to_string()).collect()
}

fn names(parts: &[&str]) -> Event {
    Event::Listed(segments(parts))
}

fn io_failure() -> std::io::Error {
    std::io::Error::new(std::io::ErrorKind::PermissionDenied, "denied")
}

#[test]
fn run_starts_with_the_listing_of_the_root() {
    let (traversal, first) = Traversal::new(segments(&["tmp", "root"]), Options::stored());
    assert_eq!(first, Action::ListDirectory { path: segments(&["tmp", "root"]) });
    assert!(!traversal.is_done());
    assert_eq!(traversal.options(), Options::stored());
    assert!(traversal.scratch().is_empty());
    assert!(traversal.into_result().is_none());
}

#[test]
fn empty_root_is_finalized_at_once() {
    let (mut traversal, _) = Traversal::new(segments(&["root"]), Options::stored());
    assert_eq!(traversal.step(names(&[])), Action::Finalize);
    assert!(!traversal.is_done());
    assert_eq!(traversal.step(Event::SinkSucceeded), Action::Done);
    assert!(traversal.is_done());
    assert!(matches!(traversal.into_result(), Some(Ok(()))));
}

#[test]
fn missing_root_fails_with_a_filesystem_error() {
    let (mut traversal, first) = Traversal::new(segments(&["nowhere"]), Options::stored());
    assert_eq!(first, Action::ListDirectory { path: segments(&["nowhere"]) });
    let action = traversal.step(Event::FilesystemFailed(std::io::Error::new(
        std::io::ErrorKind::NotFound,
        "gone",
    )));
    assert_eq!(action, Action::Done);
    assert!(traversal.is_done());
    match traversal.into_result() {
        Some(Err(ArchiveError::Filesystem(cause))) => {
            assert_eq!(cause.kind(), std::io::ErrorKind::NotFound)
        }
        other => panic!("unexpected result: {:?}", other),
    }
}

#[test]
fn file_is_read_then_begun_then_written() {
    let options = Options::with_compression_method(CompressionMethod::Deflated);
    let (mut traversal, _) = Traversal::new(segments(&["root"]), options);
    assert_eq!(
        traversal.step(names(&["file1.txt"])),
        Action::Inspect { path: segments(&["root", "file1.txt"]) }
    );
    let action = traversal.step(Event::Inspected(EntryKind::File));
    assert_eq!(
        action,
        Action::ReadFile { path: segments(&["root", "file1.txt"]), buffer: Vec::new() }
    );
    assert_eq!(
        traversal.step(Event::Read(b"hello".to_vec())),
        Action::BeginFile { name: "file1.txt".to_string(), options }
    );
    assert_eq!(traversal.scratch(), &b"hello".to_vec());
    assert_eq!(traversal.step(Event::SinkSucceeded), Action::Write);
    assert_eq!(traversal.scratch(), &b"hello".to_vec());
    assert_eq!(traversal.step(Event::SinkSucceeded), Action::Finalize);
    assert!(traversal.scratch().is_empty());
    assert_eq!(traversal.step(Event::SinkSucceeded), Action::Done);
    assert!(matches!(traversal.into_result(), Some(Ok(()))));
}

#[test]
fn directory_is_begun_then_listed_after_its_siblings() {
    let options = Options::stored();
    let (mut traversal, _) = Traversal::new(segments(&["r"]), options);
    assert_eq!(
        traversal.step(names(&["sub", "file1.txt"])),
        Action::Inspect { path: segments(&["r", "sub"]) }
    );
    assert_eq!(
        traversal.step(Event::Inspected(EntryKind::Directory)),
        Action::BeginDirectory { name: "sub".to_string(), options }
    );
    assert_eq!(
        traversal.step(Event::SinkSucceeded),
        Action::Inspect { path: segments(&["r", "file1.txt"]) }
    );
    assert_eq!(
        traversal.step(Event::Inspected(EntryKind::File)),
        Action::ReadFile { path: segments(&["r", "file1.txt"]), buffer: Vec::new() }
    );
    assert_eq!(
        traversal.step(Event::Read(b"hello".to_vec())),
        Action::BeginFile { name: "file1.txt".to_string(), options }
    );
    assert_eq!(traversal.step(Event::SinkSucceeded), Action::Write);
    assert_eq!(
        traversal.step(Event::SinkSucceeded),
        Action::ListDirectory { path: segments(&["r", "sub"]) }
    );
    assert_eq!(
        traversal.step(names(&["file2.txt"])),
        Action::Inspect { path: segments(&["r", "sub", "file2.txt"]) }
    );
    assert_eq!(
        traversal.step(Event::Inspected(EntryKind::File)),
        Action::ReadFile { path: segments(&["r", "sub", "file2.txt"]), buffer: Vec::new() }
    );
    assert_eq!(
        traversal.step(Event::Read(b"world".to_vec())),
        Action::BeginFile { name: "sub/file2.txt".to_string(), options }
    );
    assert_eq!(traversal.step(Event::SinkSucceeded), Action::Write);
    assert_eq!(traversal.scratch(), &b"world".to_vec());
    assert_eq!(traversal.step(Event::SinkSucceeded), Action::Finalize);
    assert_eq!(traversal.step(Event::SinkSucceeded), Action::Done);
    assert!(matches!(traversal.into_result(), Some(Ok(()))));
}

#[test]
fn directory_found_last_is_listed_first() {
    let (mut traversal, _) = Traversal::new(segments(&["r"]), Options::stored());
    traversal.step(names(&["a", "b"]));
    traversal.step(Event::Inspected(EntryKind::Directory));
    assert_eq!(traversal.step(Event::SinkSucceeded), Action::Inspect { path: segments(&["r", "b"]) });
    traversal.step(Event::Inspected(EntryKind::Directory));
    assert_eq!(
        traversal.step(Event::SinkSucceeded),
        Action::ListDirectory { path: segments(&["r", "b"]) }
    );
    assert_eq!(traversal.step(names(&[])), Action::ListDirectory { path: segments(&["r", "a"]) });
    assert_eq!(traversal.step(names(&[])), Action::Finalize);
}

#[test]
fn other_kinds_are_skipped() {
    let (mut traversal, _) = Traversal::new(segments(&["r"]), Options::stored());
    assert_eq!(
        traversal.step(names(&["socket", "fifo"])),
        Action::Inspect { path: segments(&["r", "socket"]) }
    );
    assert_eq!(
        traversal.step(Event::Inspected(EntryKind::Other)),
        Action::Inspect { path: segments(&["r", "fifo"]) }
    );
    assert_eq!(traversal.step(Event::Inspected(EntryKind::Other)), Action::Finalize);
    assert_eq!(traversal.step(Event::SinkSucceeded), Action::Done);
    assert!(matches!(traversal.into_result(), Some(Ok(()))));
}

#[test]
fn scratch_buffer_is_handed_out_empty_for_every_file() {
    let (mut traversal, _) = Traversal::new(segments(&["r"]), Options::stored());
    traversal.step(names(&["a", "b"]));
    let buffer = match traversal.step(Event::Inspected(EntryKind::File)) {
        Action::ReadFile { mut buffer, .. } => {
            assert!(buffer.is_empty());
            buffer.extend_from_slice(b"first file");
            buffer
        }
        other => panic!("unexpected action: {:?}", other),
    };
    traversal.step(Event::Read(buffer));
    traversal.step(Event::SinkSucceeded);
    assert_eq!(traversal.step(Event::SinkSucceeded), Action::Inspect { path: segments(&["r", "b"]) });
    match traversal.step(Event::Inspected(EntryKind::File)) {
        Action::ReadFile { path, buffer } => {
            assert_eq!(path, segments(&["r", "b"]));
            assert!(buffer.is_empty());
            assert!(buffer.capacity() >= 10);
        }
        other => panic!("unexpected action: {:?}", other),
    }
}

#[test]
fn unreadable_file_fails_the_run() {
    let (mut traversal, _) = Traversal::new(segments(&["r"]), Options::stored());
    traversal.step(names(&["a", "b"]));
    traversal.step(Event::Inspected(EntryKind::File));
    assert_eq!(traversal.step(Event::FilesystemFailed(io_failure())), Action::Done);
    assert_eq!(traversal.step(names(&["late"])), Action::Done);
    match traversal.into_result() {
        Some(Err(ArchiveError::Filesystem(cause))) => {
            assert_eq!(cause.kind(), std::io::ErrorKind::PermissionDenied)
        }
        other => panic!("unexpected result: {:?}", other),
    }
}

#[test]
fn vanished_entry_fails_the_run_at_inspection() {
    let (mut traversal, _) = Traversal::new(segments(&["r"]), Options::stored());
    traversal.step(names(&["a"]));
    assert_eq!(traversal.step(Event::FilesystemFailed(io_failure())), Action::Done);
    assert!(matches!(traversal.into_result(), Some(Err(ArchiveError::Filesystem(_)))));
}

#[test]
fn refused_entry_fails_the_run_with_the_writer_error() {
    let (mut traversal, _) = Traversal::new(segments(&["r"]), Options::stored());
    traversal.step(names(&["sub", "later"]));
    traversal.step(Event::Inspected(EntryKind::Directory));
    let action = traversal.step(Event::SinkFailed(zip::result::ZipError::UnsupportedArchive("full")));
    assert_eq!(action, Action::Done);
    assert!(traversal.is_done());
    match traversal.into_result() {
        Some(Err(ArchiveError::Sink(zip::result::ZipError::UnsupportedArchive(reason)))) => {
            assert_eq!(reason, "full")
        }
        other => panic!("unexpected result: {:?}", other),
    }
}

#[test]
fn refused_write_fails_the_run() {
    let (mut traversal, _) = Traversal::new(segments(&["r"]), Options::stored());
    traversal.step(names(&["a"]));
    traversal.step(Event::Inspected(EntryKind::File));
    traversal.step(Event::Read(b"abc".to_vec()));
    assert_eq!(traversal.step(Event::SinkSucceeded), Action::Write);
    let action = traversal.step(Event::SinkFailed(zip::result::ZipError::Io(io_failure())));
    assert_eq!(action, Action::Done);
    assert!(matches!(
        traversal.into_result(),
        Some(Err(ArchiveError::Sink(zip::result::ZipError::Io(_))))
    ));
}

#[test]
fn refused_finalization_fails_the_run() {
    let (mut traversal, _) = Traversal::new(segments(&["r"]), Options::stored());
    assert_eq!(traversal.step(names(&[])), Action::Finalize);
    traversal.step(Event::SinkFailed(zip::result::ZipError::FileNotFound));
    assert!(matches!(
        traversal.into_result(),
        Some(Err(ArchiveError::Sink(zip::result::ZipError::FileNotFound)))
    ));
}

#[test]
fn event_out_of_turn_fails_the_run() {
    let (mut traversal, _) = Traversal::new(segments(&["r"]), Options::stored());
    assert_eq!(traversal.step(Event::SinkSucceeded), Action::Done);
    assert!(matches!(traversal.into_result(), Some(Err(ArchiveError::UnexpectedEvent))));

    let (mut traversal, _) = Traversal::new(segments(&["r"]), Options::stored());
    traversal.step(names(&["a"]));
    assert_eq!(traversal.step(names(&["b"])), Action::Done);
    assert!(matches!(traversal.into_result(), Some(Err(ArchiveError::UnexpectedEvent))));

    let (mut traversal, _) = Traversal::new(segments(&["r"]), Options::stored());
    assert_eq!(traversal.step(names(&[])), Action::Finalize);
    assert_eq!(traversal.step(Event::FilesystemFailed(io_failure())), Action::Done);
    assert!(matches!(traversal.into_result(), Some(Err(ArchiveError::UnexpectedEvent))));
}

#[test]
fn finished_run_stays_finished() {
    let (mut traversal, _) = Traversal::new(segments(&["r"]), Options::stored());
    traversal.step(names(&[]));
    traversal.step(Event::SinkSucceeded);
    assert_eq!(traversal.step(Event::SinkFailed(zip::result::ZipError::FileNotFound)), Action::Done);
    assert_eq!(traversal.step(Event::FilesystemFailed(io_failure())), Action::Done);
    assert!(matches!(traversal.into_result(), Some(Ok(()))));
}

#[test]
fn pending_actions_tell_which_side_is_asked() {
    let (mut traversal, _) = Traversal::new(segments(&["r"]), Options::stored());
    assert!(traversal.awaits_filesystem_or_done());
    traversal.step(names(&["d"]));
    assert!(traversal.awaits_filesystem_or_done());
    traversal.step(Event::Inspected(EntryKind::Directory));
    assert!(!traversal.awaits_filesystem_or_done());
    traversal.step(Event::SinkSucceeded);
    assert!(traversal.awaits_filesystem_or_done());
    traversal.step(names(&[]));
    assert!(!traversal.awaits_filesystem_or_done());
    traversal.step(Event::SinkSucceeded);
    assert!(traversal.awaits_filesystem_or_done());
    assert!(traversal.is_done());
}
