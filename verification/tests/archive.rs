use std::collections::BTreeMap;
use std::io::{Cursor, Read};

use dir_archive::error::ArchiveError;
use dir_archive::options::{CompressionMethod, Options};
use dir_archive::traversal::{Action, EntryKind, Event};
use dir_archive::write::{
    zip_create_from_directory, zip_create_from_directory_with_options, Archiver, MemoryZipWriter,
    ZipWriterExtensions,
};

enum Node {
    File(Vec<u8>),
    Directory(Vec<String>),
    Other,
}

fn path(segments: &[&str]) -> Vec<String> {
    segments.iter().map(|segment| segment.to_string()).collect()
}

fn missing() -> std::io::Error {
    std::io::Error::new(std::io::ErrorKind::NotFound, "no such entry")
}

fn answer(tree: &BTreeMap<Vec<String>, Node>, action: Action) -> Option<Event> {
    match action {
        Action::ListDirectory { path } => Some(match tree.get(&path) {
            Some(Node::Directory(names)) => Event::Listed(names.clone()),
            _ => Event::FilesystemFailed(missing()),
        }),
        Action::Inspect { path } => Some(match tree.get(&path) {
            Some(Node::File(_)) => Event::Inspected(EntryKind::File),
            Some(Node::Directory(_)) => Event::Inspected(EntryKind::Directory),
            Some(Node::Other) => Event::Inspected(EntryKind::Other),
            None => Event::FilesystemFailed(missing()),
        }),
        Action::ReadFile { path, mut buffer } => Some(match tree.get(&path) {
            Some(Node::File(contents)) => {
                buffer.extend_from_slice(contents);
                Event::Read(buffer)
            }
            _ => Event::FilesystemFailed(missing()),
        }),
        Action::Done => None,
        other => panic!("the archiver left an action on the writer to its caller: {:?}", other),
    }
}

fn archive(
    tree: &BTreeMap<Vec<String>, Node>,
    started: (Archiver, Action),
) -> Option<Result<Vec<u8>, ArchiveError>> {
    let (mut archiver, mut action) = started;
    while let Some(event) = answer(tree, action) {
        action = archiver.advance(event);
    }
    archiver.into_archive()
}

fn entries(bytes: Vec<u8>) -> BTreeMap<String, (bool, Vec<u8>)> {
    let mut reader = zip::ZipArchive::new(Cursor::new(bytes)).unwrap();
    let mut found = BTreeMap::new();
    for index in 0..reader.len() {
        let mut file = reader.by_index(index).unwrap();
        let mut contents = Vec::new();
        file.read_to_end(&mut contents).unwrap();
        let previous = found.insert(file.name().to_string(), (file.is_dir(), contents));
        assert!(previous.is_none());
    }
    found
}

fn add_directory(tree: &mut BTreeMap<Vec<String>, Node>, at: &[&str], names: &[&str]) {
    tree.insert(path(at), Node::Directory(names.iter().map(|name| name.to_string()).collect()));
}

fn add_file(tree: &mut BTreeMap<Vec<String>, Node>, at: &[&str], contents: &[u8]) {
    tree.insert(path(at), Node::File(contents.to_vec()));
}

fn sample_tree() -> BTreeMap<Vec<String>, Node> {
    let mut tree = BTreeMap::new();
    add_directory(&mut tree, &["tmp", "root"], &["file1.txt", "sub"]);
    add_file(&mut tree, &["tmp", "root", "file1.txt"], b"hello");
    add_directory(&mut tree, &["tmp", "root", "sub"], &["file2.txt"]);
    add_file(&mut tree, &["tmp", "root", "sub", "file2.txt"], b"world");
    tree
}

fn deep_tree() -> BTreeMap<Vec<String>, Node> {
    let mut tree = BTreeMap::new();
    add_directory(&mut tree, &["r"], &["a", "b", "empty", "top.bin", "pipe"]);
    add_directory(&mut tree, &["r", "a"], &["x", "one.txt"]);
    add_directory(&mut tree, &["r", "a", "x"], &["y"]);
    add_directory(&mut tree, &["r", "a", "x", "y"], &["deep.txt", "r"]);
    add_file(&mut tree, &["r", "a", "x", "y", "deep.txt"], b"as deep as it gets");
    add_directory(&mut tree, &["r", "a", "x", "y", "r"], &[]);
    add_file(&mut tree, &["r", "a", "one.txt"], b"1");
    add_directory(&mut tree, &["r", "b"], &["two.txt", "blank"]);
    add_file(&mut tree, &["r", "b", "two.txt"], &[2u8; 5000]);
    add_file(&mut tree, &["r", "b", "blank"], b"");
    add_directory(&mut tree, &["r", "empty"], &[]);
    add_file(&mut tree, &["r", "top.bin"], &[0u8, 159, 255, 7]);
    tree.insert(path(&["r", "pipe"]), Node::Other);
    tree
}

fn expected(tree: &BTreeMap<Vec<String>, Node>, root: &[String]) -> BTreeMap<String, (bool, Vec<u8>)> {
    let mut found = BTreeMap::new();
    for (at, node) in tree {
        if at.len() > root.len() && at[..root.len()] == root[..] {
            let name = at[root.len()..].join("/");
            match node {
                Node::File(contents) => {
                    found.insert(name, (false, contents.clone()));
                }
                Node::Directory(_) => {
                    found.insert(name + "/", (true, Vec::new()));
                }
                Node::Other => {}
            }
        }
    }
    found
}

#[test]
fn archives_files_and_subdirectories() {
    let tree = sample_tree();
    let bytes = archive(&tree, zip_create_from_directory(path(&["tmp", "root"])))
        .unwrap()
        .unwrap();
    let found = entries(bytes);
    assert_eq!(found.len(), 3);
    assert_eq!(found["sub/"], (true, Vec::new()));
    assert_eq!(found["file1.txt"], (false, b"hello".to_vec()));
    assert_eq!(found["sub/file2.txt"], (false, b"world".to_vec()));
}

#[test]
fn default_configuration_equals_stored() {
    let tree = sample_tree();
    let by_default = archive(&tree, zip_create_from_directory(path(&["tmp", "root"])))
        .unwrap()
        .unwrap();
    let stored = archive(
        &tree,
        zip_create_from_directory_with_options(path(&["tmp", "root"]), Options::stored()),
    )
    .unwrap()
    .unwrap();
    assert_eq!(by_default, stored);
    assert_eq!(Options::default(), Options::stored());
    assert_eq!(Options::stored().compression_method, CompressionMethod::Stored);
}

#[test]
fn stored_entries_hold_the_bytes_as_they_are() {
    let tree = sample_tree();
    let bytes = archive(&tree, zip_create_from_directory(path(&["tmp", "root"])))
        .unwrap()
        .unwrap();
    let mut reader = zip::ZipArchive::new(Cursor::new(bytes.clone())).unwrap();
    for index in 0..reader.len() {
        let file = reader.by_index(index).unwrap();
        assert_eq!(file.compression(), zip::CompressionMethod::Stored);
        assert_eq!(file.compressed_size(), file.size());
    }
    assert!(bytes.windows(5).any(|window| window == b"hello"));
    assert!(bytes.windows(5).any(|window| window == b"world"));
}

#[test]
fn deflated_entries_read_back_the_same() {
    let tree = deep_tree();
    let options = Options::with_compression_method(CompressionMethod::Deflated);
    let bytes = archive(&tree, zip_create_from_directory_with_options(path(&["r"]), options))
        .unwrap()
        .unwrap();
    let mut reader = zip::ZipArchive::new(Cursor::new(bytes.clone())).unwrap();
    let big = reader.by_name("b/two.txt").unwrap();
    assert_eq!(big.compression(), zip::CompressionMethod::Deflated);
    assert_eq!(big.size(), 5000);
    assert!(big.compressed_size() < 5000);
    drop(big);
    assert_eq!(entries(bytes), expected(&tree, &path(&["r"])));
}

#[test]
fn empty_root_gives_a_valid_archive_without_entries() {
    let mut tree = BTreeMap::new();
    add_directory(&mut tree, &["empty"], &[]);
    let bytes = archive(&tree, zip_create_from_directory(path(&["empty"])))
        .unwrap()
        .unwrap();
    let reader = zip::ZipArchive::new(Cursor::new(bytes.clone())).unwrap();
    assert_eq!(reader.len(), 0);
    assert_eq!(bytes.len(), 22);
}

#[test]
fn missing_root_fails_and_leaves_no_archive() {
    let tree = BTreeMap::new();
    let (mut archiver, first) = zip_create_from_directory(path(&["nowhere"]));
    assert_eq!(first, Action::ListDirectory { path: path(&["nowhere"]) });
    let action = archiver.advance(answer(&tree, first).unwrap());
    assert_eq!(action, Action::Done);
    match archiver.into_archive() {
        Some(Err(ArchiveError::Filesystem(cause))) => {
            assert_eq!(cause.kind(), std::io::ErrorKind::NotFound)
        }
        other => panic!("unexpected result: {:?}", other.map(|result| result.map(|bytes| bytes.len()))),
    }
}

#[test]
fn root_that_is_a_file_fails() {
    let mut tree = BTreeMap::new();
    add_file(&mut tree, &["file"], b"not a directory");
    let result = archive(&tree, zip_create_from_directory(path(&["file"])));
    assert!(matches!(result, Some(Err(ArchiveError::Filesystem(_)))));
}

#[test]
fn every_entry_is_archived_exactly_once() {
    let tree = deep_tree();
    let bytes = archive(&tree, zip_create_from_directory(path(&["r"]))).unwrap().unwrap();
    let reader = zip::ZipArchive::new(Cursor::new(bytes.clone())).unwrap();
    assert_eq!(reader.len(), 11);
    let found = entries(bytes);
    assert_eq!(found.len(), 11);
    assert_eq!(found, expected(&tree, &path(&["r"])));
}

#[test]
fn round_trip_gives_back_paths_and_contents() {
    let tree = deep_tree();
    let found = entries(archive(&tree, zip_create_from_directory(path(&["r"]))).unwrap().unwrap());
    assert_eq!(found["a/x/y/deep.txt"], (false, b"as deep as it gets".to_vec()));
    assert_eq!(found["a/one.txt"], (false, b"1".to_vec()));
    assert_eq!(found["b/two.txt"], (false, vec![2u8; 5000]));
    assert_eq!(found["b/blank"], (false, Vec::new()));
    assert_eq!(found["top.bin"], (false, vec![0u8, 159, 255, 7]));
    assert_eq!(found["a/"], (true, Vec::new()));
    assert_eq!(found["a/x/"], (true, Vec::new()));
    assert_eq!(found["a/x/y/"], (true, Vec::new()));
    assert_eq!(found["a/x/y/r/"], (true, Vec::new()));
    assert_eq!(found["b/"], (true, Vec::new()));
    assert_eq!(found["empty/"], (true, Vec::new()));
    assert!(!found.contains_key("pipe"));
    assert!(!found.contains_key("pipe/"));
}

#[test]
fn entry_names_never_start_with_the_root() {
    let mut tree = BTreeMap::new();
    add_directory(&mut tree, &["/", "srv", "root"], &["a"]);
    add_directory(&mut tree, &["/", "srv", "root", "a"], &["b.txt"]);
    add_file(&mut tree, &["/", "srv", "root", "a", "b.txt"], b"b");
    let found =
        entries(archive(&tree, zip_create_from_directory(path(&["/", "srv", "root"]))).unwrap().unwrap());
    let names: Vec<&str> = found.keys().map(|name| name.as_str()).collect();
    assert_eq!(names, vec!["a/", "a/b.txt"]);
}

#[test]
fn failure_below_the_root_ends_the_run_without_an_archive() {
    let mut tree = BTreeMap::new();
    add_directory(&mut tree, &["r"], &["ok.txt", "lost.txt", "never.txt"]);
    add_file(&mut tree, &["r", "ok.txt"], b"ok");
    add_file(&mut tree, &["r", "never.txt"], b"never");
    let result = archive(&tree, zip_create_from_directory(path(&["r"])));
    assert!(matches!(result, Some(Err(ArchiveError::Filesystem(_)))));
}

#[test]
fn run_under_way_has_no_archive_yet() {
    let tree = sample_tree();
    let (mut archiver, first) = zip_create_from_directory(path(&["tmp", "root"]));
    let action = archiver.advance(answer(&tree, first).unwrap());
    assert_eq!(action, Action::Inspect { path: path(&["tmp", "root", "file1.txt"]) });
    assert!(archiver.into_archive().is_none());
}

#[test]
fn archiver_asks_only_for_the_file_system() {
    let tree = sample_tree();
    let (mut archiver, mut action) = zip_create_from_directory(path(&["tmp", "root"]));
    let mut asked = Vec::new();
    while let Some(event) = answer(&tree, action) {
        action = archiver.advance(event);
        asked.push(format!("{:?}", action));
    }
    assert_eq!(
        asked,
        vec![
            format!("{:?}", Action::Inspect { path: path(&["tmp", "root", "file1.txt"]) }),
            format!(
                "{:?}",
                Action::ReadFile { path: path(&["tmp", "root", "file1.txt"]), buffer: Vec::new() }
            ),
            format!("{:?}", Action::Inspect { path: path(&["tmp", "root", "sub"]) }),
            format!("{:?}", Action::ListDirectory { path: path(&["tmp", "root", "sub"]) }),
            format!("{:?}", Action::Inspect { path: path(&["tmp", "root", "sub", "file2.txt"]) }),
            format!(
                "{:?}",
                Action::ReadFile {
                    path: path(&["tmp", "root", "sub", "file2.txt"]),
                    buffer: Vec::new()
                }
            ),
            format!("{:?}", Action::Done),
        ]
    );
}

#[test]
fn event_for_the_writer_is_out_of_turn_for_the_archiver() {
    let (mut archiver, _) = zip_create_from_directory(path(&["r"]));
    assert_eq!(archiver.advance(Event::SinkSucceeded), Action::Done);
    assert!(matches!(archiver.into_archive(), Some(Err(ArchiveError::UnexpectedEvent))));
}

#[test]
fn writer_extension_starts_the_same_run() {
    let tree = sample_tree();
    let by_trait = archive(&tree, MemoryZipWriter::new().create_from_directory(path(&["tmp", "root"])))
        .unwrap()
        .unwrap();
    let by_function = archive(&tree, zip_create_from_directory(path(&["tmp", "root"])))
        .unwrap()
        .unwrap();
    assert_eq!(by_trait, by_function);
    let deflated = Options::with_compression_method(CompressionMethod::Deflated);
    let by_trait = archive(
        &tree,
        MemoryZipWriter::new().create_from_directory_with_options(path(&["tmp", "root"]), deflated),
    )
    .unwrap()
    .unwrap();
    let by_function =
        archive(&tree, zip_create_from_directory_with_options(path(&["tmp", "root"]), deflated))
            .unwrap()
            .unwrap();
    assert_eq!(by_trait, by_function);
    assert_eq!(entries(by_trait), expected(&tree, &path(&["tmp", "root"])));
}

#[test]
fn entry_names_are_pairwise_distinct() {
    let tree = deep_tree();
    let bytes = archive(&tree, zip_create_from_directory(path(&["r"]))).unwrap().unwrap();
    let mut reader = zip::ZipArchive::new(Cursor::new(bytes)).unwrap();
    let mut names = Vec::new();
    for index in 0..reader.len() {
        names.push(reader.by_index(index).unwrap().name().to_string());
    }
    for first in 0..names.len() {
        for second in first + 1..names.len() {
            assert_ne!(names[first], names[second]);
        }
    }
    assert_eq!(names.len(), 11);
}

#[test]
fn archive_of_a_subdirectory_is_the_renamed_part_of_the_archive_of_the_root() {
    let tree = deep_tree();
    let whole = entries(archive(&tree, zip_create_from_directory(path(&["r"]))).unwrap().unwrap());
    let part =
        entries(archive(&tree, zip_create_from_directory(path(&["r", "a"]))).unwrap().unwrap());
    assert_eq!(part.len(), 5);
    let mut renamed = BTreeMap::new();
    for (name, entry) in &whole {
        if name.starts_with("a/") && name != "a/" {
            renamed.insert(name["a/".len()..].to_string(), entry.clone());
        }
    }
    assert_eq!(part, renamed);
    let deeper = entries(
        archive(&tree, zip_create_from_directory(path(&["r", "a", "x"]))).unwrap().unwrap(),
    );
    assert_eq!(deeper.len(), 3);
    for (name, entry) in &deeper {
        assert_eq!(&whole[&format!("a/x/{}", name)], entry);
    }
}

#[test]
fn entries_carry_one_fixed_modification_time() {
    let tree = sample_tree();
    let bytes = archive(&tree, zip_create_from_directory(path(&["tmp", "root"])))
        .unwrap()
        .unwrap();
    let mut reader = zip::ZipArchive::new(Cursor::new(bytes)).unwrap();
    for index in 0..reader.len() {
        let file = reader.by_index(index).unwrap();
        let time = file.last_modified();
        assert_eq!((time.year(), time.month(), time.day()), (1980, 1, 1));
        assert_eq!((time.hour(), time.minute(), time.second()), (0, 0, 0));
    }
}

#[test]
fn same_run_gives_the_same_bytes() {
    let tree = deep_tree();
    let deflated = Options::with_compression_method(CompressionMethod::Deflated);
    let first = archive(&tree, zip_create_from_directory_with_options(path(&["r"]), deflated))
        .unwrap()
        .unwrap();
    let second = archive(&tree, zip_create_from_directory_with_options(path(&["r"]), deflated))
        .unwrap()
        .unwrap();
    assert_eq!(first, second);
}

#[test]
fn file_entries_are_begun_as_large_files() {
    let mut tree = BTreeMap::new();
    add_directory(&mut tree, &["r"], &["f", "d"]);
    add_file(&mut tree, &["r", "f"], b"x");
    add_directory(&mut tree, &["r", "d"], &[]);
    let bytes = archive(&tree, zip_create_from_directory(path(&["r"]))).unwrap().unwrap();
    // A local header is 30 bytes and the name; a file begun as a large file
    // carries 20 bytes of 64-bit sizes after it.
    assert_eq!(&bytes[0..4], b"PK\x03\x04");
    assert_eq!(u16::from_le_bytes([bytes[26], bytes[27]]), 1);
    assert_eq!(u16::from_le_bytes([bytes[28], bytes[29]]), 20);
    assert_eq!(bytes[30], b'f');
    assert_eq!(bytes[30 + 1 + 20], b'x');
    assert_eq!(
        entries(bytes),
        expected(&tree, &path(&["r"]))
    );
}
