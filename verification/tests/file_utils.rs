use dir_archive::file_utils::{is_descendant, make_relative_path};

fn segments(parts: &[&str]) -> Vec<String> {
    parts.iter().map(|part| part.to_string()).collect()
}

#[test]
fn relative_path_leaves_the_root_out() {
    let root = segments(&["root"]);
    let file = segments(&["root", "a", "b.txt"]);
    assert_eq!(make_relative_path(&root, &file), "a/b.txt");
}

#[test]
fn relative_path_of_an_immediate_child_is_its_name() {
    let root = segments(&["/", "home", "user", "data"]);
    let file = segments(&["/", "home", "user", "data", "notes.md"]);
    assert_eq!(make_relative_path(&root, &file), "notes.md");
}

#[test]
fn relative_path_of_the_root_is_empty() {
    let root = segments(&["/", "srv", "root"]);
    assert_eq!(make_relative_path(&root, &root), "");
}

#[test]
fn relative_path_below_an_empty_root_is_the_whole_path() {
    let root = segments(&[]);
    let file = segments(&["a", "b", "c"]);
    assert_eq!(make_relative_path(&root, &file), "a/b/c");
}

#[test]
fn relative_path_keeps_a_child_named_like_the_root() {
    let root = segments(&["data"]);
    let file = segments(&["data", "data", "x"]);
    assert_eq!(make_relative_path(&root, &file), "data/x");
}

#[test]
fn relative_path_joins_with_forward_slashes_only() {
    let root = segments(&["C:", "Users"]);
    let file = segments(&["C:", "Users", "me", "docs", "a b.txt"]);
    let name = make_relative_path(&root, &file);
    assert_eq!(name, "me/docs/a b.txt");
    assert!(!name.starts_with('/'));
    assert!(!name.ends_with('/'));
}

#[test]
fn descendant_is_told_from_stranger() {
    let root = segments(&["tmp", "root"]);
    assert!(is_descendant(&root, &root));
    assert!(is_descendant(&root, &segments(&["tmp", "root", "a"])));
    assert!(is_descendant(&segments(&[]), &root));
    assert!(!is_descendant(&root, &segments(&["tmp"])));
    assert!(!is_descendant(&root, &segments(&["tmp", "other", "a"])));
    assert!(!is_descendant(&root, &segments(&["root", "tmp", "a"])));
}

#[test]
fn different_paths_get_different_names() {
    let root = segments(&["r"]);
    let paths = [
        segments(&["r", "a"]),
        segments(&["r", "a", "b"]),
        segments(&["r", "ab"]),
        segments(&["r", "a", "b", "c"]),
        segments(&["r", "b", "a"]),
        segments(&["r", "r"]),
    ];
    let names: Vec<String> = paths.iter().map(|path| make_relative_path(&root, path)).collect();
    assert_eq!(names, vec!["a", "a/b", "ab", "a/b/c", "b/a", "r"]);
    for first in 0..names.len() {
        for second in first + 1..names.len() {
            assert_ne!(names[first], names[second]);
        }
    }
}

#[test]
fn name_from_the_root_goes_through_the_directory_in_between() {
    let root = segments(&["r"]);
    let middle = segments(&["r", "sub", "dir"]);
    let file = segments(&["r", "sub", "dir", "x", "y.txt"]);
    let whole = make_relative_path(&root, &file);
    let front = make_relative_path(&root, &middle);
    let back = make_relative_path(&middle, &file);
    assert_eq!(whole, format!("{}/{}", front, back));
    assert_eq!(whole, "sub/dir/x/y.txt");
}
