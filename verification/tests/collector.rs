use random_pick::{get_files, EntryKind, Tree, WalkError};
use std::path::Path;

fn file(path: &str) -> Tree {
    Tree::File { path: path.to_string() }
}

fn symlink(path: &str) -> Tree {
    Tree::Symlink { path: path.to_string() }
}

fn other(path: &str) -> Tree {
    Tree::Other { path: path.to_string() }
}

fn dir(path: &str, entries: Vec<Tree>) -> Tree {
    Tree::Directory { path: path.to_string(), entries, complete: true }
}

fn broken_dir(path: &str, entries: Vec<Tree>) -> Tree {
    Tree::Directory { path: path.to_string(), entries, complete: false }
}

fn names(files: &[String]) -> Vec<String> {
    files
        .iter()
        .filter_map(|path| Path::new(path).file_name())
        .map(|name| name.to_string_lossy().into_owned())
        .collect()
}

fn paths(files: &[&str]) -> Vec<String> {
    files.iter().map(|p| p.to_string()).collect()
}

#[test]
fn get_files_recursively() {
    let root = dir(
        "tests/three-tiered_directory",
        vec![
            dir(
                "tests/three-tiered_directory/dir1",
                vec![file("tests/three-tiered_directory/dir1/file1_in_dir1")],
            ),
            dir(
                "tests/three-tiered_directory/dir2",
                vec![file("tests/three-tiered_directory/dir2/file2_in_dir2")],
            ),
            dir(
                "tests/three-tiered_directory/dir3",
                vec![file("tests/three-tiered_directory/dir3/file3_in_dir3")],
            ),
        ],
    );
    let files = get_files(&root, &None).unwrap();
    let mut files = names(&files);
    files.sort();
    assert_eq!(files.len(), 3);
    assert_eq!(files[0], "file1_in_dir1");
    assert_eq!(files[1], "file2_in_dir2");
    assert_eq!(files[2], "file3_in_dir3");
}

#[test]
fn ignore_symlink() {
    let root = dir(
        "tests/symlink",
        vec![file("tests/symlink/file1"), symlink("tests/symlink/link_to_file1")],
    );
    let files = get_files(&root, &None).unwrap();
    let files = names(&files);
    assert_eq!(files.len(), 1);
    assert_eq!(files[0], "file1");
}

#[test]
fn filter_by_markdown_file() {
    let extensions = Some(vec!["md".to_string()]);
    let root = dir(
        "tests/filter_by_markdown_file",
        vec![
            file("tests/filter_by_markdown_file/file1.md"),
            file("tests/filter_by_markdown_file/file1.txt"),
        ],
    );
    let files = get_files(&root, &extensions).unwrap();
    let files = names(&files);
    assert_eq!(files.len(), 1);
    assert_eq!(files[0], "file1.md");
}

#[test]
fn nested_directories_are_walked_in_listing_order() {
    let root = dir(
        "r",
        vec![
            file("r/a"),
            dir("r/d", vec![file("r/d/b"), dir("r/d/e", vec![file("r/d/e/c")]), file("r/d/f")]),
            file("r/g"),
            dir("r/empty", vec![]),
            file("r/h"),
        ],
    );
    assert_eq!(
        get_files(&root, &None),
        Ok(paths(&["r/a", "r/d/b", "r/d/e/c", "r/d/f", "r/g", "r/h"]))
    );
}

#[test]
fn empty_directory_yields_nothing() {
    assert_eq!(get_files(&dir("r", vec![]), &None), Ok(vec![]));
}

#[test]
fn symlink_is_ignored_wherever_it_stands() {
    let with = dir(
        "r",
        vec![
            symlink("r/to_dir"),
            dir("r/d", vec![symlink("r/d/dangling"), file("r/d/x.md"), symlink("r/d/x.md")]),
            symlink("r/to_file.md"),
        ],
    );
    let without = dir("r", vec![dir("r/d", vec![file("r/d/x.md")])]);
    assert_eq!(get_files(&with, &None), Ok(paths(&["r/d/x.md"])));
    assert_eq!(get_files(&with, &None), get_files(&without, &None));
    let md = Some(vec!["md".to_string()]);
    assert_eq!(get_files(&with, &md), get_files(&without, &md));
}

#[test]
fn no_filter_keeps_files_without_extension() {
    let root = dir("r", vec![file("r/file1"), file("r/file1.txt"), file("r/.hidden"), file("r/x.")]);
    assert_eq!(get_files(&root, &None), Ok(paths(&["r/file1", "r/file1.txt", "r/.hidden", "r/x."])));
}

#[test]
fn markdown_filter_leaves_out_other_files() {
    let root = dir(
        "r",
        vec![
            file("r/file1"),
            file("r/file1.txt"),
            file("r/file1.md"),
            file("r/md"),
            file("r/notes.md.bak"),
            dir("r/docs.md", vec![file("r/docs.md/readme"), file("r/docs.md/b.md")]),
            file("r/file1.MD"),
        ],
    );
    let md = Some(vec!["md".to_string()]);
    assert_eq!(get_files(&root, &md), Ok(paths(&["r/file1.md", "r/docs.md/b.md"])));
}

#[test]
fn filter_with_several_extensions() {
    let root = dir("r", vec![file("r/a.md"), file("r/b.txt"), file("r/c.rs"), file("r/d")]);
    let filter = Some(vec!["rs".to_string(), "md".to_string()]);
    assert_eq!(get_files(&root, &filter), Ok(paths(&["r/a.md", "r/c.rs"])));
}

#[test]
fn filter_without_extensions_admits_nothing() {
    let root = dir("r", vec![file("r/a.md"), file("r/b")]);
    assert_eq!(get_files(&root, &Some(vec![])), Ok(vec![]));
}

#[test]
fn unsupported_entry_aborts_the_walk() {
    let root = dir("r", vec![file("r/a"), dir("r/d", vec![other("r/d/socket")]), file("r/b")]);
    assert_eq!(
        get_files(&root, &None),
        Err(WalkError::UnsupportedEntryKind { path: "r/d/socket".to_string() })
    );
}

#[test]
fn unsupported_entry_aborts_whatever_the_filter() {
    let root = dir("r", vec![other("r/fifo")]);
    let md = Some(vec!["md".to_string()]);
    assert_eq!(
        get_files(&root, &md),
        Err(WalkError::UnsupportedEntryKind { path: "r/fifo".to_string() })
    );
}

#[test]
fn unreadable_directory_aborts_the_walk() {
    let root = dir("r", vec![file("r/a"), broken_dir("r/locked", vec![]), file("r/b")]);
    assert_eq!(get_files(&root, &None), Err(WalkError::Io { dir: "r/locked".to_string() }));
}

#[test]
fn listing_that_breaks_off_discards_what_was_found() {
    let root = broken_dir("r", vec![file("r/a"), file("r/b")]);
    assert_eq!(get_files(&root, &None), Err(WalkError::Io { dir: "r".to_string() }));
}

#[test]
fn first_failure_in_walk_order_is_reported() {
    let unsupported_first = broken_dir("r", vec![dir("r/d", vec![other("r/d/dev")])]);
    assert_eq!(
        get_files(&unsupported_first, &None),
        Err(WalkError::UnsupportedEntryKind { path: "r/d/dev".to_string() })
    );
    let io_first = dir("r", vec![broken_dir("r/d", vec![file("r/d/a")]), other("r/dev")]);
    assert_eq!(get_files(&io_first, &None), Err(WalkError::Io { dir: "r/d".to_string() }));
}

#[test]
fn root_that_is_no_directory_cannot_be_listed() {
    assert_eq!(get_files(&file("r/a"), &None), Err(WalkError::Io { dir: "r/a".to_string() }));
    assert_eq!(get_files(&symlink("l"), &None), Err(WalkError::Io { dir: "l".to_string() }));
    assert_eq!(get_files(&other("o"), &None), Err(WalkError::Io { dir: "o".to_string() }));
}

#[test]
fn tree_reports_its_root() {
    let d = dir("r", vec![file("r/a"), symlink("r/l"), other("r/o"), dir("r/d", vec![file("r/d/x")])]);
    assert_eq!(d.path(), "r");
    assert_eq!(d.kind(), EntryKind::Directory);
    assert_eq!(file("f").kind(), EntryKind::File);
    assert_eq!(symlink("s").kind(), EntryKind::Symlink);
    assert_eq!(other("o").kind(), EntryKind::Other);
    let entry = d.entry();
    assert_eq!(entry.path, "r");
    assert_eq!(entry.kind, EntryKind::Directory);
    let listing = d.listing();
    assert!(listing.complete);
    let listed: Vec<(String, EntryKind)> =
        listing.entries.into_iter().map(|e| (e.path, e.kind)).collect();
    assert_eq!(
        listed,
        vec![
            ("r/a".to_string(), EntryKind::File),
            ("r/l".to_string(), EntryKind::Symlink),
            ("r/o".to_string(), EntryKind::Other),
            ("r/d".to_string(), EntryKind::Directory),
        ]
    );
    let none = file("f").listing();
    assert!(!none.complete);
    assert!(none.entries.is_empty());
    assert!(!broken_dir("b", vec![]).listing().complete);
}
