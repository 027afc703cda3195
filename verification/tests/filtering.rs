use random_pick::{allowd_extensions_from_args, extension_of, is_admitted};

fn words(args: &[&str]) -> Vec<String> {
    args.iter().map(|a| a.to_string()).collect()
}

fn ext(path: &str) -> Option<String> {
    extension_of(&path.to_string())
}

#[test]
fn extension_follows_the_last_dot() {
    assert_eq!(ext("file1.md"), Some("md".to_string()));
    assert_eq!(ext("file1.txt"), Some("txt".to_string()));
    assert_eq!(ext("archive.tar.gz"), Some("gz".to_string()));
    assert_eq!(ext("dir/sub/notes.md"), Some("md".to_string()));
}

#[test]
fn name_without_dot_has_no_extension() {
    assert_eq!(ext("file1"), None);
    assert_eq!(ext(""), None);
    assert_eq!(ext("dir.d/file1"), None);
    assert_eq!(ext("a.b/"), None);
    assert_eq!(ext("/"), None);
}

#[test]
fn extension_edge_cases() {
    assert_eq!(ext("x."), Some("".to_string()));
    assert_eq!(ext(".bashrc"), Some("bashrc".to_string()));
    assert_eq!(ext("dir/.bashrc"), Some("bashrc".to_string()));
    assert_eq!(ext("."), Some("".to_string()));
    assert_eq!(ext("a..b"), Some("b".to_string()));
    assert_eq!(ext("r\u{e9}sum\u{e9}.t\u{e9}x"), Some("t\u{e9}x".to_string()));
    assert_eq!(ext("\u{65e5}\u{672c}.\u{8a9e}"), Some("\u{8a9e}".to_string()));
}

#[test]
fn absent_filter_admits_every_path() {
    assert!(is_admitted(&None, &"file1".to_string()));
    assert!(is_admitted(&None, &"file1.txt".to_string()));
    assert!(is_admitted(&None, &"".to_string()));
}

#[test]
fn markdown_filter_admits_only_markdown() {
    let md = Some(vec!["md".to_string()]);
    assert!(is_admitted(&md, &"file1.md".to_string()));
    assert!(is_admitted(&md, &"a/b/.md".to_string()));
    assert!(!is_admitted(&md, &"file1".to_string()));
    assert!(!is_admitted(&md, &"file1.txt".to_string()));
    assert!(!is_admitted(&md, &"file1.MD".to_string()));
    assert!(!is_admitted(&md, &"file1.md/readme".to_string()));
    assert!(!is_admitted(&md, &"md".to_string()));
    assert!(!is_admitted(&md, &"file1.mdx".to_string()));
}

#[test]
fn filter_is_searched_to_its_end() {
    let filter = Some(vec!["a".to_string(), "b".to_string(), "c".to_string()]);
    assert!(is_admitted(&filter, &"x.a".to_string()));
    assert!(is_admitted(&filter, &"x.c".to_string()));
    assert!(!is_admitted(&filter, &"x.d".to_string()));
    assert!(!is_admitted(&Some(vec![]), &"x.a".to_string()));
    assert!(is_admitted(&Some(vec!["".to_string()]), &"x.".to_string()));
}

#[test]
fn arguments_without_extension_configure_no_filter() {
    assert_eq!(allowd_extensions_from_args(&words(&[])), None);
    assert_eq!(allowd_extensions_from_args(&words(&["prog"])), None);
    assert_eq!(allowd_extensions_from_args(&words(&["prog", "a", "b"])), None);
}

#[test]
fn arguments_ask_for_extensions_in_pairs() {
    assert_eq!(
        allowd_extensions_from_args(&words(&["prog", "-e", "md"])),
        Some(words(&["md"]))
    );
    assert_eq!(
        allowd_extensions_from_args(&words(&["prog", "-e", "md", "-e", "txt"])),
        Some(words(&["md", "txt"]))
    );
    assert_eq!(
        allowd_extensions_from_args(&words(&["prog", "-x", "1", "-e", "rs", "y", "z"])),
        Some(words(&["rs"]))
    );
}

#[test]
fn flag_without_partner_or_out_of_place_is_ignored() {
    assert_eq!(allowd_extensions_from_args(&words(&["prog", "-e"])), None);
    assert_eq!(allowd_extensions_from_args(&words(&["prog", "x", "-e", "md"])), None);
    assert_eq!(
        allowd_extensions_from_args(&words(&["prog", "-e", "md", "-e"])),
        Some(words(&["md"]))
    );
    assert_eq!(allowd_extensions_from_args(&words(&["-e", "md"])), None);
    assert_eq!(
        allowd_extensions_from_args(&words(&["prog", "-e", "-e", "-e"])),
        Some(words(&["-e"]))
    );
    assert_eq!(allowd_extensions_from_args(&words(&["prog", "-E", "md"])), None);
    assert_eq!(allowd_extensions_from_args(&words(&["prog", "-e ", "md"])), None);
}

#[test]
fn same_extension_may_be_asked_for_twice() {
    assert_eq!(
        allowd_extensions_from_args(&words(&["prog", "-e", "md", "-e", "md"])),
        Some(words(&["md", "md"]))
    );
}
