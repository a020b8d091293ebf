use project_fs::tree::{build_tree, is_skipped_name, EntryKind, FileNode, RawEntry};

fn file(name: &str) -> RawEntry {
    RawEntry {
        name: name.to_string(),
        path: format!("/root/{}", name),
        kind: EntryKind::File,
        children: None,
    }
}

fn folder(name: &str, children: Option<Vec<RawEntry>>) -> RawEntry {
    RawEntry {
        name: name.to_string(),
        path: format!("/root/{}", name),
        kind: EntryKind::Folder,
        children,
    }
}

fn names(nodes: &[FileNode]) -> Vec<String> {
    nodes.iter().map(|n| n.name.clone()).collect()
}

#[test]
fn folders_before_files_alphabetical() {
    let entries = vec![
        file("b.txt"),
        folder("Alpha", Some(vec![])),
        file("A.txt"),
        folder("beta", Some(vec![])),
    ];
    let nodes = build_tree(&entries);
    assert_eq!(names(&nodes), vec!["Alpha", "beta", "A.txt", "b.txt"]);
    assert!(matches!(nodes[0].kind, EntryKind::Folder));
    assert!(matches!(nodes[1].kind, EntryKind::Folder));
    assert!(matches!(nodes[2].kind, EntryKind::File));
    assert!(matches!(nodes[3].kind, EntryKind::File));
}

#[test]
fn sort_is_case_insensitive() {
    let entries = vec![file("delta.rs"), file("Charlie.rs"), file("echo.rs")];
    let nodes = build_tree(&entries);
    assert_eq!(names(&nodes), vec!["Charlie.rs", "delta.rs", "echo.rs"]);
}

#[test]
fn equal_names_keep_listing_order() {
    let entries = vec![file("README"), file("readme")];
    let nodes = build_tree(&entries);
    assert_eq!(names(&nodes), vec!["README", "readme"]);

    let reversed = vec![file("readme"), file("README")];
    let nodes = build_tree(&reversed);
    assert_eq!(names(&nodes), vec!["readme", "README"]);
}

#[test]
fn hidden_and_ignored_entries_are_absent_at_every_depth() {
    let entries = vec![
        file(".env"),
        folder(".git", Some(vec![file("HEAD")])),
        folder("node_modules", Some(vec![file("left.js")])),
        folder("target", Some(vec![])),
        folder("dist", Some(vec![])),
        folder(
            "src",
            Some(vec![file(".DS_Store"), folder("node_modules", Some(vec![])), file("main.rs")]),
        ),
    ];
    let nodes = build_tree(&entries);
    assert_eq!(names(&nodes), vec!["src"]);
    let children = nodes[0].children.as_ref().unwrap();
    assert_eq!(names(children), vec!["main.rs"]);
}

#[test]
fn unreadable_folder_still_appears_without_children() {
    let entries = vec![folder("locked", None), file("open.txt")];
    let nodes = build_tree(&entries);
    assert_eq!(names(&nodes), vec!["locked", "open.txt"]);
    assert!(matches!(nodes[0].kind, EntryKind::Folder));
    assert!(nodes[0].children.is_none());
}

#[test]
fn empty_listing_gives_empty_tree() {
    let entries: Vec<RawEntry> = vec![];
    let nodes = build_tree(&entries);
    assert!(nodes.is_empty());
}

#[test]
fn nested_levels_are_each_sorted() {
    let entries = vec![folder(
        "app",
        Some(vec![file("zeta.rs"), folder("Ui", Some(vec![])), file("Alpha.rs")]),
    )];
    let nodes = build_tree(&entries);
    let children = nodes[0].children.as_ref().unwrap();
    assert_eq!(names(children), vec!["Ui", "Alpha.rs", "zeta.rs"]);
}

#[test]
fn file_nodes_never_carry_children() {
    let entries = vec![file("plain.txt")];
    let nodes = build_tree(&entries);
    assert!(nodes[0].children.is_none());
}

#[test]
fn paths_and_names_are_kept() {
    let entries = vec![file("kept.txt")];
    let nodes = build_tree(&entries);
    assert_eq!(nodes[0].name, "kept.txt");
    assert_eq!(nodes[0].path, "/root/kept.txt");
}

#[test]
fn skipped_names() {
    assert!(is_skipped_name(&".hidden".to_string()));
    assert!(is_skipped_name(&".".to_string()));
    assert!(is_skipped_name(&"node_modules".to_string()));
    assert!(is_skipped_name(&"target".to_string()));
    assert!(is_skipped_name(&"dist".to_string()));
    assert!(!is_skipped_name(&"src".to_string()));
    assert!(!is_skipped_name(&"".to_string()));
    assert!(!is_skipped_name(&"distribution".to_string()));
    assert!(!is_skipped_name(&"Target".to_string()));
}

#[test]
fn uppercase_sorts_by_lowercase_form_not_code_point() {
    // by code point 'B' < 'a'; case-insensitively "apple" < "Banana"
    let entries = vec![file("Banana"), file("apple")];
    let nodes = build_tree(&entries);
    assert_eq!(names(&nodes), vec!["apple", "Banana"]);
}

#[test]
fn non_ascii_equal_names_keep_listing_order() {
    // "\u{e4}" and "\u{c4}" compare equal once lowercased
    let entries = vec![file("\u{e4}"), file("\u{c4}")];
    let nodes = build_tree(&entries);
    assert_eq!(names(&nodes), vec!["\u{e4}", "\u{c4}"]);

    let reversed = vec![file("\u{c4}"), file("\u{e4}")];
    let nodes = build_tree(&reversed);
    assert_eq!(names(&nodes), vec!["\u{c4}", "\u{e4}"]);
}

#[test]
fn non_ascii_names_sort_by_lowercase_form() {
    // lowercase of "\u{d6}" is "\u{f6}", which is greater than "\u{e9}"
    let entries = vec![file("\u{d6}"), file("\u{e9}")];
    let nodes = build_tree(&entries);
    assert_eq!(names(&nodes), vec!["\u{e9}", "\u{d6}"]);
}
