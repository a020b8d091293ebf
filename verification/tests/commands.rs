use project_fs::commands::{
    create_folder_outcome, folder_structure_outcome, greet, join_path, read_file_outcome,
    validate_project_folder, write_file_outcome, PathProbe,
};
use project_fs::tree::{EntryKind, RawEntry};

#[test]
fn greet_formats_name() {
    assert_eq!(greet("World"), "Hello, World! You've been greeted from Rust!");
}

#[test]
fn greet_empty_name() {
    assert_eq!(greet(""), "Hello, ! You've been greeted from Rust!");
}

#[test]
fn join_path_adds_separator() {
    assert_eq!(join_path("/home/user", "proj"), "/home/user/proj");
}

#[test]
fn join_path_keeps_trailing_separator() {
    assert_eq!(join_path("/home/user/", "proj"), "/home/user/proj");
}

#[test]
fn join_path_empty_base() {
    assert_eq!(join_path("", "proj"), "proj");
}

#[test]
fn join_path_absolute_name_stands_alone() {
    assert_eq!(join_path("/base", "/abs"), "/abs");
}

#[test]
fn join_path_two_levels_in_one_call() {
    assert_eq!(join_path("/tmp/base", "outer/inner"), "/tmp/base/outer/inner");
}

#[test]
fn validate_directory_succeeds() {
    assert_eq!(validate_project_folder(PathProbe::Directory), Ok(true));
}

#[test]
fn validate_file_is_wrong_entry_type() {
    assert_eq!(
        validate_project_folder(PathProbe::File),
        Err("Selected path is not a directory".to_string())
    );
}

#[test]
fn validate_missing_is_not_found() {
    assert_eq!(
        validate_project_folder(PathProbe::Missing),
        Err("Directory does not exist".to_string())
    );
}

#[test]
fn validate_failures_are_distinct() {
    let file_err = validate_project_folder(PathProbe::File).unwrap_err();
    let missing_err = validate_project_folder(PathProbe::Missing).unwrap_err();
    assert_ne!(file_err, missing_err);
}

#[test]
fn create_folder_success_returns_target() {
    assert_eq!(
        create_folder_outcome("/tmp/a/b".to_string(), Ok(())),
        Ok("/tmp/a/b".to_string())
    );
}

#[test]
fn create_folder_failure_is_translated() {
    assert_eq!(
        create_folder_outcome("/tmp/a/b".to_string(), Err("permission denied".to_string())),
        Err("Failed to create project folder: permission denied".to_string())
    );
}

#[test]
fn read_file_content_passes_through() {
    let content = "line one\nline two\n".to_string();
    assert_eq!(read_file_outcome(Ok(content.clone())), Ok(content));
}

#[test]
fn read_file_failure_is_translated() {
    assert_eq!(
        read_file_outcome(Err("no such file".to_string())),
        Err("Failed to read file: no such file".to_string())
    );
}

#[test]
fn write_file_success_has_no_payload() {
    assert_eq!(write_file_outcome(Ok(())), Ok(()));
}

#[test]
fn write_file_failure_is_translated() {
    assert_eq!(
        write_file_outcome(Err("disk full".to_string())),
        Err("Failed to write file: disk full".to_string())
    );
}

#[test]
fn folder_structure_root_failure_is_translated() {
    let listing: Result<Vec<RawEntry>, String> = Err("permission denied".to_string());
    let r = folder_structure_outcome(listing);
    assert_eq!(r.unwrap_err(), "Failed to read directory: permission denied");
}

#[test]
fn folder_structure_success_builds_tree() {
    let listing: Result<Vec<RawEntry>, String> = Ok(vec![
        RawEntry {
            name: "notes.txt".to_string(),
            path: "/p/notes.txt".to_string(),
            kind: EntryKind::File,
            children: None,
        },
        RawEntry {
            name: "src".to_string(),
            path: "/p/src".to_string(),
            kind: EntryKind::Folder,
            children: Some(vec![]),
        },
    ]);
    let nodes = folder_structure_outcome(listing).unwrap();
    assert_eq!(nodes.len(), 2);
    assert_eq!(nodes[0].name, "src");
    assert!(matches!(nodes[0].kind, EntryKind::Folder));
    assert_eq!(nodes[1].name, "notes.txt");
    assert!(matches!(nodes[1].kind, EntryKind::File));
}
