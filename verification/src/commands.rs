//! The command surface of the backend.
//!
//! Each command's decisions stand here: how the target path of a new
//! project folder is formed, what a validation of a chosen folder
//! answers, how a greeting is phrased, and with which text each
//! filesystem failure is reported. The operating-system calls
//! themselves are made by the shell, which hands their plain results
//! in.

use vstd::prelude::*;

use crate::tree::{built_list, node_views, raw_views, build_tree, FileNode, RawEntry};

verus! {

/// The greeting returned for a name.
pub open spec fn greeting_of(name: Seq<char>) -> Seq<char> {
    "Hello, "@ + name + "! You've been greeted from Rust!"@
}

/// Greet a user by name. Never fails.
pub fn greet(name: &str) -> (r: String)
    ensures
        r@ == greeting_of(name@),
{
    let mut s: String = "Hello, ".to_owned();
    s.append(name);
    s.append("! You've been greeted from Rust!");
    s
}

/// The path of entry `name` under `base`: an absolute `name` stands
/// alone, an empty `base` adds nothing, and otherwise a separator is
/// put in between unless `base` already ends in one.
pub open spec fn joined_path(base: Seq<char>, name: Seq<char>) -> Seq<char> {
    if name.len() > 0 && name[0] == '/' {
        name
    } else if base.len() == 0 {
        name
    } else if base.last() == '/' {
        base + name
    } else {
        base + seq!['/'] + name
    }
}

/// Form the path of entry `name` under `base`.
pub fn join_path(base: &str, name: &str) -> (r: String)
    ensures
        r@ == joined_path(base@, name@),
{
    let name_len: usize = name.unicode_len();
    if name_len > 0 && name.get_char(0) == '/' {
        return name.to_owned();
    }
    let base_len: usize = base.unicode_len();
    if base_len == 0 {
        return name.to_owned();
    }
    let mut s: String = base.to_owned();
    if base.get_char(base_len - 1) != '/' {
        s.append("/");
        proof {
            reveal_strlit("/");
            assert("/"@ =~= seq!['/']);
        }
    }
    s.append(name);
    s
}

/// What probing a chosen path found: no entry could be reached, or the
/// entry is a regular file, or it is a directory.
#[derive(Clone, Copy, PartialEq, Eq, Structural, Debug)]
pub enum PathProbe {
    Missing,
    File,
    Directory,
}

/// Validation of a chosen project folder, decided from what the probe
/// found. Only a directory validates; a file and a missing path each
/// fail with their own message.
pub fn validate_project_folder(probe: PathProbe) -> (r: Result<bool, String>)
    ensures
        probe == PathProbe::Directory <==> r is Ok,
        r is Ok ==> r->Ok_0 == true,
        probe == PathProbe::File ==> r is Err && r->Err_0@ == "Selected path is not a directory"@,
        probe == PathProbe::Missing ==> r is Err && r->Err_0@ == "Directory does not exist"@,
{
    match probe {
        PathProbe::Directory => Result::Ok(true),
        PathProbe::File => Result::Err("Selected path is not a directory".to_owned()),
        PathProbe::Missing => Result::Err("Directory does not exist".to_owned()),
    }
}

/// The failure of a missing path and the failure of a path that is no
/// directory carry distinct messages.
pub proof fn lemma_validation_failures_distinct()
    ensures
        "Directory does not exist"@ != "Selected path is not a directory"@,
{
    reveal_strlit("Directory does not exist");
    reveal_strlit("Selected path is not a directory");
    assert("Directory does not exist"@.len() != "Selected path is not a directory"@.len());
}

fn prefixed_message(prefix: &str, detail: &str) -> (r: String)
    ensures
        r@ == prefix@ + detail@,
{
    let mut s: String = prefix.to_owned();
    s.append(detail);
    s
}

/// Outcome of creating a project folder at `target`: on success the
/// target path itself is handed back, a failure is reported with the
/// creation failure text around the system's error.
pub fn create_folder_outcome(target: String, created: Result<(), String>) -> (r: Result<
    String,
    String,
>)
    ensures
        created is Ok <==> r is Ok,
        created is Ok ==> r->Ok_0 == target,
        created is Err ==> r->Err_0@ == "Failed to create project folder: "@ + created->Err_0@,
{
    match created {
        Result::Ok(_) => Result::Ok(target),
        Result::Err(e) => Result::Err(
            prefixed_message("Failed to create project folder: ", e.as_str()),
        ),
    }
}

/// Outcome of reading a file: the contents pass through untouched, a
/// failure is reported with the read failure text around the system's
/// error.
pub fn read_file_outcome(read: Result<String, String>) -> (r: Result<String, String>)
    ensures
        read is Ok <==> r is Ok,
        read is Ok ==> r->Ok_0 == read->Ok_0,
        read is Err ==> r->Err_0@ == "Failed to read file: "@ + read->Err_0@,
{
    match read {
        Result::Ok(content) => Result::Ok(content),
        Result::Err(e) => Result::Err(prefixed_message("Failed to read file: ", e.as_str())),
    }
}

/// Outcome of writing a file: success carries no payload, a failure is
/// reported with the write failure text around the system's error.
pub fn write_file_outcome(written: Result<(), String>) -> (r: Result<(), String>)
    ensures
        written is Ok <==> r is Ok,
        written is Err ==> r->Err_0@ == "Failed to write file: "@ + written->Err_0@,
{
    match written {
        Result::Ok(_) => Result::Ok(()),
        Result::Err(e) => Result::Err(prefixed_message("Failed to write file: ", e.as_str())),
    }
}

/// Outcome of listing a folder: a readable root listing is shaped into
/// the ordered, filtered tree; a root that could not be read is
/// reported with the listing failure text around the system's error.
pub fn folder_structure_outcome(listing: Result<Vec<RawEntry>, String>) -> (r: Result<
    Vec<FileNode>,
    String,
>)
    ensures
        listing is Ok <==> r is Ok,
        listing is Ok ==> node_views(r->Ok_0@) == built_list(raw_views(listing->Ok_0@)),
        listing is Err ==> r->Err_0@ == "Failed to read directory: "@ + listing->Err_0@,
{
    match listing {
        Result::Ok(entries) => Result::Ok(build_tree(&entries)),
        Result::Err(e) => Result::Err(prefixed_message("Failed to read directory: ", e.as_str())),
    }
}

} // verus!
