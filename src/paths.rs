//! File names and output directories derived from archive paths.

use vstd::prelude::*;
use vstd::string::StringExecFns;

use crate::archive::same_text;
use crate::error::ArchiveError;

verus! {

/// The last component of a path, where it names a file or directory.
pub uninterp spec fn file_name_of(path: Seq<char>) -> Option<Seq<char>>;

/// The last component of a path without its extension.
pub uninterp spec fn file_stem_of(path: Seq<char>) -> Option<Seq<char>>;

/// A path without its last component.
pub uninterp spec fn parent_of(path: Seq<char>) -> Option<Seq<char>>;

/// A path with another appended to it.
pub uninterp spec fn joined_of(base: Seq<char>, rest: Seq<char>) -> Seq<char>;

/// Whether two paths have the same components.
pub uninterp spec fn paths_equal(a: Seq<char>, b: Seq<char>) -> bool;

/// Relies on `std::path::Path::file_name`; the name of a UTF-8 path is UTF-8.
#[verifier::external_body]
fn std_file_name(path: &str) -> (r: Option<String>)
    ensures
        match r {
            Some(n) => file_name_of(path@) == Some(n@),
            None => file_name_of(path@) is None,
        },
{
    std::path::Path::new(path).file_name().map(|n| n.to_string_lossy().into_owned())
}

/// Relies on `std::path::Path::file_stem`; the stem of a UTF-8 path is UTF-8.
#[verifier::external_body]
fn std_file_stem(path: &str) -> (r: Option<String>)
    ensures
        match r {
            Some(n) => file_stem_of(path@) == Some(n@),
            None => file_stem_of(path@) is None,
        },
{
    std::path::Path::new(path).file_stem().map(|n| n.to_string_lossy().into_owned())
}

/// Relies on `std::path::Path::parent`; the parent of a UTF-8 path is UTF-8.
#[verifier::external_body]
fn std_parent(path: &str) -> (r: Option<String>)
    ensures
        match r {
            Some(n) => parent_of(path@) == Some(n@),
            None => parent_of(path@) is None,
        },
{
    std::path::Path::new(path).parent().map(|n| n.to_string_lossy().into_owned())
}

/// Relies on `std::path::Path::join`; joining UTF-8 paths gives a UTF-8 path.
#[verifier::external_body]
fn std_join(base: &str, rest: &str) -> (r: String)
    ensures
        r@ == joined_of(base@, rest@),
{
    std::path::Path::new(base).join(rest).to_string_lossy().into_owned()
}

/// Relies on `==` of `std::path::Path`, which compares components.
#[verifier::external_body]
fn std_paths_equal(a: &str, b: &str) -> (r: bool)
    ensures
        r == paths_equal(a@, b@),
{
    std::path::Path::new(a) == std::path::Path::new(b)
}

/// The file name of a path.
pub fn path_file_name(path: &str) -> (r: Result<String, ArchiveError>)
    ensures
        match file_name_of(path@) {
            Some(n) => r matches Ok(s) && s@ == n,
            None => r == Err::<String, ArchiveError>(ArchiveError::InvalidPath),
        },
{
    match std_file_name(path) {
        Some(n) => Ok(n),
        None => Err(ArchiveError::InvalidPath),
    }
}

/// The directory to extract an archive into: beside the archive, named by its
/// stem, or by its file name with `.d` added where it has no extension.
pub open spec fn archive_dir_of(path: Seq<char>) -> Option<Seq<char>> {
    match (parent_of(path), file_stem_of(path)) {
        (Some(parent), Some(stem)) => {
            let dir = joined_of(parent, stem);
            if !paths_equal(path, dir) {
                Some(dir)
            } else {
                match file_name_of(path) {
                    Some(name) => Some(joined_of(parent, name + seq!['.', 'd'])),
                    None => None,
                }
            }
        },
        _ => None,
    }
}

/// The directory to extract an archive into: beside the archive, named by its
/// stem, or by its file name with `.d` added where it has no extension.
pub fn archive_dir_name(path: &str) -> (r: Result<String, ArchiveError>)
    ensures
        match archive_dir_of(path@) {
            Some(d) => r matches Ok(s) && s@ == d,
            None => r == Err::<String, ArchiveError>(ArchiveError::InvalidPath),
        },
{
    let parent = match std_parent(path) {
        Some(p) => p,
        None => return Err(ArchiveError::InvalidPath),
    };
    let stem = match std_file_stem(path) {
        Some(s) => s,
        None => return Err(ArchiveError::InvalidPath),
    };
    let dir = std_join(parent.as_str(), stem.as_str());
    if !std_paths_equal(path, dir.as_str()) {
        return Ok(dir);
    }
    let mut name = match std_file_name(path) {
        Some(n) => n,
        None => return Err(ArchiveError::InvalidPath),
    };
    name.append(".d");
    proof {
        reveal_strlit(".d");
        assert(".d"@ =~= seq!['.', 'd']);
    }
    Ok(std_join(parent.as_str(), name.as_str()))
}

/// The name of the directory to extract an archive into: its stem, or its file
/// name with `.d` added where it has no extension.
pub open spec fn output_dir_of(path: Seq<char>) -> Option<Seq<char>> {
    match (file_name_of(path), file_stem_of(path)) {
        (Some(name), Some(stem)) => Some(
            if stem == name {
                name + seq!['.', 'd']
            } else {
                stem
            },
        ),
        _ => None,
    }
}

/// The name of the directory to extract an archive into: its stem, or its file
/// name with `.d` added where it has no extension.
pub fn archive_output_dir(path: &str) -> (r: Option<String>)
    ensures
        match output_dir_of(path@) {
            Some(d) => r matches Some(s) && s@ == d,
            None => r is None,
        },
{
    let name = match std_file_name(path) {
        Some(n) => n,
        None => return None,
    };
    let mut stem = match std_file_stem(path) {
        Some(s) => s,
        None => return None,
    };
    if same_text(stem.as_str(), name.as_str()) {
        stem.append(".d");
        proof {
            reveal_strlit(".d");
            assert(".d"@ =~= seq!['.', 'd']);
        }
    }
    Some(stem)
}

} // verus!
