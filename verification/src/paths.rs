//! What the standard library makes of paths, given as text.
//!
//! How a path is taken apart depends on the platform the library is built for.
//! Each result is therefore known only by a name: the same texts give the same
//! result, and nothing else is claimed of it.
use vstd::prelude::*;

verus! {

/// What `std::path::Path::join` makes of a directory and a path.
pub uninterp spec fn path_joined(dir: Seq<char>, rel: Seq<char>) -> Seq<char>;

/// What `std::path::Path::parent` makes of a path.
pub uninterp spec fn path_parent_of(path: Seq<char>) -> Option<Seq<char>>;

/// What `std::path::Path::file_name` makes of a path.
pub uninterp spec fn path_file_name_of(path: Seq<char>) -> Option<Seq<char>>;

/// Whether `std::path::Path` takes two paths for equal.
pub uninterp spec fn paths_equal(a: Seq<char>, b: Seq<char>) -> bool;

/// The text of an optional string.
pub open spec fn optional_string(s: Option<String>) -> Option<Seq<char>> {
    match s {
        Some(t) => Some(t@),
        None => None,
    }
}

/// `rel` adjoined to `dir` by `std::path::Path::join`. The result is a function
/// of the two texts alone.
#[verifier::external_body]
pub(crate) fn path_join(dir: &str, rel: &str) -> (joined: String)
    ensures
        joined@ == path_joined(dir@, rel@),
{
    std::path::Path::new(dir).join(rel).to_string_lossy().into_owned()
}

/// The parent of `path` by `std::path::Path::parent`. The result is a function
/// of the text alone.
#[verifier::external_body]
pub(crate) fn path_parent(path: &str) -> (parent: Option<String>)
    ensures
        optional_string(parent) == path_parent_of(path@),
{
    match std::path::Path::new(path).parent() {
        Some(p) => Some(p.to_string_lossy().into_owned()),
        None => None,
    }
}

/// The last component of `path` by `std::path::Path::file_name`. The result is
/// a function of the text alone.
#[verifier::external_body]
pub(crate) fn path_file_name(path: &str) -> (name: Option<String>)
    ensures
        optional_string(name) == path_file_name_of(path@),
{
    match std::path::Path::new(path).file_name() {
        Some(n) => Some(n.to_string_lossy().into_owned()),
        None => None,
    }
}

/// Whether `a` and `b` are equal as `std::path::Path` compares them. The result
/// is a function of the two texts alone.
#[verifier::external_body]
pub(crate) fn same_path(a: &str, b: &str) -> (r: bool)
    ensures
        r == paths_equal(a@, b@),
{
    std::path::Path::new(a) == std::path::Path::new(b)
}

} // verus!
