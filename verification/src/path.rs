//! Path operations on paths held as text.

use vstd::prelude::*;

verus! {

/// Whether `std::path::Path` considers two paths equal (component-wise).
pub uninterp spec fn path_eq(a: Seq<char>, b: Seq<char>) -> bool;

/// The final component that `std::path::Path::file_name` yields for a path, if any.
pub uninterp spec fn path_file_name(path: Seq<char>) -> Option<Seq<char>>;

/// The display name of a tree entry: the final component of its path,
/// or the whole path where it has none (such as `/` or `..`).
pub open spec fn entry_name(path: Seq<char>) -> Seq<char> {
    match path_file_name(path) {
        Some(n) => n,
        None => path,
    }
}

/// Compares two paths with `std::path::Path`'s `==`.
///
/// Trusted: the result is `path_eq` of the two texts, and paths that are the
/// same text compare equal (`Path` implements `Eq`, so `==` is reflexive).
#[verifier::external_body]
pub(crate) fn paths_equal(a: &String, b: &String) -> (r: bool)
    ensures
        r == path_eq(a@, b@),
        a@ == b@ ==> r,
{
    std::path::Path::new(a.as_str()) == std::path::Path::new(b.as_str())
}

/// Calls `std::path::Path::file_name` and reads the component as text.
///
/// Trusted: the result is `path_file_name` of the path's text. A component
/// of a path that came from a `&str` is valid UTF-8, so reading it is lossless.
#[verifier::external_body]
pub(crate) fn file_name_of(path: &String) -> (r: Option<String>)
    ensures
        r is None <==> path_file_name(path@) is None,
        r matches Some(n) ==> path_file_name(path@) == Some(n@),
{
    std::path::Path::new(path.as_str()).file_name().map(|n| n.to_string_lossy().into_owned())
}

/// The display name of an entry, given what `Path::file_name` gave for its
/// path: that component, or else the path itself.
pub fn name_from_file_name(file_name: Option<String>, path: &String) -> (r: String)
    ensures
        r@ == (match file_name {
            Some(n) => n@,
            None => path@,
        }),
{
    match file_name {
        Some(n) => n,
        None => path.clone(),
    }
}

/// The display name of the entry at `path` (see `entry_name`).
pub fn entry_name_of(path: &String) -> (r: String)
    ensures
        r@ == entry_name(path@),
        path_file_name(path@) matches Some(n) ==> r@ == n,
        path_file_name(path@) is None ==> r@ == path@,
{
    name_from_file_name(file_name_of(path), path)
}

} // verus!
