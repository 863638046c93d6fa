//! The calls into `std::path` that the library makes, each behind a trusted
//! wrapper. Paths are held as strings; each wrapper turns its arguments into
//! `Path`s and asks `std::path` the one question.
use std::path::Path;
use vstd::prelude::*;

verus! {

/// Whether `base` is a prefix of `target` by whole path components, as
/// `Path::starts_with` decides it. Component syntax is the platform's, fixed
/// when the crate is compiled.
pub uninterp spec fn path_prefix(target: Seq<char>, base: Seq<char>) -> bool;

/// A path with its components collected back into a path: separators are
/// normalized (repeated and trailing ones dropped, `.` steps removed), so two
/// paths that `Path`'s `==` holds equal have the same key, as they have in a
/// map keyed by `PathBuf`.
pub uninterp spec fn path_key(p: Seq<char>) -> Seq<char>;

/// Whether two paths have the same components, as `Path`'s `==` decides it.
pub uninterp spec fn path_same(a: Seq<char>, b: Seq<char>) -> bool;

/// The final component of a path, as `Path::file_name` gives it (`None` for a
/// root, an empty path or one that ends in `..`).
pub uninterp spec fn path_file_name(p: Seq<char>) -> Option<Seq<char>>;

/// Calls `Path::starts_with`. Claims that the result is `path_prefix` of the
/// two strings, and that a path starts with itself (`base` is then a prefix of
/// `target` component by component).
#[verifier::external_body]
pub(crate) fn path_starts_with(target: &str, base: &str) -> (r: bool)
    ensures
        r == path_prefix(target@, base@),
        target@ == base@ ==> r,
{
    Path::new(target).starts_with(base)
}

/// Calls `==` on two `Path`s. Claims that the result is `path_same` of the two
/// strings, and that equal strings are equal paths.
#[verifier::external_body]
pub(crate) fn path_eq(a: &str, b: &str) -> (r: bool)
    ensures
        r == path_same(a@, b@),
        a@ == b@ ==> r,
{
    Path::new(a) == Path::new(b)
}

/// Calls `Path::file_name`, converting the name back to a string (it came from
/// a string, so the conversion never fails). Claims that the result is
/// `path_file_name` of `p`.
#[verifier::external_body]
pub(crate) fn file_name_of(p: &str) -> (r: Option<String>)
    ensures
        match r {
            Some(s) => path_file_name(p@) == Some(s@),
            None => path_file_name(p@) is None,
        },
{
    Path::new(p).file_name().map(|n| n.to_string_lossy().into_owned())
}

/// Calls `Path::components` and collects the components into a path, turned
/// back into a string (it came from a string, so nothing is lost). Claims that
/// the result is `path_key` of `p`.
#[verifier::external_body]
pub(crate) fn normalized_path(p: &str) -> (r: String)
    ensures
        r@ == path_key(p@),
{
    Path::new(p).components().collect::<std::path::PathBuf>().to_string_lossy().into_owned()
}

/// Calls `Path::exists`, which asks the file system. Nothing is claimed of the
/// result: it depends on what is on disk when the call is made.
#[verifier::external_body]
pub(crate) fn path_exists(p: &str) -> (r: bool) {
    Path::new(p).exists()
}

} // verus!
