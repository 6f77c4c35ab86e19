//! Lexical path operations, from the standard library.
use vstd::prelude::*;

verus! {

/// The directory part of a path, if it has one.
pub uninterp spec fn parent_of(path: Seq<char>) -> Option<Seq<char>>;

/// `name` resolved against the directory `dir`.
pub uninterp spec fn joined_path(dir: Seq<char>, name: Seq<char>) -> Seq<char>;

/// How a path is shown in diagnostics: the `Debug` text of the path, between
/// double quotes, with quotes, backslashes and control characters escaped.
pub uninterp spec fn path_debug(path: Seq<char>) -> Seq<char>;

/// Relies on `<std::path::Path as Debug>::fmt`: the path written as a quoted,
/// escaped string.
#[verifier::external_body]
pub(crate) fn debug_path(path: &str) -> (r: String)
    ensures
        r@ == path_debug(path@),
{
    format!("{:?}", std::path::Path::new(path))
}

/// Relies on `std::path::Path::parent`: the path without its last component,
/// or none for a root or an empty path.
#[verifier::external_body]
pub(crate) fn parent_dir(path: &String) -> (r: Option<String>)
    ensures
        r is Some <==> parent_of(path@) is Some,
        r is Some ==> r->Some_0@ == parent_of(path@)->Some_0,
{
    match std::path::Path::new(path.as_str()).parent() {
        Some(dir) => Some(dir.to_string_lossy().into_owned()),
        None => None,
    }
}

/// Relies on `std::path::Path::join`: `name` appended to `dir` with a
/// separator, or `name` alone when it is absolute.
#[verifier::external_body]
pub(crate) fn join_path(dir: &String, name: &str) -> (r: String)
    ensures
        r@ == joined_path(dir@, name@),
{
    std::path::Path::new(dir.as_str()).join(name).to_string_lossy().into_owned()
}

} // verus!
