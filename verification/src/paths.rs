//! Filesystem path queries on path text, answered by `std::path::Path`.
use vstd::prelude::*;
use std::path::Path;

verus! {

/// What `Path::parent` gives for the path text `p`.
pub uninterp spec fn path_parent(p: Seq<char>) -> Option<Seq<char>>;

/// What `Path::file_name` gives for the path text `p`.
pub uninterp spec fn path_file_name(p: Seq<char>) -> Option<Seq<char>>;

/// What `Path::eq` gives for the path texts `a` and `b` (equal components).
pub uninterp spec fn path_eq(a: Seq<char>, b: Seq<char>) -> bool;

/// What `Path::join` gives for the path texts `dir` and `name`.
pub uninterp spec fn path_join(dir: Seq<char>, name: Seq<char>) -> Seq<char>;

/// `Path::parent` of the path text `p`; the contract names the result, a
/// function of `p` alone.
#[verifier::external_body]
pub(crate) fn parent_of(p: &str) -> (r: Option<String>)
    ensures
        match r {
            Some(d) => path_parent(p@) == Some(d@),
            None => path_parent(p@) is None,
        },
{
    Path::new(p).parent().map(|d| d.to_string_lossy().into_owned())
}

/// `Path::file_name` of the path text `p`; the contract names the result,
/// a function of `p` alone.
#[verifier::external_body]
pub(crate) fn file_name_of(p: &str) -> (r: Option<String>)
    ensures
        match r {
            Some(n) => path_file_name(p@) == Some(n@),
            None => path_file_name(p@) is None,
        },
{
    Path::new(p).file_name().map(|n| n.to_string_lossy().into_owned())
}

/// `Path::eq` on two path texts; the contract names the result, a function
/// of the two texts alone.
#[verifier::external_body]
pub(crate) fn same_path(a: &str, b: &str) -> (r: bool)
    ensures
        r == path_eq(a@, b@),
{
    Path::new(a) == Path::new(b)
}

/// `Path::join` of two path texts; the contract names the result, a
/// function of the two texts alone.
#[verifier::external_body]
pub(crate) fn join_path(dir: &str, name: &str) -> (r: String)
    ensures
        r@ == path_join(dir@, name@),
{
    Path::new(dir).join(name).to_string_lossy().into_owned()
}

} // verus!
