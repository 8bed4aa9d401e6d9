//! What the library has from `std::path`: splitting, joining and comparing paths under the
//! host's path grammar. The contracts of the functions that call `std` are believed, not
//! proved: each names what the function of `std` computes, and claims nothing else of it.

use std::path::Path;
use vstd::prelude::*;

verus! {

/// The texts of a list of strings.
pub open spec fn texts(v: Seq<String>) -> Seq<Seq<char>> {
    Seq::new(v.len(), |i: int| v[i]@)
}

/// The components into which the host's path grammar splits `path`, each as text.
pub uninterp spec fn path_segments(path: Seq<char>) -> Seq<Seq<char>>;

/// The path that the host's path grammar makes of `base` extended by `part`.
pub uninterp spec fn path_joined(base: Seq<char>, part: Seq<char>) -> Seq<char>;

/// What is left of `path` once the leading `base` is taken off, if `path` starts with `base`.
pub uninterp spec fn path_stripped(path: Seq<char>, base: Seq<char>) -> Option<Seq<char>>;

/// The final component of `path`, if it ends in a name.
pub uninterp spec fn path_final(path: Seq<char>) -> Option<Seq<char>>;

/// Whether the host's path grammar reads `a` and `b` as the same path.
pub uninterp spec fn path_same(a: Seq<char>, b: Seq<char>) -> bool;

/// `std::path::Path::components`: the components of `path` in order, each turned into a
/// string of its own. Nothing is claimed of them but that they depend on `path` alone.
#[verifier::external_body]
pub(crate) fn split_components(path: &str) -> (parts: Vec<String>)
    ensures
        texts(parts@) == path_segments(path@),
{
    Path::new(path).components().map(|c| c.as_os_str().to_string_lossy().into_owned()).collect()
}

/// `std::path::Path::join`: `base` with `part` pushed onto it. Nothing is claimed of the
/// result but that it depends on the two texts alone.
#[verifier::external_body]
pub(crate) fn join_path(base: &str, part: &str) -> (joined: String)
    ensures
        joined@ == path_joined(base@, part@),
{
    Path::new(base).join(part).to_string_lossy().into_owned()
}

/// `std::path::Path::strip_prefix`: the rest of `path` behind `base`, or `None` where `path`
/// does not start with `base`.
#[verifier::external_body]
pub(crate) fn strip_base(path: &str, base: &str) -> (rest: Option<String>)
    ensures
        rest is Some <==> path_stripped(path@, base@) is Some,
        rest matches Some(r) ==> path_stripped(path@, base@) == Some(r@),
{
    Path::new(path).strip_prefix(Path::new(base)).ok().map(|p| p.to_string_lossy().into_owned())
}

/// `std::path::Path::file_name`: the final component of `path`, or `None` where the path ends
/// in `..` or is a root.
#[verifier::external_body]
pub(crate) fn final_component(path: &str) -> (name: Option<String>)
    ensures
        name is Some <==> path_final(path@) is Some,
        name matches Some(n) ==> path_final(path@) == Some(n@),
{
    Path::new(path).file_name().map(|n| n.to_string_lossy().into_owned())
}

/// Equality of `std::path::Path` values: whether the two texts are the same path, component
/// by component.
#[verifier::external_body]
pub(crate) fn same_path(a: &str, b: &str) -> (same: bool)
    ensures
        same == path_same(a@, b@),
{
    Path::new(a) == Path::new(b)
}

} // verus!
