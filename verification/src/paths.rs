use vstd::prelude::*;

use std::path::{Path, PathBuf};

verus! {

#[verifier::external_type_specification]
#[verifier::external_body]
pub struct ExPathBuf(PathBuf);

#[verifier::external_type_specification]
#[verifier::external_body]
pub struct ExPath(Path);

/// `Path::to_path_buf`: an owned copy of a path. Nothing is stated of the copy:
/// paths are opaque here and only carried through.
#[verifier::external_body]
pub(crate) fn path_to_buf(p: &Path) -> PathBuf {
    p.to_path_buf()
}

/// `PathBuf::as_path`: a borrowed view of an owned path. Nothing is stated of
/// it: paths are opaque here and only carried through.
#[verifier::external_body]
pub(crate) fn buf_as_path(p: &PathBuf) -> &Path {
    p.as_path()
}

/// `<PathBuf as PartialEq>::eq`: whether two owned paths are equal component
/// by component. `PathBuf` is `Eq`, so a path equals itself; nothing more is
/// stated of the result: paths are opaque here, and two different paths may
/// compare equal (the same components written differently).
#[verifier::external_body]
pub(crate) fn pathbuf_eq(a: &PathBuf, b: &PathBuf) -> (r: bool)
    ensures
        a == b ==> r,
{
    a == b
}

/// `<PathBuf as Clone>::clone`: an owned copy of an owned path, equal to it
/// (as a clone of a `String` is taken to be).
#[verifier::external_body]
pub(crate) fn pathbuf_clone(p: &PathBuf) -> (r: PathBuf)
    ensures
        r == *p,
{
    p.clone()
}

/// The owned path that an optional reference points to.
pub open spec fn opt_deref<'a>(p: Option<&'a PathBuf>) -> Option<PathBuf> {
    match p {
        Some(x) => Some(*x),
        None => None,
    }
}

/// An owned copy of the path an optional reference points to.
pub(crate) fn opt_pathbuf_clone<'a>(p: Option<&'a PathBuf>) -> (r: Option<PathBuf>)
    ensures
        r == opt_deref(p),
{
    match p {
        Some(x) => Some(pathbuf_clone(x)),
        None => None,
    }
}

/// Whether two optional owned paths are both absent or both present and equal.
pub(crate) fn opt_pathbuf_eq<'a, 'b>(a: Option<&'a PathBuf>, b: Option<&'b PathBuf>) -> (r: bool)
    ensures
        opt_deref(a) == opt_deref(b) ==> r,
        (a is None) != (b is None) ==> !r,
{
    match (a, b) {
        (Some(x), Some(y)) => pathbuf_eq(x, y),
        (None, None) => true,
        _ => false,
    }
}

/// An owned copy of an optional path.
pub(crate) fn opt_path_to_buf(p: Option<&Path>) -> (r: Option<PathBuf>)
    ensures
        r is Some <==> p is Some,
{
    match p {
        Some(p) => Some(path_to_buf(p)),
        None => None,
    }
}

/// A borrowed view of an optional owned path.
pub(crate) fn opt_buf_as_path(p: &Option<PathBuf>) -> (r: Option<&Path>)
    ensures
        r is Some <==> p is Some,
{
    match p {
        Some(p) => Some(buf_as_path(p)),
        None => None,
    }
}

} // verus!
