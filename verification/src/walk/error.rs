use vstd::prelude::*;

use std::path::{Path, PathBuf};

use crate::lexer::Loc;
use crate::paths::opt_path_to_buf;

verus! {

/// Why a walk stopped: an error of the caller's, or a record that would
/// take itself in again.
#[derive(Debug)]
pub enum WalkErrorType<E> {
    Custom(E),
    RecursiveInclude,
}

/// Where and why a walk stopped.
#[derive(Debug)]
pub struct WalkError<E> {
    pub path: Option<PathBuf>,
    pub loc: Loc,
    pub error_type: WalkErrorType<E>,
}

impl<E> WalkError<E> {
    /// A caller's error `e` at `loc` of the source at `p`.
    pub fn new(p: Option<&Path>, loc: Loc, e: E) -> (r: Self)
        ensures
            (r.path is Some) == (p is Some),
            r.loc == loc,
            r.error_type == WalkErrorType::Custom(e),
    {
        WalkError { path: opt_path_to_buf(p), loc, error_type: WalkErrorType::Custom(e) }
    }
}

} // verus!
