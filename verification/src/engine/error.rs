//! Domain errors of the engine (not of the git library): callers decide
//! by variant (an empty repository is `NoHead`, not a failure).

use vstd::prelude::*;

verus! {

#[derive(Debug, Clone, PartialEq, Eq)]
pub enum EngineError {
    /// The path is not inside a git repository.
    NotGit(String),
    /// The repository has no HEAD (freshly initialised).
    NoHead,
    /// The object ids are not SHA-1.
    UnsupportedHash,
    /// Any other error while reading objects, with its message.
    Gix(String),
}

} // verus!
