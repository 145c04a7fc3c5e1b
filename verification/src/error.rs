//! The library's error taxonomy: format failures, name-resolution failures,
//! filesystem failures (classified by kind), database failure, subprocess
//! failures, and the control-flow signals that the orchestrator branches on.
use vstd::prelude::*;

verus! {

/// Which grammar a malformed piece of text failed against.
#[derive(Debug, Clone, Copy, PartialEq, Eq, Structural)]
pub enum FormatCode {
    ScriptName,
    Tag,
    ScriptQuery,
    Regex,
    PrevArgs,
}

/// The kind of a filesystem failure, as classified at the I/O boundary.
#[derive(Debug, Clone, Copy, PartialEq, Eq, Structural)]
pub enum IoErrKind {
    PermissionDenied,
    NotFound,
    Other,
}

/// A flag that cannot coexist with the action the caller resolved to.
#[derive(Debug, Clone, Copy, PartialEq, Eq, Structural)]
pub enum RedundantOpt {
    Selector,
    Tag,
}

/// Everything that can go wrong in the core, plus the control-flow signals
/// (`DontFuzz`, `Caution`, `EmptyCreate`, `NoPreviousArgs`) that are not true
/// failures.
#[derive(Debug, Clone)]
pub enum Error {
    /// Malformed name, tag, query or pattern; carries the offending text.
    Format(FormatCode, String),
    /// A query named a script that does not exist.
    NotFound(String),
    /// A new script would collide with an existing one.
    ScriptExist(String),
    /// A target path already exists.
    PathExist(String),
    /// A query named a script that the tag filter hid.
    ScriptIsFiltered(String),
    /// A fuzzy query matched several scripts; carries their display names.
    Ambiguous(Vec<String>),
    /// Permission was denied on the given paths.
    PermissionDenied(Vec<String>),
    /// A path was missing.
    PathNotFound(Vec<String>),
    /// Any other filesystem failure on the given paths.
    GeneralFS(Vec<String>),
    /// Opaque backend failure from the storage layer.
    Database,
    /// The subscript exited with a non-zero code.
    ScriptError(i32),
    /// The pre-run hook exited with a non-zero code.
    PreRunError(i32),
    /// The query asked not to fall back to fuzzy search.
    DontFuzz,
    /// The user declined a cautioned run.
    Caution,
    /// A newly created script was left empty.
    EmptyCreate,
    /// A previous-args lookup found no previous execution.
    NoPreviousArgs,
    /// The caller supplied a flag that cannot coexist with the resolved action.
    Redundant(RedundantOpt),
}

/// Map a filesystem failure kind and the paths involved to the library's error.
pub fn handle_fs_err(path: Vec<String>, kind: IoErrKind) -> (r: Error)
    ensures
        kind == IoErrKind::PermissionDenied ==> r == Error::PermissionDenied(path),
        kind == IoErrKind::NotFound ==> r == Error::PathNotFound(path),
        kind == IoErrKind::Other ==> r == Error::GeneralFS(path),
{
    match kind {
        IoErrKind::PermissionDenied => Error::PermissionDenied(path),
        IoErrKind::NotFound => Error::PathNotFound(path),
        IoErrKind::Other => Error::GeneralFS(path),
    }
}

/// Lift a filesystem result into the library's error type, keeping successes.
pub fn handle_fs_res<T>(path: Vec<String>, res: Result<T, IoErrKind>) -> (r: Result<T, Error>)
    ensures
        res is Ok <==> r is Ok,
        res is Ok ==> r->Ok_0 == res->Ok_0,
        res is Err && res->Err_0 == IoErrKind::PermissionDenied ==> r == Result::<T, Error>::Err(
            Error::PermissionDenied(path),
        ),
        res is Err && res->Err_0 == IoErrKind::NotFound ==> r == Result::<T, Error>::Err(
            Error::PathNotFound(path),
        ),
        res is Err && res->Err_0 == IoErrKind::Other ==> r == Result::<T, Error>::Err(
            Error::GeneralFS(path),
        ),
{
    match res {
        Ok(t) => Ok(t),
        Err(e) => Err(handle_fs_err(path, e)),
    }
}

} // verus!
