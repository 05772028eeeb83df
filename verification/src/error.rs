use vstd::prelude::*;

verus! {

/// The errors the reconciliation engine itself can report.  Failures that
/// originate outside the engine (cluster calls, file handling, process
/// launching) are mapped onto `IOError` by the caller before they reach
/// verified code.
#[derive(Debug, PartialEq, Eq, Structural)]
pub enum BOError {
    /// The group/version part of a resource designation was malformed.
    ParseGroupVersionError,
    /// The manifest document read back after the handler ran could not be
    /// parsed; treated as a hard error so an update is never silently lost.
    ParseManifestError,
    /// The external handler exited with the given non-zero status code.
    ErrorStatusCode(i32),
    /// A file or process operation failed outside the engine.
    IOError,
}

pub type BOResult<T> = Result<T, BOError>;

} // verus!
