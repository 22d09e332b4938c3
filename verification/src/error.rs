//! Error type of the library.
use vstd::prelude::*;

verus! {

/// Top-level error of the library. Fallible functions return
/// `Result<T, FrenError>`; no function panics on user input.
#[derive(Debug, Clone, PartialEq, Eq)]
#[non_exhaustive]
pub enum FrenError {
    /// I/O error from the filesystem layer.
    Io {
        /// Path the error relates to (when known).
        path: String,
        /// Text of the underlying I/O error.
        message: String,
    },
    /// A rename target already exists (conflict policy = abort).
    TargetExists(String),
    /// Two plans within the same batch want to rename to the same target.
    WithinBatchCollision {
        /// First plan's source path.
        a: String,
        /// Second plan's source path.
        b: String,
        /// The target both plans contend for.
        target: String,
    },
    /// A user-facing input was invalid (bad path, bad option value).
    InvalidInput(String),
    /// A feature is reserved for a future release.
    NotYetImplemented(String),
}

} // verus!
