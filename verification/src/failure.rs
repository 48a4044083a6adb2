//! Why an operation on the file system did not succeed.

use vstd::prelude::*;

verus! {

/// The kinds of failure that a run tells apart.
#[derive(Clone, Copy, PartialEq, Eq, Debug)]
pub enum IoFailure {
    /// The file or directory is not there.
    NotFound,
    /// The operation was not permitted.
    PermissionDenied,
    /// Anything else.
    Other,
}

} // verus!
