//! The single failure the store can report.

use vstd::prelude::*;

verus! {

/// Error returned by [`crate::store::PathStore::add_path`] when the supplied
/// path is not absolute.  The store is left completely unchanged in that
/// case; the caller can recover by supplying an absolute path.
#[derive(Debug, PartialEq, Eq, Structural, Clone, Copy)]
pub enum StorageError {
    /// The path handed to an insertion was not absolute.
    InvalidPath,
}

impl StorageError {
    /// A human-readable description of the error.
    pub fn message(&self) -> (r: String)
        ensures
            r@ == "path given to the store must be absolute"@,
    {
        match self {
            StorageError::InvalidPath => "path given to the store must be absolute".to_owned(),
        }
    }
}

} // verus!
