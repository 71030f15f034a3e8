//! The error taxonomy of the cache store.

use vstd::prelude::*;

verus! {

/// Why a cache-store operation failed.
///
/// - `EnvironmentError`: the host could not supply an application-data directory.
/// - `PathTraversalError`: the relative path would resolve outside the cache root.
/// - `NotFoundError`: a read target does not exist.
/// - `IoError`: any other filesystem failure (permission, disk, or a
///   file/directory type mismatch).
#[derive(Clone, Copy, Debug, PartialEq, Eq, Structural)]
pub enum CacheError {
    EnvironmentError,
    PathTraversalError,
    NotFoundError,
    IoError,
}

impl CacheError {
    /// The human-readable message reported across the store's boundary.
    pub open spec fn spec_message(self) -> Seq<char> {
        match self {
            CacheError::EnvironmentError => "Failed to get app data directory"@,
            CacheError::PathTraversalError => "Invalid path: attempted directory traversal"@,
            CacheError::NotFoundError => "Failed to read file: not found"@,
            CacheError::IoError => "Filesystem operation failed"@,
        }
    }

    /// Renders the error as its boundary message.
    pub fn message(&self) -> (r: String)
        ensures
            r@ == self.spec_message(),
    {
        match self {
            CacheError::EnvironmentError => "Failed to get app data directory".to_owned(),
            CacheError::PathTraversalError => "Invalid path: attempted directory traversal".to_owned(),
            CacheError::NotFoundError => "Failed to read file: not found".to_owned(),
            CacheError::IoError => "Filesystem operation failed".to_owned(),
        }
    }
}

} // verus!
