//! The failure taxonomy of the resolution and version-deduplication engine.

use vstd::prelude::*;

verus! {

/// Everything that can go wrong while resolving a dataset, enumerating its
/// snapshots, or locating versions of a file.
#[derive(Clone, Copy, Debug, PartialEq, Eq, Structural)]
pub enum Error {
    /// The external mount-list query failed or its output was undecodable.
    QueryError,
    /// No ancestor of the path is a mounted dataset root.
    NotUnderManagedFilesystem,
    /// The dataset root turned out not to be a component-wise prefix of the
    /// path (defensive invariant violation during relative-path computation).
    PathNotRelated,
    /// The snapshot storage directory could not be listed at all.
    SnapshotAreaUnreadable,
    /// Some snapshot directory entries could not be read; the enumeration is
    /// rejected as a whole rather than silently dropping snapshots.
    SnapshotEnumerationError,
    /// An absolute path was passed where a relative one was expected.
    InvalidArgument,
    /// The target file is absent from every snapshot.
    NotFoundInAnySnapshot,
}

impl Error {
    /// A human-readable description of the failure.
    pub fn describe(&self) -> (r: &'static str)
        ensures
            r@ == spec_describe(*self),
    {
        match self {
            Error::QueryError => "could not query the mounted datasets",
            Error::NotUnderManagedFilesystem => "file does not reside under any mounted dataset",
            Error::PathNotRelated => "paths are not related",
            Error::SnapshotAreaUnreadable => "could not read the snapshot directory",
            Error::SnapshotEnumerationError => "aggregation of snapshots failed",
            Error::InvalidArgument => "path must be relative, not absolute",
            Error::NotFoundInAnySnapshot => "file does not exist in any snapshot",
        }
    }
}

/// The description returned by [`Error::describe`], as a sequence of characters.
pub open spec fn spec_describe(e: Error) -> Seq<char> {
    match e {
        Error::QueryError => "could not query the mounted datasets"@,
        Error::NotUnderManagedFilesystem => "file does not reside under any mounted dataset"@,
        Error::PathNotRelated => "paths are not related"@,
        Error::SnapshotAreaUnreadable => "could not read the snapshot directory"@,
        Error::SnapshotEnumerationError => "aggregation of snapshots failed"@,
        Error::InvalidArgument => "path must be relative, not absolute"@,
        Error::NotFoundInAnySnapshot => "file does not exist in any snapshot"@,
    }
}

} // verus!
