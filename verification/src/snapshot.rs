//! A snapshot: an immutable point-in-time copy of a dataset, identified by
//! the directory it is exposed under.

use vstd::prelude::*;

use crate::path::{is_abs, FsPath};

verus! {

/// The content fingerprint of one file: its modification time (seconds
/// since the epoch) and its size in bytes. Two snapshot copies of a file
/// that share a fingerprint are treated as the same content-version.
#[derive(Clone, Copy, Debug, PartialEq, Eq, Structural)]
pub struct FileInfo {
    pub mtime: u64,
    pub size: u64,
}

/// A snapshot, identified by its absolute on-disk path.
#[derive(Debug)]
pub struct Snapshot {
    path: FsPath,
}

impl View for Snapshot {
    type V = Seq<Seq<char>>;

    closed spec fn view(&self) -> Seq<Seq<char>> {
        self.path@
    }
}

impl DeepView for Snapshot {
    type V = Seq<Seq<char>>;

    open spec fn deep_view(&self) -> Seq<Seq<char>> {
        self.view()
    }
}

impl Clone for Snapshot {
    /// A copy referring to the same snapshot directory.
    fn clone(&self) -> (r: Self)
        ensures
            r@ == self@,
    {
        Snapshot { path: self.path.clone() }
    }
}

impl PartialEq for Snapshot {
    fn eq(&self, other: &Self) -> (r: bool) {
        self.path == other.path
    }
}

impl vstd::std_specs::cmp::PartialEqSpecImpl for Snapshot {
    open spec fn obeys_eq_spec() -> bool {
        true
    }

    open spec fn eq_spec(&self, other: &Self) -> bool {
        self@ =~= other@
    }
}

impl Snapshot {
    /// Wraps the path of a snapshot directory.
    pub fn from_path(path: FsPath) -> (r: Snapshot)
        ensures
            r@ == path@,
    {
        Snapshot { path }
    }

    /// The directory the snapshot is exposed under.
    pub fn path(&self) -> (r: &FsPath)
        ensures
            r@ == self@,
    {
        &self.path
    }

    /// The location a file with the given dataset-relative path would have
    /// inside this snapshot.
    pub fn join(&self, path: &FsPath) -> (r: FsPath)
        ensures
            is_abs(path@) ==> r@ == path@,
            !is_abs(path@) ==> r@ == self@ + path@,
    {
        self.path.join(path)
    }

    /// Where the file would sit in this snapshot, if it is present there.
    ///
    /// `present` reports whether the file exists on disk at that location;
    /// the caller obtains it from the filesystem.
    pub fn contains_file(&self, path: &FsPath, present: bool) -> (r: Option<FsPath>)
        ensures
            match r {
                Some(p) => present && (is_abs(path@) ==> p@ == path@) && (!is_abs(path@) ==> p@
                    == self@ + path@),
                None => !present,
            },
    {
        if present {
            Some(self.join(path))
        } else {
            None
        }
    }
}

} // verus!
