//! One restore operation: the resolved dataset, the file to recover
//! relative to the dataset root, the configuration, and the chosen flow.
//!
//! The operation's decisions live here; running the external copy and
//! listing commands, and asking the user anything, is the caller's side.

use vstd::prelude::*;

use crate::config::Config;
use crate::dataset::Dataset;
use crate::error::Error;
use crate::mode::Mode;
use crate::path::{is_abs, FsPath};
use crate::snapshot::Snapshot;

verus! {

/// The context of one restore operation.
#[derive(Debug)]
pub struct Undelete {
    dataset: Dataset,
    to_recover_relative_to_mountpoint: FsPath,
    conf: Config,
    mode: Mode,
}

impl Undelete {
    /// The dataset the file belongs to.
    pub closed spec fn spec_dataset(&self) -> Dataset {
        self.dataset
    }

    /// The file to recover, relative to the dataset root.
    pub closed spec fn spec_relative_path(&self) -> Seq<Seq<char>> {
        self.to_recover_relative_to_mountpoint@
    }

    /// The configuration of this operation.
    pub closed spec fn spec_conf(&self) -> Config {
        self.conf
    }

    /// The chosen restore flow.
    pub closed spec fn spec_mode(&self) -> Mode {
        self.mode
    }

    /// Gathers the context of one restore operation.
    pub fn new(
        dataset: Dataset,
        to_recover_relative_to_mountpoint: FsPath,
        conf: Config,
        mode: Mode,
    ) -> (r: Undelete)
        ensures
            r.spec_dataset() == dataset,
            r.spec_relative_path() == to_recover_relative_to_mountpoint@,
            r.spec_conf() == conf,
            r.spec_mode() == mode,
    {
        Undelete { dataset, to_recover_relative_to_mountpoint, conf, mode }
    }

    /// The dataset the file belongs to.
    pub fn dataset(&self) -> (r: &Dataset)
        ensures
            *r == self.spec_dataset(),
    {
        &self.dataset
    }

    /// The file to recover, relative to the dataset root.
    pub fn relative_path(&self) -> (r: &FsPath)
        ensures
            r@ == self.spec_relative_path(),
    {
        &self.to_recover_relative_to_mountpoint
    }

    /// The configuration of this operation.
    pub fn conf(&self) -> (r: &Config)
        ensures
            *r == self.spec_conf(),
    {
        &self.conf
    }

    /// The chosen restore flow.
    pub fn mode(&self) -> (r: Mode)
        ensures
            r == self.spec_mode(),
    {
        self.mode
    }

    /// Validates the caller's choice among the distinct versions and hands
    /// back the chosen snapshot; a choice beyond the list is rejected.
    pub fn choose_version(&self, unique_versions: &Vec<Snapshot>, choice: usize) -> (r: Result<
        Snapshot,
        Error,
    >)
        ensures
            choice < unique_versions@.len() ==> match r {
                Ok(s) => s@ == unique_versions.deep_view()[choice as int],
                Err(_) => false,
            },
            choice >= unique_versions@.len() ==> r == Err::<Snapshot, Error>(
                Error::InvalidArgument,
            ),
    {
        if choice < unique_versions.len() {
            let s = unique_versions[choice].clone();
            proof {
                assert(unique_versions.deep_view()[choice as int] == unique_versions@[
                    choice as int]@);
            }
            Ok(s)
        } else {
            Err(Error::InvalidArgument)
        }
    }

    /// The live location the recovered file is restored to: always the
    /// dataset root extended by the relative path.
    pub fn full_path_in_dataset(&self) -> (r: FsPath)
        ensures
            is_abs(self.spec_relative_path()) ==> r@ == self.spec_relative_path(),
            !is_abs(self.spec_relative_path()) ==> r@ == self.spec_dataset().spec_path()
                + self.spec_relative_path(),
    {
        self.dataset.get_absolute_path(&self.to_recover_relative_to_mountpoint)
    }
}

} // verus!
