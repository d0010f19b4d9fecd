//! Locates the mounted dataset that owns an absolute path, enumerates the
//! dataset's snapshots, and collapses them into the distinct content-versions
//! of a file so that one of them can be restored.

use vstd::prelude::*;

pub mod config;
pub mod configparser;
pub mod dataset;
mod error;
pub mod laws;
pub mod mode;
pub mod mounts;
pub mod normalize;
pub mod path;
pub mod snapshot;
pub mod strutil;
pub mod undelete;

pub use error::Error;

verus! {

} // verus!
