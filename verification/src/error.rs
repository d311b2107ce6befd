//! The errors the library reports.  Not-found and already-exists conditions
//! carry the name they are about; parse failures carry nothing.  Reading and
//! writing files is the caller's business, so I/O failures never arise here.
use vstd::prelude::*;

verus! {

/// Everything a library operation can fail with.
#[derive(Debug, PartialEq, Eq)]
pub enum Error {
    /// No target of this name is configured.
    TargetNotFound(String),
    /// No package file is tracked under this path.
    PackageFileNotFound { package_file: String },
    /// No group of this id exists in any tracked file.
    GroupNotFound { group: String },
    /// The group exists but does not hold this package.
    PackageNotFound { package: String },
    /// A package file is already tracked under this path.
    PackageFileAlreadyExists { package_file: String },
    /// The file already holds a group of this id.
    GroupAlreadyExists { group: String },
    /// The configuration file's path has no parent directory.
    ConfigFileHasNoParentDir { path: String },
    /// A persisted text could not be decoded into the in-memory model.
    DeserializeFailure,
    /// The package manager's report could not be parsed as expected.
    UnexpectedPacmanOutput,
}

} // verus!
