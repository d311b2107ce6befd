//! A declarative package-manager front end: group files declare which
//! packages belong on a machine, targets select groups, and the library
//! computes what must be installed or removed to make the machine match.
//!
//! Everything here is pure computation over plain values.  Reading and
//! writing files, prompting, and driving the package manager binary are the
//! caller's business; mutating operations leave persistence to the caller,
//! which serializes the owning file with the codec and writes it out.
use vstd::prelude::*;

pub mod idset;
pub mod codec;
pub mod config;
pub mod distro;
pub mod error;
pub mod lines;
pub mod order;
pub mod pacman;
pub mod reconcile;
pub mod store;
pub mod table;

pub use error::Error;
pub use store::PackageGroup;

verus! {

/// Name of a package, exactly as the package manager knows it.
pub type PackageId = String;

/// Name of a package group, unique across the whole package configuration.
pub type GroupId = String;

} // verus!
