//! Core library for comparing two directory trees and synchronizing them.
//!
//! The library works on plain data: snapshots map relative paths to file
//! metadata, in-memory file stores map relative paths to file contents, and
//! every engine (diffing, planning, execution, rollback) is a verified
//! function over those values.  Reading real directories, files and clocks is
//! left to the surrounding application, which feeds the results in as values.

pub mod diff;
pub mod hash;
pub mod snapshot;
pub mod store;
pub mod sync;

use vstd::prelude::*;

verus! {

/// Number of bytes in one content digest.
pub const DIGEST_LEN: usize = 32;

} // verus!
