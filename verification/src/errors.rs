//! Error taxonomy for the library.
//!
//! Scans over directory snapshots fail with [`ScanError`]; archive
//! operations fail with [`ArchiveError`]. Failures on a direct,
//! single-target operation are surfaced to the caller; failures inside
//! a recursive scan are swallowed branch by branch (see `file_system`).

use vstd::prelude::*;

verus! {

/// Errors raised by directory scanning and flat image listing.
#[derive(Debug, Clone, Copy, PartialEq, Eq, Structural)]
pub enum ScanError {
    /// The requested path does not exist.
    NotFound,
    /// The requested path exists but is not a directory.
    NotADirectory,
    /// A read failed mid-operation.
    Io,
}

/// Errors raised by archive listing, cached reads and entry decoding.
#[derive(Debug, Clone, Copy, PartialEq, Eq, Structural)]
pub enum ArchiveError {
    /// The archive path is absent (or the archive is not resident in the
    /// cache when a resident handle is required).
    NotFound,
    /// The container could not be opened (unsupported or encrypted).
    OpenFailed,
    /// The container is malformed.
    CorruptArchive,
    /// The named page is absent inside an otherwise-valid archive.
    EntryNotFound,
    /// A read failed mid-operation.
    Io,
}

} // verus!
