//! Verified core of a comic-library indexer.
//!
//! The library walks a snapshot of a directory tree and classifies its
//! entries into an ordered index of comic containers (`file_system`),
//! lists and orders the image pages inside directories and archives
//! (`classify`, `natural`, `zip_handler`), and keeps a small
//! least-recently-used pool of open archive readers so that page reads
//! do not re-parse an archive on every request (`cache`).
//!
//! Filesystem and archive I/O stay outside the library: callers hand in
//! plain snapshots and byte buffers, and every transformation on them is
//! specified and verified here.

use vstd::prelude::*;

pub mod bookmarks;
pub mod cache;
pub mod classify;
pub mod errors;
pub mod file_system;
pub mod images;
pub mod natural;
pub mod zip_handler;
