//! The ways in which opening an archive or reading an entry can fail.

use vstd::prelude::*;

verus! {

/// Why an archive was rejected or an entry could not be read.
#[derive(Clone, Copy, Debug, PartialEq, Eq, Structural)]
pub enum ArchiveError {
    /// The data is shorter than the fixed header.
    TruncatedHeader,
    /// The first bytes are not the archive signature.
    BadMagic,
    /// The header names a format version other than the supported one.
    UnsupportedVersion,
    /// The raw entry count of the header is smaller than the seed plus 7.
    BadEntryCount,
    /// The data ends before the end of the packed directory.
    TruncatedDirectory,
    /// The directory table ends in the middle of a record.
    TruncatedRecord,
    /// The data ends before the end of an entry's packed bytes.
    TruncatedEntry,
    /// The decompressor rejected the packed bytes.
    Inflate,
    /// The directory has no entry of the given path.
    NotFound,
    /// The entry of the given path does not hold file content.
    NotAFile,
}

} // verus!
