//! What can go wrong while reading or rewriting an archive.

use vstd::prelude::*;

verus! {

/// The failures of the archive codec.
#[derive(Debug, PartialEq, Eq)]
pub enum ArchiveError {
    /// The first four bytes are not `MPK\0`.
    BadSignature,
    /// The major version is neither 1 nor 2.
    UnsupportedVersion(u16),
    /// A name field holds no NUL, or its bytes before the NUL are not UTF-8.
    MalformedName,
    /// A name takes more bytes than its field holds.
    NameTooLong,
    /// An offset, a size or the entry count does not fit the format's field width.
    ValueTooLargeForFormat,
    /// Fewer bytes are available than the header, the table or an entry needs.
    TruncatedRead,
    /// A compressed entry does not hold a valid zlib stream.
    DecompressionError,
    /// A replacement file names no entry of the archive.
    UnknownReplacementTarget(String),
    /// A path has no parent, file name or stem where one is needed.
    InvalidPath,
    /// No entry has the requested ID.
    UnknownEntry(u32),
    /// A selection pattern is not a glob whose matcher can be built.
    InvalidPattern(String),
}

} // verus!
