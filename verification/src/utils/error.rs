//! The errors the library reports.
use vstd::prelude::*;

verus! {

/// Something an archive asks for that this build does not provide.
#[derive(Debug, Clone, Copy, PartialEq, Eq, Structural)]
#[non_exhaustive]
pub enum Unsupported {
    /// A compression method, by its ZIP method number.
    CompressionMethod(u16),
    /// A feature of a container or a coder.
    Other,
}

/// Why an operation failed.
#[derive(Debug, Clone, Copy, PartialEq, Eq, Structural)]
#[allow(inconsistent_fields)]
#[non_exhaustive]
pub enum Error {
    /// The data does not follow its format.
    Malformed,
    /// The data is well formed but asks for something this build lacks.
    Unsupported(Unsupported),
    /// A stored checksum does not match the data.
    ChecksumMismatch {
        /// The checksum the archive records.
        expected: u32,
        /// The checksum of the data.
        found: u32,
    },
    /// A stored size does not match the data.
    SizeMismatch {
        /// The size the archive records.
        expected: u64,
        /// The size of the data.
        found: u64,
    },
    /// The password does not open the entry.
    WrongPassword,
    /// The authentication code does not match the data.
    AuthenticationFailed,
}

/// The archive is in no format this build knows.
#[derive(Debug, Clone, PartialEq, Eq)]
pub struct UnknownFormat {
    /// Where the archive is, if it is a file.
    pub path: Option<String>,
}

/// A result whose error is [`Error`].
pub type Result<T> = std::result::Result<T, Error>;

/// One part's content before that of the rest.
pub open spec fn joined(
    out: Seq<u8>,
    rest: std::result::Result<Seq<u8>, Error>,
) -> std::result::Result<Seq<u8>, Error> {
    match rest {
        Ok(more) => Ok(out + more),
        Err(e) => Err(e),
    }
}

} // verus!
