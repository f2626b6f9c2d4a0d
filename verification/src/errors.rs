//! The errors the archive code reports.

use vstd::prelude::*;
use crate::text::{decimal, decimal_spec};

verus! {

/// The kinds of I/O failure the format code reports.
#[derive(Clone, Copy, Debug, PartialEq, Eq, Structural)]
pub enum IoErrorKind {
    /// The input ended before a record was complete.
    UnexpectedEof,
    /// The input holds bytes that do not form a valid record.
    InvalidData,
    /// A value handed to an encoder cannot be represented.
    InvalidInput,
    /// The operation was cancelled.
    Interrupted,
    /// A path was added twice.
    AlreadyExists,
    /// Any other failure.
    Other,
}

/// An I/O-style failure: a kind and a static description.
#[derive(Clone, Copy, Debug, PartialEq, Eq)]
pub struct IoError {
    pub kind: IoErrorKind,
    pub message: &'static str,
}

impl IoError {
    pub fn new(kind: IoErrorKind, message: &'static str) -> (e: IoError)
        ensures
            e.kind == kind,
            e.message == message,
    {
        IoError { kind, message }
    }

    pub fn kind(&self) -> (k: IoErrorKind)
        ensures
            k == self.kind,
    {
        self.kind
    }
}

/// Every error the archive code reports.
#[derive(Debug)]
pub enum ArchiveError {
    Io(IoError),
    Compress,
    Decompress,
    StringTableOverflow,
    Format(String),
    HashMismatch(&'static str),
    UnsupportedCompression(u8),
    UnsupportedSignature(u32),
    InvalidSignature,
    IndexOutOfBounds(&'static str),
}

impl ArchiveError {
    /// The human-readable description of the error: a fixed text for the
    /// variant, followed by its detail (the number of an unsupported codec
    /// or signature type, in decimal).
    pub fn to_string(&self) -> (s: String)
        ensures
            match self {
                ArchiveError::Io(e) => s@ == "IO error: "@ + e.message@,
                ArchiveError::Compress => s@ == "Compression error"@,
                ArchiveError::Decompress => s@ == "Decompression error"@,
                ArchiveError::StringTableOverflow => s@ == "String table overflow"@,
                ArchiveError::Format(m) => s@ == "Archive format error: "@ + m@,
                ArchiveError::HashMismatch(m) => s@ == "Checksum mismatch: "@ + m@,
                ArchiveError::UnsupportedCompression(c) => s@ == "Unsupported compression type: "@
                    + decimal_spec(*c as nat),
                ArchiveError::UnsupportedSignature(t) => s@ == "Unsupported signature type: "@
                    + decimal_spec(*t as nat),
                ArchiveError::InvalidSignature => s@ == "Signature verification failed"@,
                ArchiveError::IndexOutOfBounds(m) => s@ == "Index out of bounds: "@ + m@,
            },
    {
        match self {
            ArchiveError::Io(e) => String::from_str("IO error: ").concat(e.message),
            ArchiveError::Compress => String::from_str("Compression error"),
            ArchiveError::Decompress => String::from_str("Decompression error"),
            ArchiveError::StringTableOverflow => String::from_str("String table overflow"),
            ArchiveError::Format(m) => String::from_str("Archive format error: ").concat(m.as_str()),
            ArchiveError::HashMismatch(m) => String::from_str("Checksum mismatch: ").concat(m),
            ArchiveError::UnsupportedCompression(c) => String::from_str(
                "Unsupported compression type: ",
            ).concat(decimal(*c as u64).as_str()),
            ArchiveError::UnsupportedSignature(s) => String::from_str(
                "Unsupported signature type: ",
            ).concat(decimal(*s as u64).as_str()),
            ArchiveError::InvalidSignature => String::from_str("Signature verification failed"),
            ArchiveError::IndexOutOfBounds(m) => String::from_str("Index out of bounds: ").concat(m),
        }
    }
}

} // verus!
