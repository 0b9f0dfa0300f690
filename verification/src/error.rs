//! The error type shared by every stage of the decode pipeline.

use vstd::prelude::*;

verus! {

/// Errors that can occur while decoding an FCS byte stream.
///
/// Every error is terminal: the whole read is aborted and no partial
/// result is produced.
#[derive(Debug)]
pub enum FcsError {
    /// The byte stream ended before a read could be satisfied.
    IoError,
    /// The header bytes are not decodable as a 58-column text line, or a
    /// required numeric field is non-empty but unparsable.
    InvalidHeader,
    /// The header's version string is not in the supported set; carries
    /// the offending version string.
    InvalidVersion(String),
    /// The text-segment bytes are not decodable as text, or the text
    /// segment's offsets cannot hold a delimiter and a payload.
    InvalidMetadata,
    /// A required keyword is absent from the metadata dictionary, or a
    /// keyword needed by the data stage is absent; carries a description
    /// naming the keyword.
    InvalidText(String),
    /// A data-stage precondition failed: non-list mode, unsupported data
    /// type or bit width, zero decode capacity, undeterminable byte
    /// order, a malformed numeric field, or a shape mismatch at assembly.
    InvalidData(String),
}

/// The mathematical value of an [`FcsError`]: the same variants with the
/// carried strings abstracted to character sequences.
pub ghost enum ErrorV {
    IoError,
    InvalidHeader,
    InvalidVersion(Seq<char>),
    InvalidMetadata,
    InvalidText(Seq<char>),
    InvalidData(Seq<char>),
}

impl View for FcsError {
    type V = ErrorV;

    open spec fn view(&self) -> ErrorV {
        match self {
            FcsError::IoError => ErrorV::IoError,
            FcsError::InvalidHeader => ErrorV::InvalidHeader,
            FcsError::InvalidVersion(s) => ErrorV::InvalidVersion(s@),
            FcsError::InvalidMetadata => ErrorV::InvalidMetadata,
            FcsError::InvalidText(s) => ErrorV::InvalidText(s@),
            FcsError::InvalidData(s) => ErrorV::InvalidData(s@),
        }
    }
}

} // verus!
