//! Error reporting for encoding and decoding.

use vstd::prelude::*;

verus! {

/// The abstract error: the kind of failure and its discriminating details,
/// without the diagnostic message text.
pub enum SpecError {
    /// No recognizable begin line before the end of the stream, or a begin
    /// line whose name is not well formed.
    BadHeader,
    /// A malformed body or trailer: missing data, an invalid escape sequence
    /// under strict decoding, a part-size or part-number mismatch, or a
    /// truncated escape at the end of the stream.
    BadData,
    /// A required key absent from a parsed control line; carries the key.
    MissingField(Seq<char>),
    /// A checksum that does not match; carries both sides.
    CrcMismatch { expected: u32, actual: u32 },
}

/// Error raised by encoding or decoding.
///
/// Every variant but [`YencError::CrcMismatch`] carries a diagnostic message;
/// the abstract view of a value, [`SpecError`], is what the contracts speak
/// of.
#[derive(Debug)]
pub enum YencError {
    /// Invalid or absent yEnc header.
    InvalidHeader(String),
    /// Invalid yEnc data: body, part or trailer malformation.
    InvalidData(String),
    /// Missing required field in a control line; carries the field name.
    MissingField(String),
    /// CRC mismatch between a trailer checksum field and the computed value.
    CrcMismatch { expected: u32, actual: u32 },
}

impl View for YencError {
    type V = SpecError;

    open spec fn view(&self) -> SpecError {
        match self {
            YencError::InvalidHeader(_) => SpecError::BadHeader,
            YencError::InvalidData(_) => SpecError::BadData,
            YencError::MissingField(f) => SpecError::MissingField(f@),
            YencError::CrcMismatch { expected, actual } => SpecError::CrcMismatch {
                expected: *expected,
                actual: *actual,
            },
        }
    }
}

impl YencError {
    /// The diagnostic message of this error, for display at a boundary.
    pub fn message(&self) -> String {
        match self {
            YencError::InvalidHeader(m) => m.clone(),
            YencError::InvalidData(m) => m.clone(),
            YencError::MissingField(f) => f.clone(),
            YencError::CrcMismatch { .. } => String::from_str("CRC mismatch"),
        }
    }
}

} // verus!
