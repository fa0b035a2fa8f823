//! The ways in which a record line or a storage operation is refused.

use vstd::prelude::*;

verus! {

/// Why a text line was rejected by a codec, or a storage operation by the store.
#[derive(Clone, Copy, Debug, PartialEq, Eq, Structural)]
pub enum HexError {
    /// The line does not begin with the start character of its format.
    InvalidSigil,
    /// The text after the prefix is not an even number of hexadecimal digits.
    MalformedHex,
    /// The decoded record holds fewer bytes than the smallest record.
    LineTooShort,
    /// The byte count of the record disagrees with the number of bytes decoded.
    LengthMismatch,
    /// The trailing checksum byte is not the one computed from the record.
    ChecksumMismatch,
    /// The S-record type is not the 16-bit-address data record.
    UnsupportedRecordType,
    /// The address, or the end of the span, lies outside the address space.
    AddressOutOfRange,
    /// The span does not fit in the sector in which it begins.
    SpanCrossesSectorBoundary,
}

impl HexError {
    /// A short description of the error, for messages.
    pub fn message(&self) -> (text: &'static str)
        ensures
            text@ == self.message_spec()@,
    {
        match self {
            HexError::InvalidSigil => "Invalid start code",
            HexError::MalformedHex => "Malformed hexadecimal text",
            HexError::LineTooShort => "Line too short",
            HexError::LengthMismatch => "Data length mismatch",
            HexError::ChecksumMismatch => "Invalid checksum",
            HexError::UnsupportedRecordType => "Unsupported record type",
            HexError::AddressOutOfRange => "Address out of range",
            HexError::SpanCrossesSectorBoundary => "Span crosses a sector boundary",
        }
    }

    /// The description that belongs to each error.
    pub open spec fn message_spec(&self) -> &'static str {
        match self {
            HexError::InvalidSigil => "Invalid start code",
            HexError::MalformedHex => "Malformed hexadecimal text",
            HexError::LineTooShort => "Line too short",
            HexError::LengthMismatch => "Data length mismatch",
            HexError::ChecksumMismatch => "Invalid checksum",
            HexError::UnsupportedRecordType => "Unsupported record type",
            HexError::AddressOutOfRange => "Address out of range",
            HexError::SpanCrossesSectorBoundary => "Span crosses a sector boundary",
        }
    }
}

} // verus!
