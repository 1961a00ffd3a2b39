use vstd::prelude::*;

verus! {

/// Why a buffer could not be decoded or a table could not be encoded.
#[derive(Debug, Clone, PartialEq, Eq)]
pub enum GxtError {
    /// The buffer ended before a fixed-size field could be read.
    UnexpectedEndOfData,
    /// A section tag was not the expected one: `at` is where the tag starts.
    MagicMismatch { at: usize, expected: [u8; 4], found: [u8; 4] },
    /// The key index size is not a multiple of the record size.
    InvalidKeyFieldSize { size: u32 },
    /// A key occurs twice in one table.
    DuplicateKey { key: String },
    /// A key is empty, longer than eight bytes, or holds a byte outside `0x20..=0x7E`.
    InvalidKey { key: String },
    /// A key slot does not hold valid UTF-8 text.
    InvalidKeyEncoding,
    /// A key's value offset lies outside the value section.
    ValueOffsetOutOfRange { key: String, offset: u32 },
    /// A key's value offset is odd.
    UnalignedValueOffset { key: String, offset: u32 },
    /// A value runs to the end of the value section without a zero terminator.
    TruncatedValue,
    /// A `\u{...}` escape names a code point above `0x10FFFF`.
    InvalidEscapeCodepoint { codepoint: u32 },
    /// The value section would not fit a 32-bit size field.
    ValueSectionTooLarge,
}

} // verus!
