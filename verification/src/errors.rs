//! How decoding fails.
//!
//! Every failure is fatal to the call that met it: a header digit that is
//! not `0` or `1`, a header cut off before its empty-line terminator, a
//! character whose byte encoding is not well formed, or a candidate bit
//! pattern grown past the longest code any table could hold. The two
//! pattern-carrying failures keep the bits collected up to the failure.

use vstd::prelude::*;

verus! {

/// A failed decode, with the offending bit pattern where one exists.
#[derive(Debug, PartialEq, Eq)]
pub enum HuffmanEncodingError {
    /// A header code digit other than `0` or `1`; carries the bits of the
    /// line collected before it.
    MalformedDigit(Vec<bool>),
    /// The input ended inside the header, before the empty line that
    /// closes it.
    TruncatedHeader,
    /// A header line that does not begin with a well-formed character
    /// encoding.
    InvalidEncoding,
    /// A candidate bit pattern longer than any code can be; carries the
    /// pattern.
    RunawayCode(Vec<bool>),
}

/// The abstract shape of a failed decode.
pub enum SpecHuffmanEncodingError {
    /// A header code digit other than `0` or `1`, with the bits collected
    /// before it.
    MalformedDigit(Seq<bool>),
    /// The input ended inside the header.
    TruncatedHeader,
    /// A header line that does not begin with a well-formed character
    /// encoding.
    InvalidEncoding,
    /// A candidate bit pattern grown too long, with the pattern.
    RunawayCode(Seq<bool>),
}

impl View for HuffmanEncodingError {
    type V = SpecHuffmanEncodingError;

    open spec fn view(&self) -> SpecHuffmanEncodingError {
        match self {
            HuffmanEncodingError::MalformedDigit(bits) => SpecHuffmanEncodingError::MalformedDigit(bits@),
            HuffmanEncodingError::TruncatedHeader => SpecHuffmanEncodingError::TruncatedHeader,
            HuffmanEncodingError::InvalidEncoding => SpecHuffmanEncodingError::InvalidEncoding,
            HuffmanEncodingError::RunawayCode(bits) => SpecHuffmanEncodingError::RunawayCode(bits@),
        }
    }
}

} // verus!
