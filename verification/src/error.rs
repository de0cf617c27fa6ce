//! The errors of each layer. An error of a lower layer is carried inside the
//! error of the layer that met it.

use vstd::prelude::*;
use vstd::std_specs::convert::FromSpecImpl;

verus! {

/// Errors that can occur while reading bits.
#[derive(Debug, Clone, PartialEq, Eq)]
pub enum BitReaderError {
    /// The requested width was outside `1..=32`; carries the width asked for.
    InvalidBitCount(u8),
    /// Fewer bits were left in the buffer than were asked for.
    UnexpectedEndOfInput,
}

/// Errors that can occur while writing bits.
#[derive(Debug, Clone, PartialEq, Eq)]
pub enum BitWriterError {
    /// The requested width was above 32; carries the width asked for.
    TooManyBits(u8),
}

/// Errors that can occur while building or using a Huffman table.
#[derive(Debug, Clone, PartialEq, Eq)]
pub enum HuffmanError {
    /// The code lengths claim more codes than fit; carries the longest
    /// code length.
    OverfullTree(u8),
    /// The code lengths leave part of the code space unclaimed, or the bits
    /// read belong to no symbol.
    IncompleteTree,
    /// The bits could not be read.
    BitReaderError(BitReaderError),
}

/// Errors that can occur while decoding a meta-block.
#[derive(Debug, Clone, PartialEq, Eq)]
pub enum MetaBlockError {
    /// The header could not be read.
    BitReader(BitReaderError),
    /// The payload could not be decoded.
    Huffman(HuffmanError),
    /// The block uses a feature that is not handled.
    Unsupported,
}

impl From<BitReaderError> for HuffmanError {
    fn from(e: BitReaderError) -> (r: Self) {
        HuffmanError::BitReaderError(e)
    }
}

impl FromSpecImpl<BitReaderError> for HuffmanError {
    open spec fn obeys_from_spec() -> bool {
        true
    }

    open spec fn from_spec(e: BitReaderError) -> Self {
        HuffmanError::BitReaderError(e)
    }
}

impl From<BitReaderError> for MetaBlockError {
    fn from(e: BitReaderError) -> (r: Self) {
        MetaBlockError::BitReader(e)
    }
}

impl FromSpecImpl<BitReaderError> for MetaBlockError {
    open spec fn obeys_from_spec() -> bool {
        true
    }

    open spec fn from_spec(e: BitReaderError) -> Self {
        MetaBlockError::BitReader(e)
    }
}

impl From<HuffmanError> for MetaBlockError {
    fn from(e: HuffmanError) -> (r: Self) {
        MetaBlockError::Huffman(e)
    }
}

impl FromSpecImpl<HuffmanError> for MetaBlockError {
    open spec fn obeys_from_spec() -> bool {
        true
    }

    open spec fn from_spec(e: HuffmanError) -> Self {
        MetaBlockError::Huffman(e)
    }
}

} // verus!
