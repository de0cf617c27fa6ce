//! A decoder core for a Brotli-style bit stream: bit-level reading and
//! writing, canonical Huffman tables, and meta-block framing.
//!
//! Bits are taken from and put into bytes most significant bit first. The
//! contracts speak of a stream as a sequence of bits (`bitseq`), of the
//! canonical code that a list of code lengths determines (`canonical`), and
//! of the lookup table of such a code (`table`).

pub mod bitreader;
pub mod bitseq;
pub mod bitwriter;
pub mod canonical;
pub mod error;
pub mod huffman;
pub mod metablock;
pub mod table;

pub use bitreader::BitReader;
pub use bitwriter::BitWriter;
pub use error::{BitReaderError, BitWriterError, HuffmanError, MetaBlockError};
pub use huffman::HuffmanTree;
pub use metablock::{MetaBlock, MetaBlockHeader};
