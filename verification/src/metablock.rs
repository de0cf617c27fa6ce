//! Meta-block framing: a header of a few bits, then a payload of literals.
//!
//! The header is laid out as one bit that marks the last block, a two-bit
//! selector, a length field of four to seven bits as the selector says, and
//! one bit that marks an uncompressed block. The payload holds as many
//! literal codes as the length field says.

use vstd::prelude::*;
use vstd::arithmetic::power2::{pow2, lemma2_to64};
use crate::bitreader::BitReader;
use crate::bitseq::{bits_value, lemma_bits_value_bound, lemma_bits_value_single};
use crate::canonical::{
    code_of,
    count_with_length,
    kraft_sum,
    lemma_count_step,
    lemma_max_length_of_take,
    lemma_used_codes_is_kraft_sum,
    max_length,
    used_codes,
};
use crate::error::{BitReaderError, HuffmanError, MetaBlockError};
use crate::huffman::HuffmanTree;
use crate::table::{
    canonical_table,
    decode_advance,
    decode_outcome,
    lemma_decode_matches_construction,
    lemma_entry_of_spelled,
    lemma_small_alphabet_sibling,
};

verus! {

/// The header of a meta-block.
pub struct MetaBlockHeader {
    /// Whether this is the last block of the stream.
    pub is_last: bool,
    /// How many literals the payload holds.
    pub length: u32,
    /// Whether the payload is stored without compression.
    pub is_uncompressed: bool,
}

/// A decoded meta-block.
pub struct MetaBlock {
    /// The header as it was read.
    pub header: MetaBlockHeader,
    /// The table that the literals were decoded with.
    pub literal_huffman: Option<HuffmanTree>,
    /// The literals of the payload, one byte each.
    pub data: Vec<u8>,
}

/// The width in bits of the length field of the header that `bits` begins
/// with: four plus the two-bit selector.
pub open spec fn length_width(bits: Seq<bool>) -> nat {
    4 + bits_value(bits.subrange(1, 3))
}

/// The number of bits in the header that `bits` begins with.
pub open spec fn header_len(bits: Seq<bool>) -> nat {
    4 + length_width(bits)
}

/// `bits` holds a whole header.
pub open spec fn header_complete(bits: Seq<bool>) -> bool {
    bits.len() >= 3 && bits.len() >= header_len(bits)
}

/// The header that `bits` begins with.
pub open spec fn header_of(bits: Seq<bool>) -> MetaBlockHeader {
    MetaBlockHeader {
        is_last: bits[0],
        length: bits_value(bits.subrange(3, 3 + length_width(bits) as int)) as u32,
        is_uncompressed: bits[3 + length_width(bits) as int],
    }
}

/// The code lengths of the literal code: four symbols of two bits each.
pub open spec fn literal_code_lengths() -> Seq<u8> {
    seq![2u8, 2u8, 2u8, 2u8]
}

/// The number of bits in a literal code.
pub open spec fn literal_width() -> nat {
    2
}

/// Literal `i` of the payload of the block that `bits` begins with: the
/// number that its two bits spell.
pub open spec fn literal_at(bits: Seq<bool>, i: int) -> u8 {
    bits_value(
        bits.subrange(
            header_len(bits) + literal_width() * i,
            header_len(bits) + literal_width() * i + literal_width(),
        ),
    ) as u8
}

/// The payload of the block that `bits` begins with.
pub open spec fn payload_of(bits: Seq<bool>) -> Seq<u8> {
    Seq::new(header_of(bits).length as nat, |i: int| literal_at(bits, i))
}

/// The number of bits in the block that `bits` begins with, header and
/// payload.
pub open spec fn block_len(bits: Seq<bool>) -> nat {
    header_len(bits) + literal_width() * (header_of(bits).length as nat)
}

/// Why the block that `bits` begins with cannot be decoded, if it cannot.
pub open spec fn block_error(bits: Seq<bool>) -> Option<MetaBlockError> {
    if !header_complete(bits) {
        Some(MetaBlockError::BitReader(BitReaderError::UnexpectedEndOfInput))
    } else if header_of(bits).is_uncompressed {
        Some(MetaBlockError::Unsupported)
    } else if bits.len() < block_len(bits) {
        Some(
            MetaBlockError::Huffman(
                HuffmanError::BitReaderError(BitReaderError::UnexpectedEndOfInput),
            ),
        )
    } else {
        None
    }
}

/// The bits still unread after decoding the block that `bits` begins with.
/// A header that breaks off leaves nothing; an uncompressed block is left
/// after its header; a payload that breaks off is left after its last whole
/// literal.
pub open spec fn block_rest(bits: Seq<bool>) -> Seq<bool> {
    if !header_complete(bits) {
        Seq::empty()
    } else if header_of(bits).is_uncompressed {
        bits.skip(header_len(bits) as int)
    } else if bits.len() < block_len(bits) {
        bits.skip(header_len(bits) + literal_width() * ((bits.len() - header_len(bits)) / 2))
    } else {
        bits.skip(block_len(bits) as int)
    }
}

/// The literal code is complete, and each symbol's code is the symbol's own
/// number.
proof fn lemma_literal_code()
    ensures
        max_length(literal_code_lengths()) == 2,
        kraft_sum(literal_code_lengths(), 2) == pow2(2),
        pow2(2) == 4,
        pow2(0) == 1,
        forall|s: int| 0 <= s < 4 ==> code_of(literal_code_lengths(), s) == s,
{
    let lens = literal_code_lengths();
    lemma2_to64();
    assert(lens.len() == 4);
    assert(lens.take(4) =~= lens);
    assert(lens.take(0).len() == 0);
    lemma_count_step(lens, 0, 1);
    lemma_count_step(lens, 1, 1);
    lemma_count_step(lens, 2, 1);
    lemma_count_step(lens, 3, 1);
    lemma_count_step(lens, 0, 2);
    lemma_count_step(lens, 1, 2);
    lemma_count_step(lens, 2, 2);
    lemma_count_step(lens, 3, 2);
    assert(count_with_length(lens, 1) == 0);
    assert(count_with_length(lens, 2) == 4);
    assert(used_codes(lens, 0) == 0);
    assert(used_codes(lens, 1) == 0);
    assert(used_codes(lens, 2) == 4);
    lemma_used_codes_is_kraft_sum(lens, 2);
    lemma_max_length_of_take(lens, 0);
    lemma_max_length_of_take(lens, 1);
    lemma_max_length_of_take(lens, 2);
    lemma_max_length_of_take(lens, 3);
    assert(max_length(lens.take(0)) == 0);
}

/// The table of the literal code holds each symbol at its own pattern.
proof fn lemma_literal_table()
    ensures
        canonical_table(literal_code_lengths()) == seq![0u16, 1u16, 2u16, 3u16],
{
    let lens = literal_code_lengths();
    let table = canonical_table(lens);
    lemma_literal_code();
    assert forall|w: int| 0 <= w < 4 implies #[trigger] table[w] == w by {
        assert(w / (pow2(0) as int) == w);
        lemma_entry_of_spelled(lens, w, w);
    }
    assert(table =~= seq![0u16, 1u16, 2u16, 3u16]);
}

/// Decoding a literal takes the next two bits and returns the number they
/// spell.
proof fn lemma_literal_decode(table: Seq<u16>, bits: Seq<bool>)
    requires
        table == canonical_table(literal_code_lengths()),
        bits.len() >= 2,
    ensures
        decode_outcome(table, 2, bits) == Ok::<u16, HuffmanError>(
            bits_value(bits.take(2)) as u16,
        ),
        decode_advance(table, 2, bits) == 2,
        bits_value(bits.take(2)) < 4,
{
    let lens = literal_code_lengths();
    lemma_literal_code();
    lemma_bits_value_bound(bits.take(2));
    let s = bits_value(bits.take(2)) as int;
    lemma_small_alphabet_sibling(lens, s);
    lemma_decode_matches_construction(lens, s, bits);
}

impl MetaBlock {
    /// Decodes one meta-block from the stream: its header, then as many
    /// literals as the header says.
    ///
    /// An uncompressed block is refused once its header has been read.
    pub fn decode(reader: &mut BitReader) -> (r: Result<Self, MetaBlockError>)
        ensures
            match r {
                Ok(block) => {
                    &&& block_error(old(reader)@) is None
                    &&& block.header == header_of(old(reader)@)
                    &&& block.data@ == payload_of(old(reader)@)
                    &&& block.literal_huffman matches Some(tree) && tree.max_bits == 2
                        && tree.lookup@ == seq![0u16, 1u16, 2u16, 3u16]
                },
                Err(e) => block_error(old(reader)@) == Some(e),
            },
            final(reader)@ == block_rest(old(reader)@),
    {
        let ghost stream = reader@;
        let header = match MetaBlock::parse_header(reader) {
            Ok(header) => header,
            Err(e) => {
                return Err(e);
            },
        };

        if header.is_uncompressed {
            return Err(MetaBlockError::Unsupported);
        }
        let lengths: [u8; 4] = [2, 2, 2, 2];
        proof {
            assert(lengths@ =~= literal_code_lengths());
            lemma_literal_code();
        }
        let tree = match HuffmanTree::from_code_lengths(&lengths) {
            Ok(tree) => tree,
            Err(e) => {
                return Err(MetaBlockError::from(e));
            },
        };

        let ghost start = header_len(stream) as int;
        let mut data: Vec<u8> = Vec::new();
        let mut i: u32 = 0;
        while i < header.length
            invariant
                i <= header.length,
                header == header_of(stream),
                header_complete(stream),
                !header.is_uncompressed,
                stream == old(reader)@,
                start == header_len(stream),
                tree.max_bits == 2,
                tree.lookup@ == canonical_table(literal_code_lengths()),
                tree.well_formed(),
                start + 2 * i <= stream.len(),
                reader@ == stream.skip(start + 2 * i),
                data@.len() == i,
                forall|k: int| 0 <= k < i ==> #[trigger] data@[k] == literal_at(stream, k),
            decreases header.length - i,
        {
            let ghost unread = reader@;
            proof {
                if unread.len() >= 2 {
                    lemma_literal_decode(tree.lookup@, unread);
                    assert(unread.take(2) =~= stream.subrange(start + 2 * i, start + 2 * i + 2));
                    assert(unread.skip(2) =~= stream.skip(start + 2 * (i + 1)));
                } else {
                    assert(unread.skip(0) =~= unread);
                    assert((stream.len() - start) / 2 == i as int);
                }
            }
            match tree.decode_symbol(reader) {
                Ok(symbol) => {
                    data.push(symbol as u8);
                },
                Err(e) => {
                    return Err(MetaBlockError::from(e));
                },
            }
            i += 1;
        }

        proof {
            assert(data@ =~= payload_of(stream));
            lemma_literal_table();
        }
        Ok(MetaBlock { header, literal_huffman: Some(tree), data })
    }

    /// Reads the header of a meta-block.
    ///
    /// A header that breaks off leaves the reader at the end of its buffer.
    pub fn parse_header(reader: &mut BitReader) -> (r: Result<MetaBlockHeader, MetaBlockError>)
        ensures
            header_complete(old(reader)@) ==> r == Ok::<MetaBlockHeader, MetaBlockError>(
                header_of(old(reader)@),
            ) && final(reader)@ == old(reader)@.skip(header_len(old(reader)@) as int),
            !header_complete(old(reader)@) ==> r == Err::<MetaBlockHeader, MetaBlockError>(
                MetaBlockError::BitReader(BitReaderError::UnexpectedEndOfInput),
            ) && final(reader)@ == Seq::<bool>::empty(),
    {
        let ghost stream = reader@;
        proof {
            lemma2_to64();
        }
        let is_last: bool = match reader.read_bits(1) {
            Ok(bit) => bit != 0,
            Err(e) => {
                return Err(MetaBlockError::from(e));
            },
        };
        proof {
            lemma_bits_value_single(stream.take(1));
        }
        let selector: u32 = match reader.read_bits(2) {
            Ok(selector) => selector,
            Err(e) => {
                return Err(MetaBlockError::from(e));
            },
        };
        proof {
            assert(stream.skip(1).take(2) =~= stream.subrange(1, 3));
            assert(stream.skip(1).skip(2) =~= stream.skip(3));
            lemma_bits_value_bound(stream.subrange(1, 3));
        }
        let length_nbits: u32 = selector + 4;
        let ghost width = length_nbits as int;
        let length: u32 = match reader.read_bits(length_nbits as u8) {
            Ok(length) => length,
            Err(e) => {
                return Err(MetaBlockError::from(e));
            },
        };
        proof {
            assert(stream.skip(3).take(width) =~= stream.subrange(3, 3 + width));
            assert(stream.skip(3).skip(width) =~= stream.skip(3 + width));
        }
        let is_uncompressed: bool = match reader.read_bits(1) {
            Ok(bit) => bit != 0,
            Err(e) => {
                return Err(MetaBlockError::from(e));
            },
        };
        proof {
            lemma_bits_value_single(stream.skip(3 + width).take(1));
            assert(stream.skip(3 + width).skip(1) =~= stream.skip(4 + width));
        }

        Ok(MetaBlockHeader { is_last, length, is_uncompressed })
    }
}

} // verus!
