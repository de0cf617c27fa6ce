use brotschneider::{
    BitReader, BitReaderError, BitWriter, HuffmanError, MetaBlock, MetaBlockError,
};

#[test]
fn decodes_three_literals() {
    // is_last 0, selector 00, length 0011, is_uncompressed 0, then 01 10 11.
    let mut writer = BitWriter::new();
    writer.write_bits(0, 1).unwrap();
    writer.write_bits(0, 2).unwrap();
    writer.write_bits(3, 4).unwrap();
    writer.write_bits(0, 1).unwrap();
    writer.write_bits(0b01, 2).unwrap();
    writer.write_bits(0b10, 2).unwrap();
    writer.write_bits(0b11, 2).unwrap();
    let bytes = writer.into_inner();
    assert_eq!(bytes, vec![0x06, 0x6C]);

    let mut reader = BitReader::new(&bytes);
    let block = MetaBlock::decode(&mut reader).unwrap();
    assert!(!block.header.is_last);
    assert_eq!(block.header.length, 3);
    assert!(!block.header.is_uncompressed);
    assert_eq!(block.data, vec![1, 2, 3]);
    assert!(block.data.iter().all(|&b| b <= 3));
    let tree = block.literal_huffman.unwrap();
    assert_eq!(tree.max_bits, 2);
    assert_eq!(tree.lookup, vec![0, 1, 2, 3]);
    assert_eq!(reader.read_bits(2), Ok(0));
    assert!(reader.is_empty());
}

#[test]
fn decodes_a_last_block_with_a_wide_length() {
    // is_last 1, selector 11, length 0000101, is_uncompressed 0,
    // then 00 01 10 11 00.
    let bytes = [0xE1, 0x43, 0x60];
    let mut reader = BitReader::new(&bytes);
    let block = MetaBlock::decode(&mut reader).unwrap();
    assert!(block.header.is_last);
    assert_eq!(block.header.length, 5);
    assert!(!block.header.is_uncompressed);
    assert_eq!(block.data, vec![0, 1, 2, 3, 0]);
    assert_eq!(reader.read_bits(3), Ok(0));
    assert!(reader.is_empty());
}

#[test]
fn decodes_an_empty_payload() {
    // is_last 1, selector 00, length 0000, is_uncompressed 0.
    let bytes = [0b10000000];
    let mut reader = BitReader::new(&bytes);
    let block = MetaBlock::decode(&mut reader).unwrap();
    assert!(block.header.is_last);
    assert_eq!(block.header.length, 0);
    assert_eq!(block.data, Vec::<u8>::new());
    assert!(reader.is_empty());
}

#[test]
fn decodes_two_blocks_in_a_row() {
    let mut writer = BitWriter::new();
    for (is_last, literals) in [(0u32, [3u32, 2, 1]), (1, [0, 3, 0])] {
        writer.write_bits(is_last, 1).unwrap();
        writer.write_bits(1, 2).unwrap();
        writer.write_bits(3, 5).unwrap();
        writer.write_bits(0, 1).unwrap();
        for literal in literals {
            writer.write_bits(literal, 2).unwrap();
        }
    }
    let bytes = writer.into_inner();
    let mut reader = BitReader::new(&bytes);
    let first = MetaBlock::decode(&mut reader).unwrap();
    assert!(!first.header.is_last);
    assert_eq!(first.data, vec![3, 2, 1]);
    let second = MetaBlock::decode(&mut reader).unwrap();
    assert!(second.header.is_last);
    assert_eq!(second.data, vec![0, 3, 0]);
}

#[test]
fn decodes_the_longest_payload() {
    let mut writer = BitWriter::new();
    writer.write_bits(0, 1).unwrap();
    writer.write_bits(3, 2).unwrap();
    writer.write_bits(127, 7).unwrap();
    writer.write_bits(0, 1).unwrap();
    let mut expected = Vec::new();
    for i in 0..127u32 {
        writer.write_bits(i % 4, 2).unwrap();
        expected.push((i % 4) as u8);
    }
    let bytes = writer.into_inner();
    let mut reader = BitReader::new(&bytes);
    let block = MetaBlock::decode(&mut reader).unwrap();
    assert_eq!(block.header.length, 127);
    assert_eq!(block.data, expected);
}

#[test]
fn uncompressed_block_is_refused() {
    // is_last 0, selector 00, length 0001, is_uncompressed 1.
    let bytes = [0b00000011, 0xFF];
    let mut reader = BitReader::new(&bytes);
    let r = MetaBlock::decode(&mut reader);
    assert_eq!(r.err(), Some(MetaBlockError::Unsupported));
    // The header has been consumed, the payload has not.
    assert_eq!(reader.read_bits(8), Ok(0xFF));
}

#[test]
fn header_that_breaks_off_is_refused() {
    let empty: [u8; 0] = [];
    let mut reader = BitReader::new(&empty);
    let r = MetaBlock::decode(&mut reader);
    assert_eq!(
        r.err(),
        Some(MetaBlockError::BitReader(BitReaderError::UnexpectedEndOfInput))
    );

    // Selector 01 asks for a length of five bits: nine header bits in all.
    let bytes = [0b00100000];
    let mut reader = BitReader::new(&bytes);
    let r = MetaBlock::decode(&mut reader);
    assert_eq!(
        r.err(),
        Some(MetaBlockError::BitReader(BitReaderError::UnexpectedEndOfInput))
    );
    assert!(reader.is_empty());
}

#[test]
fn payload_that_breaks_off_is_refused() {
    // is_last 0, selector 00, length 1111, is_uncompressed 0, then four
    // literals where fifteen are due.
    let bytes = [0b00011110, 0b00011011];
    let mut reader = BitReader::new(&bytes);
    let r = MetaBlock::decode(&mut reader);
    assert_eq!(
        r.err(),
        Some(MetaBlockError::Huffman(HuffmanError::BitReaderError(
            BitReaderError::UnexpectedEndOfInput
        )))
    );
    assert!(reader.is_empty());
}

#[test]
fn parses_a_header() {
    // is_last 1, selector 10, length 100001, is_uncompressed 1: ten bits.
    let bytes = [0b11010000, 0b11100000];
    let mut reader = BitReader::new(&bytes);
    let header = MetaBlock::parse_header(&mut reader).unwrap();
    assert!(header.is_last);
    assert_eq!(header.length, 33);
    assert!(header.is_uncompressed);
    assert_eq!(reader.read_bits(6), Ok(0b100000));
}

#[test]
fn parses_each_length_width() {
    for selector in 0u32..4 {
        let width = (selector + 4) as u8;
        let length = (1u32 << width) - 2;
        let mut writer = BitWriter::new();
        writer.write_bits(0, 1).unwrap();
        writer.write_bits(selector, 2).unwrap();
        writer.write_bits(length, width).unwrap();
        writer.write_bits(0, 1).unwrap();
        writer.write_bits(0b1011, 4).unwrap();
        let bytes = writer.into_inner();
        let mut reader = BitReader::new(&bytes);
        let header = MetaBlock::parse_header(&mut reader).unwrap();
        assert!(!header.is_last);
        assert_eq!(header.length, length);
        assert!(!header.is_uncompressed);
        assert_eq!(reader.read_bits(4), Ok(0b1011));
    }
}

#[test]
fn lower_errors_convert_into_block_errors() {
    let e = MetaBlockError::from(BitReaderError::UnexpectedEndOfInput);
    assert_eq!(e, MetaBlockError::BitReader(BitReaderError::UnexpectedEndOfInput));
    let e = MetaBlockError::from(HuffmanError::IncompleteTree);
    assert_eq!(e, MetaBlockError::Huffman(HuffmanError::IncompleteTree));
    let e: MetaBlockError = HuffmanError::OverfullTree(3).into();
    assert_eq!(e, MetaBlockError::Huffman(HuffmanError::OverfullTree(3)));
}
