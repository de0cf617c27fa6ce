use brotschneider::{BitReader, BitReaderError};

#[test]
fn reads_high_nibble_first() {
    let data = [0b11001100, 0b10101010];
    let mut reader = BitReader::new(&data);
    assert_eq!(reader.read_bits(4), Ok(0b1100));
}

#[test]
fn align_moves_to_next_byte() {
    let data = [0b11001100, 0b10101010];
    let mut reader = BitReader::new(&data);
    assert_eq!(reader.read_bits(4), Ok(12));
    reader.align_to_byte();
    assert_eq!(reader.read_bits(4), Ok(0b1010));
    assert_eq!(reader.read_bits(4), Ok(0b1010));
    assert!(reader.is_empty());
}

#[test]
fn align_is_idempotent() {
    let data = [0xFF, 0x0F];
    let mut reader = BitReader::new(&data);
    reader.align_to_byte();
    assert_eq!(reader.peek_bits(8), Ok(0xFF));
    assert_eq!(reader.read_bits(3), Ok(0b111));
    reader.align_to_byte();
    reader.align_to_byte();
    assert_eq!(reader.read_bits(8), Ok(0x0F));
    reader.align_to_byte();
    assert!(reader.is_empty());
}

#[test]
fn zero_width_is_refused() {
    let data = [0xA5];
    let mut reader = BitReader::new(&data);
    assert_eq!(reader.read_bits(0), Err(BitReaderError::InvalidBitCount(0)));
    assert_eq!(reader.peek_bits(0), Err(BitReaderError::InvalidBitCount(0)));
    assert_eq!(reader.read_bits(8), Ok(0xA5));
}

#[test]
fn width_above_32_is_refused() {
    let data = [1, 2, 3, 4, 5];
    let mut reader = BitReader::new(&data);
    assert_eq!(reader.read_bits(33), Err(BitReaderError::InvalidBitCount(33)));
    assert_eq!(reader.read_bits(255), Err(BitReaderError::InvalidBitCount(255)));
    assert_eq!(reader.peek_bits(33), Err(BitReaderError::InvalidBitCount(33)));
    assert_eq!(reader.read_bits(32), Ok(0x01020304));
}

#[test]
fn empty_buffer_has_nothing_to_read() {
    let data: [u8; 0] = [];
    let mut reader = BitReader::new(&data);
    assert!(reader.is_empty());
    assert_eq!(reader.peek_bits(1), Err(BitReaderError::UnexpectedEndOfInput));
    assert_eq!(reader.read_bits(1), Err(BitReaderError::UnexpectedEndOfInput));
    assert_eq!(reader.read_bits(32), Err(BitReaderError::UnexpectedEndOfInput));
    assert!(reader.is_empty());
}

#[test]
fn exhausted_buffer_has_nothing_to_read() {
    let data = [0b11001100, 0b10101010];
    let mut reader = BitReader::new(&data);
    assert_eq!(reader.read_bits(16), Ok(0b1100110010101010));
    assert!(reader.is_empty());
    assert_eq!(reader.read_bits(1), Err(BitReaderError::UnexpectedEndOfInput));
}

#[test]
fn read_past_the_end_leaves_the_reader_at_the_end() {
    let data = [0xAB, 0xCD];
    let mut reader = BitReader::new(&data);
    assert_eq!(reader.read_bits(4), Ok(0xA));
    assert!(!reader.is_empty());
    assert_eq!(reader.read_bits(13), Err(BitReaderError::UnexpectedEndOfInput));
    assert!(reader.is_empty());
    assert_eq!(reader.read_bits(1), Err(BitReaderError::UnexpectedEndOfInput));
}

#[test]
fn reads_across_byte_boundaries() {
    let data = [0xAB, 0xCD, 0xEF, 0x12, 0x34];
    let mut reader = BitReader::new(&data);
    assert_eq!(reader.read_bits(4), Ok(0xA));
    assert_eq!(reader.read_bits(32), Ok(0xBCDEF123));
    assert!(!reader.is_empty());
    assert_eq!(reader.read_bits(4), Ok(0x4));
    assert!(reader.is_empty());
}

#[test]
fn reads_single_bits_in_order() {
    let data = [0b10110001];
    let mut reader = BitReader::new(&data);
    let expected = [1, 0, 1, 1, 0, 0, 0, 1];
    for bit in expected {
        assert_eq!(reader.read_bits(1), Ok(bit));
    }
    assert!(reader.is_empty());
}

#[test]
fn reads_full_width() {
    let data = [0xFF, 0xFF, 0xFF, 0xFF, 0x80];
    let mut reader = BitReader::new(&data);
    assert_eq!(reader.read_bits(32), Ok(u32::MAX));
    assert_eq!(reader.read_bits(1), Ok(1));
    assert_eq!(reader.read_bits(7), Ok(0));
}

#[test]
fn reads_odd_widths() {
    let data = [0b10100110, 0b01111000, 0b11010101];
    let mut reader = BitReader::new(&data);
    assert_eq!(reader.read_bits(3), Ok(0b101));
    assert_eq!(reader.read_bits(7), Ok(0b0011001));
    assert_eq!(reader.read_bits(11), Ok(0b11100011010));
    assert_eq!(reader.read_bits(3), Ok(0b101));
    assert!(reader.is_empty());
}

#[test]
fn peek_does_not_consume() {
    let data = [0b11001100, 0b10101010];
    let mut reader = BitReader::new(&data);
    assert_eq!(reader.read_bits(3), Ok(0b110));
    let first = reader.peek_bits(9);
    let second = reader.peek_bits(9);
    assert_eq!(first, Ok(0b011001010));
    assert_eq!(first, second);
    assert_eq!(reader.peek_bits(2), Ok(0b01));
    assert_eq!(reader.read_bits(9), first);
    assert_eq!(reader.read_bits(4), Ok(0b1010));
    assert!(reader.is_empty());
}

#[test]
fn peek_past_the_end_does_not_consume() {
    let data = [0x5A];
    let mut reader = BitReader::new(&data);
    assert_eq!(reader.read_bits(2), Ok(0b01));
    assert_eq!(reader.peek_bits(7), Err(BitReaderError::UnexpectedEndOfInput));
    assert!(!reader.is_empty());
    assert_eq!(reader.read_bits(6), Ok(0b011010));
}

#[test]
fn skip_moves_past_bits() {
    let data = [0xAB, 0xCD, 0xEF];
    let mut reader = BitReader::new(&data);
    assert_eq!(reader.skip_bits(0), Ok(()));
    assert_eq!(reader.peek_bits(8), Ok(0xAB));
    assert_eq!(reader.skip_bits(4), Ok(()));
    assert_eq!(reader.read_bits(4), Ok(0xB));
    assert_eq!(reader.skip_bits(6), Ok(()));
    assert_eq!(reader.read_bits(6), Ok(0b011110));
    assert_eq!(reader.skip_bits(4), Ok(()));
    assert!(reader.is_empty());
    assert_eq!(reader.skip_bits(0), Ok(()));
}

#[test]
fn skip_of_whole_bytes() {
    let data = [0x01, 0x02, 0x03, 0x04];
    let mut reader = BitReader::new(&data);
    assert_eq!(reader.read_bits(3), Ok(0));
    assert_eq!(reader.skip_bits(16), Ok(()));
    assert_eq!(reader.read_bits(13), Ok(0x0304 & 0x1FFF));
    assert!(reader.is_empty());
}

#[test]
fn skip_past_the_end_fails() {
    let data = [0xAB, 0xCD];
    let mut reader = BitReader::new(&data);
    assert_eq!(reader.read_bits(5), Ok(0b10101));
    assert_eq!(reader.skip_bits(12), Err(BitReaderError::UnexpectedEndOfInput));
    assert!(reader.is_empty());
    let mut other = BitReader::new(&data);
    assert_eq!(other.skip_bits(usize::MAX), Err(BitReaderError::UnexpectedEndOfInput));
    assert!(other.is_empty());
    let mut exact = BitReader::new(&data);
    assert_eq!(exact.skip_bits(16), Ok(()));
    assert!(exact.is_empty());
    assert_eq!(exact.skip_bits(1), Err(BitReaderError::UnexpectedEndOfInput));
}

#[test]
fn clone_reads_from_the_same_place() {
    let data = [0x12, 0x34];
    let mut reader = BitReader::new(&data);
    assert_eq!(reader.read_bits(4), Ok(1));
    let mut copy = reader.clone();
    assert_eq!(copy.read_bits(12), Ok(0x234));
    assert!(copy.is_empty());
    assert!(!reader.is_empty());
    assert_eq!(reader.read_bits(12), Ok(0x234));
}

#[test]
fn is_empty_tracks_the_position() {
    let data = [0b11001100, 0b10101010];
    let mut reader = BitReader::new(&data);
    assert!(!reader.is_empty());
    assert_eq!(reader.read_bits(15), Ok(0b110011001010101));
    assert!(!reader.is_empty());
    assert_eq!(reader.read_bits(1), Ok(0));
    assert!(reader.is_empty());
}
