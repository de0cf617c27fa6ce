use brotschneider::{BitReader, BitWriter, BitWriterError};

#[test]
fn writes_one_byte() {
    let mut writer = BitWriter::new();
    assert_eq!(writer.write_bits(0b10101010, 8), Ok(()));
    assert_eq!(writer.into_inner(), vec![0b10101010]);
}

#[test]
fn new_writer_is_empty() {
    let writer = BitWriter::new();
    assert_eq!(writer.into_inner(), Vec::<u8>::new());
    let writer = BitWriter::default();
    assert_eq!(writer.into_inner(), Vec::<u8>::new());
}

#[test]
fn writer_with_capacity_is_empty() {
    let writer = BitWriter::with_capacity(10);
    assert_eq!(writer.into_inner(), Vec::<u8>::new());
}

#[test]
fn writer_with_capacity_starts_from_a_clear_byte() {
    let mut writer = BitWriter::with_capacity(4);
    assert_eq!(writer.write_bits(0, 8), Ok(()));
    assert_eq!(writer.write_bits(0b101, 3), Ok(()));
    assert_eq!(writer.into_inner(), vec![0x00, 0b10100000]);
}

#[test]
fn zero_width_writes_nothing() {
    let mut writer = BitWriter::new();
    assert_eq!(writer.write_bits(0xFFFF_FFFF, 0), Ok(()));
    assert_eq!(writer.write_bits(0b11, 2), Ok(()));
    assert_eq!(writer.write_bits(0xFFFF_FFFF, 0), Ok(()));
    assert_eq!(writer.into_inner(), vec![0b11000000]);
}

#[test]
fn width_above_32_is_refused_and_writes_nothing() {
    let mut writer = BitWriter::new();
    assert_eq!(writer.write_bits(1, 33), Err(BitWriterError::TooManyBits(33)));
    assert_eq!(writer.write_bits(1, 255), Err(BitWriterError::TooManyBits(255)));
    assert_eq!(writer.write_bits(0b1, 1), Ok(()));
    assert_eq!(writer.into_inner(), vec![0b10000000]);
}

#[test]
fn partial_byte_is_padded_with_zeros() {
    let mut writer = BitWriter::new();
    assert_eq!(writer.write_bits(0b101, 3), Ok(()));
    assert_eq!(writer.into_inner(), vec![0b10100000]);
}

#[test]
fn writes_across_byte_boundaries() {
    let mut writer = BitWriter::new();
    assert_eq!(writer.write_bits(0xA, 4), Ok(()));
    assert_eq!(writer.write_bits(0xBCDEF123, 32), Ok(()));
    assert_eq!(writer.write_bits(0x4, 4), Ok(()));
    assert_eq!(writer.into_inner(), vec![0xAB, 0xCD, 0xEF, 0x12, 0x34]);
}

#[test]
fn writes_odd_widths() {
    let mut writer = BitWriter::new();
    assert_eq!(writer.write_bits(0b101, 3), Ok(()));
    assert_eq!(writer.write_bits(0b0011001, 7), Ok(()));
    assert_eq!(writer.write_bits(0b11100011010, 11), Ok(()));
    assert_eq!(writer.write_bits(0b101, 3), Ok(()));
    assert_eq!(writer.into_inner(), vec![0b10100110, 0b01111000, 0b11010101]);
}

#[test]
fn bits_above_the_width_are_ignored() {
    let mut writer = BitWriter::new();
    assert_eq!(writer.write_bits(0xFFFF_FFF5, 4), Ok(()));
    assert_eq!(writer.write_bits(0xABCD_0003, 12), Ok(()));
    assert_eq!(writer.into_inner(), vec![0x50, 0x03]);
}

#[test]
fn flush_completes_the_byte() {
    let mut writer = BitWriter::new();
    assert_eq!(writer.write_bits(0b11, 2), Ok(()));
    assert_eq!(writer.flush(), Ok(()));
    assert_eq!(writer.write_bits(0b11, 2), Ok(()));
    assert_eq!(writer.into_inner(), vec![0b11000000, 0b11000000]);
}

#[test]
fn flush_without_pending_bits_does_nothing() {
    let mut writer = BitWriter::new();
    assert_eq!(writer.flush(), Ok(()));
    assert_eq!(writer.write_bits(0xAB, 8), Ok(()));
    assert_eq!(writer.flush(), Ok(()));
    assert_eq!(writer.flush(), Ok(()));
    assert_eq!(writer.write_bits(0b1, 1), Ok(()));
    assert_eq!(writer.flush(), Ok(()));
    assert_eq!(writer.flush(), Ok(()));
    assert_eq!(writer.into_inner(), vec![0xAB, 0x80]);
}

#[test]
fn writes_full_width() {
    let mut writer = BitWriter::new();
    assert_eq!(writer.write_bits(u32::MAX, 32), Ok(()));
    assert_eq!(writer.write_bits(1, 1), Ok(()));
    assert_eq!(writer.into_inner(), vec![0xFF, 0xFF, 0xFF, 0xFF, 0x80]);
}

#[test]
fn written_value_reads_back() {
    let cases: [(u32, u8); 12] = [
        (0, 1),
        (1, 1),
        (0b101, 3),
        (0x7F, 7),
        (0xFF, 8),
        (0x100, 9),
        (0x1234, 13),
        (0xFFFF, 16),
        (0x12345, 17),
        (0x7FFF_FFFF, 31),
        (0xFFFF_FFFF, 32),
        (0x8000_0001, 32),
    ];
    for (value, n) in cases {
        let mut writer = BitWriter::new();
        assert_eq!(writer.write_bits(value, n), Ok(()));
        let bytes = writer.into_inner();
        assert_eq!(bytes.len(), (n as usize + 7) / 8);
        let mut reader = BitReader::new(&bytes);
        assert_eq!(reader.read_bits(n), Ok(value));
    }
}

#[test]
fn written_sequence_reads_back() {
    let fields: [(u32, u8); 6] = [(1, 1), (0x2A, 6), (0x1ABCD, 17), (0, 3), (0xDEADBEEF, 32), (5, 5)];
    let mut writer = BitWriter::new();
    for (value, n) in fields {
        assert_eq!(writer.write_bits(value, n), Ok(()));
    }
    let bytes = writer.into_inner();
    assert_eq!(bytes.len(), 8);
    let mut reader = BitReader::new(&bytes);
    for (value, n) in fields {
        assert_eq!(reader.read_bits(n), Ok(value));
    }
    assert!(reader.is_empty());
}

#[test]
fn every_width_reads_back_at_every_offset() {
    for offset in 0u8..8 {
        for n in 1u8..=32 {
            let value: u32 = if n == 32 { 0x9E3779B9 } else { 0x9E3779B9 & ((1u32 << n) - 1) };
            let mut writer = BitWriter::new();
            assert_eq!(writer.write_bits(0, offset), Ok(()));
            assert_eq!(writer.write_bits(value, n), Ok(()));
            let bytes = writer.into_inner();
            let mut reader = BitReader::new(&bytes);
            assert_eq!(reader.skip_bits(offset as usize), Ok(()));
            assert_eq!(reader.read_bits(n), Ok(value));
        }
    }
}
