use quops::bit::{bit_length_of, BitReader, BitWriter, ReadError, WriteError};

#[test]
fn first_bit_written_is_bit_zero_of_the_first_byte() {
    let mut writer = BitWriter::with_capacity(1);
    writer.write(1, 1).unwrap();
    writer.write(0b10, 2).unwrap();
    assert_eq!(writer.into_bytes(), vec![0b101]);
}

#[test]
fn empty_writer_gives_no_bytes() {
    assert_eq!(BitWriter::with_capacity(0).into_bytes(), Vec::<u8>::new());
}

#[test]
fn last_byte_is_padded_with_zero_bits() {
    let mut writer = BitWriter::with_capacity(2);
    writer.write(0x1FF, 9).unwrap();
    assert_eq!(writer.into_bytes(), vec![0xFF, 0x01]);
}

#[test]
fn write_refuses_a_value_that_does_not_fit() {
    let mut writer = BitWriter::with_capacity(1);
    assert!(matches!(writer.write(8, 3), Err(WriteError::ValueTooLarge(_))));
    assert!(matches!(writer.write(1, 0), Err(WriteError::ValueTooLarge(_))));
    assert!(matches!(writer.write(0, 65), Err(WriteError::ValueTooLarge(_))));
    assert!(writer.write(7, 3).is_ok());
    assert!(writer.write(0, 0).is_ok());
    assert_eq!(writer.into_bytes(), vec![0b111]);
}

#[test]
fn write_of_sixty_four_bits_takes_any_value() {
    let mut writer = BitWriter::with_capacity(8);
    writer.write(u64::MAX, 64).unwrap();
    assert_eq!(writer.into_bytes(), vec![0xFF; 8]);
}

#[test]
fn writes_across_the_staging_boundary_keep_their_order() {
    let mut writer = BitWriter::with_capacity(16);
    writer.write(0x0FFF_FFFF_FFFF_FFFF, 60).unwrap();
    writer.write(0b10_1010_0101, 10).unwrap();
    let bytes = writer.into_bytes();
    // Bits 60 to 63 hold 0101, bits 64 to 69 hold 101010.
    assert_eq!(bytes, vec![0xFF, 0xFF, 0xFF, 0xFF, 0xFF, 0xFF, 0xFF, 0x5F, 0b10_1010]);
}

#[test]
fn a_full_staging_word_is_flushed_by_the_next_write() {
    let mut writer = BitWriter::with_capacity(16);
    writer.write(0x0123_4567_89AB_CDEF, 64).unwrap();
    writer.write(0, 0).unwrap();
    writer.write(0x5, 3).unwrap();
    assert_eq!(writer.into_bytes(), vec![0xEF, 0xCD, 0xAB, 0x89, 0x67, 0x45, 0x23, 0x01, 0x05]);
}

#[test]
fn reader_gives_back_what_the_writer_took() {
    let mut writer = BitWriter::with_capacity(32);
    let widths: [u8; 9] = [1, 7, 13, 64, 3, 33, 0, 64, 5];
    let mut values = Vec::new();
    let mut state: u64 = 0x9E37_79B9_7F4A_7C15;
    for width in widths {
        state = state.wrapping_mul(6364136223846793005).wrapping_add(1442695040888963407);
        let value = if width == 64 { state } else { state & ((1u64 << width) - 1) };
        writer.write(value, width).unwrap();
        values.push(value);
    }
    let bytes = writer.into_bytes();
    assert_eq!(bytes.len(), (190 + 7) / 8);
    let mut reader = BitReader::new(&bytes);
    for (width, value) in widths.iter().zip(values.iter()) {
        assert_eq!(reader.read(*width).unwrap(), *value);
    }
}

#[test]
fn read_of_no_bits_is_zero() {
    let mut reader = BitReader::new(&[]);
    assert_eq!(reader.read(0).unwrap(), 0);
}

#[test]
fn read_refuses_more_bits_than_remain() {
    let bytes = [0xAB, 0xCD];
    let mut reader = BitReader::new(&bytes);
    assert!(matches!(reader.read(17), Err(ReadError::NotEnoughBits(_))));
    assert_eq!(reader.read(12).unwrap(), 0xDAB);
    assert!(matches!(reader.read(5), Err(ReadError::NotEnoughBits(_))));
    assert_eq!(reader.read(4).unwrap(), 0xC);
    assert!(matches!(reader.read(1), Err(ReadError::NotEnoughBits(_))));
}

#[test]
fn read_refuses_more_than_sixty_four_bits() {
    let bytes = [0u8; 16];
    let mut reader = BitReader::new(&bytes);
    assert!(matches!(reader.read(65), Err(ReadError::InvalidBitCount(_))));
    assert_eq!(reader.read(64).unwrap(), 0);
}

#[test]
fn reads_of_whole_words_follow_a_short_read() {
    let bytes: Vec<u8> = (1..=17).collect();
    let mut reader = BitReader::new(&bytes);
    assert_eq!(reader.read(4).unwrap(), 0x1);
    assert_eq!(reader.read(64).unwrap(), 0x9080_7060_5040_3020);
    assert_eq!(reader.read(64).unwrap(), 0x1100_F0E0_D0C0_B0A0);
    assert_eq!(reader.read(4).unwrap(), 0x1);
    assert!(reader.read(1).is_err());
}

#[test]
fn bit_length_counts_binary_digits() {
    assert_eq!(bit_length_of(0), 0);
    assert_eq!(bit_length_of(1), 1);
    assert_eq!(bit_length_of(3), 2);
    assert_eq!(bit_length_of(4), 3);
    assert_eq!(bit_length_of(255), 8);
    assert_eq!(bit_length_of(256), 9);
    assert_eq!(bit_length_of(u64::MAX), 64);
}
