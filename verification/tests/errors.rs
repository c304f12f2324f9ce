use quops::bit::{BitReader, BitWriter, ReadError, WriteError};
use quops::errors::{DecodeError, EncodeError};

#[test]
fn write_errors_become_encode_errors() {
    let error = EncodeError::from(WriteError::ValueTooLarge("too big".to_string()));
    assert!(matches!(error, EncodeError::OutOfBounds(ref message) if message == "too big"));
}

#[test]
fn read_errors_become_decode_errors() {
    let error = DecodeError::from(ReadError::NotEnoughBits("short".to_string()));
    assert!(matches!(error, DecodeError::NotEnoughBits(ref message) if message == "short"));
    let error = DecodeError::from(ReadError::InvalidBitCount("wide".to_string()));
    assert!(matches!(error, DecodeError::OutOfBounds(ref message) if message == "wide"));
}

#[test]
fn failed_integer_conversions_become_decode_errors() {
    let failure = u8::try_from(300i64).unwrap_err();
    assert!(matches!(DecodeError::from(failure), DecodeError::OutOfBounds(_)));
}

#[test]
fn errors_describe_themselves() {
    assert_eq!(EncodeError::OutOfBounds("m".to_string()).describe(), "Encoding error: Out of bounds - m");
    assert_eq!(EncodeError::NotSupported("m".to_string()).describe(), "Encoding error: Not supported - m");
    assert_eq!(DecodeError::OutOfBounds("m".to_string()).describe(), "Decoding error: Out of bounds - m");
    assert_eq!(DecodeError::NotEnoughBytes("m".to_string()).describe(), "Decoding error: Not enough bytes - m");
    assert_eq!(DecodeError::NotEnoughBits("m".to_string()).describe(), "Decoding error: Not enough bits - m");
    assert_eq!(WriteError::ValueTooLarge("m".to_string()).describe(), "Value too large: m");
    assert_eq!(ReadError::NotEnoughBits("m".to_string()).describe(), "Not enough bits: m");
    assert_eq!(ReadError::InvalidBitCount("m".to_string()).describe(), "Invalid bit count: m");
}

#[test]
fn bit_stream_errors_name_the_numbers() {
    let mut writer = BitWriter::with_capacity(1);
    let Err(WriteError::ValueTooLarge(message)) = writer.write(300, 8) else { panic!("a refused write") };
    assert_eq!(message, "Value 300 exceeds the maximum for 8 bits");
    let mut reader = BitReader::new(&[]);
    let Err(ReadError::InvalidBitCount(message)) = reader.read(70) else { panic!("a refused read") };
    assert_eq!(message, "Requested 70 bits, but maximum is 64");
    let Err(ReadError::NotEnoughBits(message)) = reader.read(3) else { panic!("a refused read") };
    assert_eq!(message, "Requested 3 bits, but only 0 bits available");
    let bytes = [0xFFu8, 0x01];
    let mut reader = BitReader::new(&bytes);
    assert_eq!(reader.read(5).unwrap(), 0x1F);
    let Err(ReadError::NotEnoughBits(message)) = reader.read(12) else { panic!("a refused read") };
    assert_eq!(message, "Requested 12 bits, but only 11 bits available");
}
