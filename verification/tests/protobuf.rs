use cf_trainer::error::DecodeError;
use cf_trainer::protobuf::{read_uvarint, write_uvarint, ByteCursor};

fn encode(value: u32) -> Vec<u8> {
    let mut bytes = Vec::new();
    write_uvarint(&mut bytes, value);
    bytes
}

#[test]
fn test_read_uvarint() {
    assert_eq!(read_uvarint(&mut ByteCursor::new(&[0x80])), Err(DecodeError::TruncatedVarint));
    assert_eq!(read_uvarint(&mut ByteCursor::new(&[0x00])).unwrap(), Some(0));
    assert_eq!(read_uvarint(&mut ByteCursor::new(&[0x03])).unwrap(), Some(3));
    assert_eq!(read_uvarint(&mut ByteCursor::new(&[0x8E, 0x02])).unwrap(), Some(270));
    assert_eq!(read_uvarint(&mut ByteCursor::new(&[0x9E, 0xA7, 0x05])).unwrap(), Some(86942));
}

#[test]
fn empty_input_is_a_clean_end() {
    let mut input = ByteCursor::new(&[]);
    assert_eq!(read_uvarint(&mut input), Ok(None));
    assert_eq!(input.remaining(), 0);
}

#[test]
fn truncation_is_not_a_clean_end() {
    let mut input = ByteCursor::new(&[0x80]);
    assert_ne!(read_uvarint(&mut input), Ok(None));
    assert_eq!(input.remaining(), 0);
    assert_eq!(
        read_uvarint(&mut ByteCursor::new(&[0xFF, 0xFF, 0xFF])),
        Err(DecodeError::TruncatedVarint)
    );
    assert_eq!(
        read_uvarint(&mut ByteCursor::new(&[0x80, 0x80, 0x80, 0x80])),
        Err(DecodeError::TruncatedVarint)
    );
}

#[test]
fn largest_value_decodes() {
    let mut input = ByteCursor::new(&[0xFF, 0xFF, 0xFF, 0xFF, 0x0F]);
    assert_eq!(read_uvarint(&mut input), Ok(Some(u32::MAX)));
    assert_eq!(input.remaining(), 0);
}

#[test]
fn fifth_byte_with_more_than_four_bits_overflows() {
    let mut input = ByteCursor::new(&[0xFF, 0xFF, 0xFF, 0xFF, 0x10, 0x01]);
    assert_eq!(read_uvarint(&mut input), Err(DecodeError::VarintOverflow));
    assert_eq!(input.remaining(), 1);
}

#[test]
fn sixth_byte_overflows() {
    let mut input = ByteCursor::new(&[0x80, 0x80, 0x80, 0x80, 0x80, 0x00]);
    assert_eq!(read_uvarint(&mut input), Err(DecodeError::VarintOverflow));
    assert_eq!(input.remaining(), 0);
    assert_eq!(
        read_uvarint(&mut ByteCursor::new(&[0x80, 0x80, 0x80, 0x80, 0x80])),
        Err(DecodeError::TruncatedVarint)
    );
    let mut longer = ByteCursor::new(&[0x81, 0x80, 0x80, 0x80, 0x8F, 0x80, 0x01]);
    assert_eq!(read_uvarint(&mut longer), Err(DecodeError::VarintOverflow));
    assert_eq!(longer.remaining(), 1);
}

#[test]
fn five_continuation_bytes_and_the_end_are_a_truncation() {
    let mut input = ByteCursor::new(&[0x81, 0x80, 0x80, 0x80, 0x8F]);
    assert_eq!(read_uvarint(&mut input), Err(DecodeError::TruncatedVarint));
    assert_eq!(input.remaining(), 0);
    // With more than four bits in the fifth byte, bits are lost at once.
    let mut lost = ByteCursor::new(&[0x81, 0x80, 0x80, 0x80, 0x90]);
    assert_eq!(read_uvarint(&mut lost), Err(DecodeError::VarintOverflow));
    assert_eq!(
        read_uvarint(&mut ByteCursor::new(&[0xFF, 0xFF, 0xFF, 0xFF, 0xFF])),
        Err(DecodeError::VarintOverflow)
    );
}

#[test]
fn padded_encoding_of_five_bytes_decodes() {
    let mut input = ByteCursor::new(&[0x81, 0x80, 0x80, 0x80, 0x00]);
    assert_eq!(read_uvarint(&mut input), Ok(Some(1)));
    assert_eq!(input.remaining(), 0);
}

#[test]
fn reading_stops_after_the_terminal_byte() {
    let mut input = ByteCursor::new(&[0x8E, 0x02, 0x03, 0x80]);
    assert_eq!(read_uvarint(&mut input), Ok(Some(270)));
    assert_eq!(input.remaining(), 2);
    assert_eq!(read_uvarint(&mut input), Ok(Some(3)));
    assert_eq!(input.remaining(), 1);
    assert_eq!(read_uvarint(&mut input), Err(DecodeError::TruncatedVarint));
    assert_eq!(read_uvarint(&mut input), Ok(None));
}

#[test]
fn encoding_has_the_expected_bytes() {
    assert_eq!(encode(0), vec![0x00]);
    assert_eq!(encode(3), vec![0x03]);
    assert_eq!(encode(127), vec![0x7F]);
    assert_eq!(encode(128), vec![0x80, 0x01]);
    assert_eq!(encode(270), vec![0x8E, 0x02]);
    assert_eq!(encode(86942), vec![0x9E, 0xA7, 0x05]);
    assert_eq!(encode(u32::MAX), vec![0xFF, 0xFF, 0xFF, 0xFF, 0x0F]);
}

#[test]
fn encoding_appends_to_what_is_there() {
    let mut bytes = vec![0x3e, 0x3e];
    write_uvarint(&mut bytes, 270);
    write_uvarint(&mut bytes, 1);
    assert_eq!(bytes, vec![0x3e, 0x3e, 0x8E, 0x02, 0x01]);
}

#[test]
fn encoding_then_decoding_gives_the_value_back() {
    let mut values: Vec<u32> = vec![0, 1, 127, 128, 255, 256, 16383, 16384, 86942, u32::MAX - 1, u32::MAX];
    let mut power: u32 = 1;
    for _ in 0..31 {
        power *= 2;
        values.push(power - 1);
        values.push(power);
        values.push(power + 1);
    }
    for value in values {
        let mut bytes = encode(value);
        let length = bytes.len();
        assert!(1 <= length && length <= 5);
        bytes.push(0xAB);
        let mut input = ByteCursor::new(&bytes);
        assert_eq!(read_uvarint(&mut input), Ok(Some(value)));
        assert_eq!(input.remaining(), 1);
        assert_eq!(input.next_byte(), Some(0xAB));
    }
}

#[test]
fn cursor_hands_out_the_bytes_in_order() {
    let mut input = ByteCursor::new(&[1, 2, 3]);
    assert_eq!(input.remaining(), 3);
    assert_eq!(input.next_byte(), Some(1));
    assert_eq!(input.next_byte(), Some(2));
    assert_eq!(input.remaining(), 1);
    assert_eq!(input.next_byte(), Some(3));
    assert_eq!(input.next_byte(), None);
    assert_eq!(input.next_byte(), None);
    assert_eq!(input.remaining(), 0);
}
