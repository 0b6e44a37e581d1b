use cf_trainer::error::DecodeError;
use cf_trainer::protobuf::{write_uvarint, ByteCursor};
use cf_trainer::stats::{
    read_account, skip_account_header, Header, RecordRead, StreamEnd, Tank, MARKER_BYTE,
};

fn record(id: u32, tanks: &[(u32, u32, u32)]) -> Vec<u8> {
    let mut bytes = vec![MARKER_BYTE, MARKER_BYTE];
    write_uvarint(&mut bytes, id);
    write_uvarint(&mut bytes, tanks.len() as u32);
    for &(item, battles, wins) in tanks {
        write_uvarint(&mut bytes, item);
        write_uvarint(&mut bytes, battles);
        write_uvarint(&mut bytes, wins);
    }
    bytes
}

#[test]
fn test_read_account() {
    let account = read_account(&mut ByteCursor::new(&[0x3e, 0x3e, 0x03, 0x01, 0x8E, 0x02, 0x9E, 0xA7, 0x05, 0x9D, 0xA7, 0x05])).unwrap().account().unwrap();
    assert_eq!(account.id, 3);
    assert_eq!(account.tanks.len(), 1);
    assert_eq!(account.tanks[0].id, 270);
    assert_eq!(account.tanks[0].battles, 86942);
    assert_eq!(account.tanks[0].wins, 86941);
}

#[test]
fn record_built_from_varints_is_read_back() {
    let mut bytes = vec![0x3e, 0x3e];
    for value in [3, 1, 270, 86942, 86941] {
        write_uvarint(&mut bytes, value);
    }
    let mut input = ByteCursor::new(&bytes);
    let account = read_account(&mut input).unwrap().account().unwrap();
    assert_eq!(account.id, 3);
    assert_eq!(account.tanks, vec![Tank { id: 270, battles: 86942, wins: 86941 }]);
    assert_eq!(input.remaining(), 0);
}

#[test]
fn records_are_read_one_after_the_other() {
    let mut bytes = record(7, &[(1, 10, 5), (2, 5, 2)]);
    bytes.extend(record(8, &[]));
    bytes.extend(record(9, &[(300, 1, 1)]));
    let mut input = ByteCursor::new(&bytes);

    let first = read_account(&mut input).unwrap().account().unwrap();
    assert_eq!(first.id, 7);
    assert_eq!(
        first.tanks,
        vec![Tank { id: 1, battles: 10, wins: 5 }, Tank { id: 2, battles: 5, wins: 2 }]
    );
    let second = read_account(&mut input).unwrap().account().unwrap();
    assert_eq!(second.id, 8);
    assert!(second.tanks.is_empty());
    let third = read_account(&mut input).unwrap().account().unwrap();
    assert_eq!(third.id, 9);
    assert_eq!(third.tanks, vec![Tank { id: 300, battles: 1, wins: 1 }]);

    assert!(matches!(read_account(&mut input), Ok(RecordRead::End(StreamEnd::Clean))));
    assert!(matches!(read_account(&mut input), Ok(RecordRead::End(StreamEnd::Clean))));
}

#[test]
fn empty_stream_ends_cleanly() {
    let mut input = ByteCursor::new(&[]);
    assert!(matches!(read_account(&mut input), Ok(RecordRead::End(StreamEnd::Clean))));
    assert!(read_account(&mut input).unwrap().account().is_none());
}

#[test]
fn short_or_wrong_marker_is_a_mismatch_and_no_error() {
    let mut short = ByteCursor::new(&[0x3e]);
    assert!(matches!(read_account(&mut short), Ok(RecordRead::End(StreamEnd::MarkerMismatch))));
    assert_eq!(short.remaining(), 0);

    let mut wrong = ByteCursor::new(&[0x3e, 0x3f, 0x03, 0x00]);
    assert!(matches!(read_account(&mut wrong), Ok(RecordRead::End(StreamEnd::MarkerMismatch))));
    assert_eq!(wrong.remaining(), 2);

    let mut swapped = ByteCursor::new(&[0x00, 0x3e, 0x03, 0x00]);
    assert!(matches!(read_account(&mut swapped), Ok(RecordRead::End(StreamEnd::MarkerMismatch))));
}

#[test]
fn header_tells_the_three_cases_apart() {
    assert_eq!(skip_account_header(&mut ByteCursor::new(&[])), Header::End(StreamEnd::Clean));
    assert_eq!(
        skip_account_header(&mut ByteCursor::new(&[0x3e])),
        Header::End(StreamEnd::MarkerMismatch)
    );
    assert_eq!(
        skip_account_header(&mut ByteCursor::new(&[0x3f, 0x3e])),
        Header::End(StreamEnd::MarkerMismatch)
    );
    let mut input = ByteCursor::new(&[0x3e, 0x3e, 0x05]);
    assert_eq!(skip_account_header(&mut input), Header::Marker);
    assert_eq!(input.remaining(), 1);
}

#[test]
fn end_of_data_inside_a_record_is_malformed() {
    let whole = record(3, &[(270, 86942, 86941), (5, 6, 7)]);
    for length in 2..whole.len() {
        let mut input = ByteCursor::new(&whole[..length]);
        assert!(
            matches!(read_account(&mut input), Err(DecodeError::MalformedRecord)),
            "prefix of {} bytes",
            length
        );
    }
    let mut input = ByteCursor::new(&whole);
    assert!(read_account(&mut input).unwrap().account().is_some());
}

#[test]
fn overflowing_number_inside_a_record_is_malformed() {
    let bytes = vec![0x3e, 0x3e, 0xFF, 0xFF, 0xFF, 0xFF, 0x7F, 0x00];
    assert!(matches!(
        read_account(&mut ByteCursor::new(&bytes)),
        Err(DecodeError::MalformedRecord)
    ));
}

#[test]
fn truncated_number_inside_a_record_is_malformed() {
    let bytes = vec![0x3e, 0x3e, 0x03, 0x01, 0x8E];
    assert!(matches!(
        read_account(&mut ByteCursor::new(&bytes)),
        Err(DecodeError::MalformedRecord)
    ));
}
