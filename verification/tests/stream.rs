use cf_trainer::cf::{Entry, Rating};
use cf_trainer::error::DecodeError;
use cf_trainer::protobuf::{write_uvarint, ByteCursor};
use cf_trainer::stats::{read_account, read_body, BodyFault, StreamEnd, Tank};
use cf_trainer::stream::{Step, StreamDecoder};
use cf_trainer::trainer::{offer, read_ratings, RatingsIndex, Sampling};

fn record(id: u32, tanks: &[(u32, u32, u32)]) -> Vec<u8> {
    let mut bytes = vec![0x3e, 0x3e];
    write_uvarint(&mut bytes, id);
    write_uvarint(&mut bytes, tanks.len() as u32);
    for &(item, battles, wins) in tanks {
        write_uvarint(&mut bytes, item);
        write_uvarint(&mut bytes, battles);
        write_uvarint(&mut bytes, wins);
    }
    bytes
}

fn stream() -> Vec<u8> {
    let mut bytes = record(100, &[(1, 10, 5), (270, 86942, 86941)]);
    bytes.extend(record(101, &[]));
    bytes.extend(record(102, &[(2, 7, 3), (3, 50, 1), (1, 300, 200)]));
    bytes.extend(record(103, &[(2, 1, 1)]));
    bytes
}

/// Decodes `bytes` in pieces of `size` bytes.
fn in_pieces(bytes: &[u8], size: usize) -> Result<(Vec<(u32, Vec<Tank>)>, StreamEnd), DecodeError> {
    let mut decoder = StreamDecoder::new();
    let mut pieces = bytes.chunks(size);
    let mut at_end = false;
    let mut records = Vec::new();
    loop {
        match decoder.next(at_end)? {
            Step::Record(account) => records.push((account.id, account.tanks)),
            Step::NeedMore => match pieces.next() {
                Some(piece) => decoder.push(piece),
                None => at_end = true,
            },
            Step::End(end) => return Ok((records, end)),
        }
    }
}

fn at_once(bytes: &[u8]) -> Result<(Vec<(u32, Vec<Tank>)>, StreamEnd), DecodeError> {
    let mut input = ByteCursor::new(bytes);
    let mut records = Vec::new();
    loop {
        match read_account(&mut input)? {
            cf_trainer::stats::RecordRead::Account(account) => {
                records.push((account.id, account.tanks))
            }
            cf_trainer::stats::RecordRead::End(end) => return Ok((records, end)),
        }
    }
}

#[test]
fn pieces_of_any_size_give_the_records_of_the_whole() {
    let bytes = stream();
    let whole = at_once(&bytes).unwrap();
    assert_eq!(whole.0.len(), 4);
    assert_eq!(whole.1, StreamEnd::Clean);
    for size in 1..=bytes.len() + 1 {
        assert_eq!(in_pieces(&bytes, size).unwrap(), whole, "pieces of {} bytes", size);
    }
}

#[test]
fn record_is_handed_out_as_soon_as_it_is_complete() {
    let first = record(7, &[(1, 2, 1)]);
    let mut decoder = StreamDecoder::new();
    assert!(matches!(decoder.next(false), Ok(Step::NeedMore)));
    decoder.push(&first[..1]);
    assert!(matches!(decoder.next(false), Ok(Step::NeedMore)));
    decoder.push(&first[1..first.len() - 1]);
    assert!(matches!(decoder.next(false), Ok(Step::NeedMore)));
    decoder.push(&first[first.len() - 1..]);
    match decoder.next(false) {
        Ok(Step::Record(account)) => {
            assert_eq!(account.id, 7);
            assert_eq!(account.tanks, vec![Tank { id: 1, battles: 2, wins: 1 }]);
        }
        other => panic!("{:?}", other),
    }
    assert!(matches!(decoder.next(false), Ok(Step::NeedMore)));
    assert!(matches!(decoder.next(true), Ok(Step::End(StreamEnd::Clean))));
}

#[test]
fn end_inside_a_record_is_an_error_only_at_the_end() {
    let whole = record(7, &[(1, 2, 1)]);
    let mut decoder = StreamDecoder::new();
    decoder.push(&whole[..4]);
    assert!(matches!(decoder.next(false), Ok(Step::NeedMore)));
    assert!(matches!(decoder.next(true), Err(DecodeError::MalformedRecord)));
    for size in 1..8 {
        let mut bytes = stream();
        bytes.extend(&whole[..4]);
        assert_eq!(in_pieces(&bytes, size).err(), Some(DecodeError::MalformedRecord));
        assert_eq!(at_once(&bytes).err(), Some(DecodeError::MalformedRecord));
    }
}

#[test]
fn marker_mismatch_is_found_in_pieces_too() {
    let mut bytes = stream();
    bytes.extend(vec![0x3e, 0x00, 0x01]);
    let whole = at_once(&bytes).unwrap();
    assert_eq!(whole.1, StreamEnd::MarkerMismatch);
    for size in 1..6 {
        assert_eq!(in_pieces(&bytes, size).unwrap(), whole);
    }
    let mut short = stream();
    short.push(0x3e);
    for size in 1..6 {
        let (records, end) = in_pieces(&short, size).unwrap();
        assert_eq!(records.len(), 4);
        assert_eq!(end, StreamEnd::MarkerMismatch);
    }
    let mut decoder = StreamDecoder::new();
    decoder.push(&[0x3e]);
    assert!(matches!(decoder.next(false), Ok(Step::NeedMore)));
    decoder.push(&[0x3f]);
    assert!(matches!(decoder.next(false), Ok(Step::End(StreamEnd::MarkerMismatch))));
}

#[test]
fn offering_record_by_record_builds_the_table_of_the_whole_stream() {
    let bytes = stream();
    for period in 1..=3u64 {
        let sampling = Sampling::every(period).unwrap();
        let (whole, _) =
            read_ratings(&mut ByteCursor::new(&bytes), RatingsIndex::new(2, sampling)).unwrap();
        let mut index = RatingsIndex::new(2, sampling);
        let (records, _) = in_pieces(&bytes, 5).unwrap();
        for (i, (id, tanks)) in records.into_iter().enumerate() {
            let number = i as u64 + 1;
            let kept = offer(&mut index, cf_trainer::stats::Account { id, tanks });
            assert_eq!(kept, number % period == 0);
        }
        let built = index.finish();
        assert_eq!(built.items(), whole.items());
        for item in whole.items() {
            assert_eq!(built.get(item), whole.get(item));
        }
    }
}

#[test]
fn offer_inserts_what_the_sampling_keeps() {
    let mut index = RatingsIndex::new(0, Sampling::every(2).unwrap());
    let account = |id| cf_trainer::stats::Account {
        id,
        tanks: vec![Tank { id: 9, battles: 4, wins: 1 }],
    };
    assert!(!offer(&mut index, account(1)));
    assert_eq!(index.len(), 0);
    assert!(offer(&mut index, account(2)));
    assert!(!offer(&mut index, account(3)));
    assert!(offer(&mut index, account(4)));
    assert_eq!(index.get(&9).unwrap().len(), 2);
    assert_eq!(
        index.get(&9).unwrap(),
        &vec![
            Entry { account_id: 2, rating: Rating { wins: 1, battles: 4 } },
            Entry { account_id: 4, rating: Rating { wins: 1, battles: 4 } },
        ]
    );
}

#[test]
fn record_that_no_byte_can_mend_fails_at_once() {
    // The account id is a number of six bytes.
    let mut decoder = StreamDecoder::new();
    decoder.push(&[0x3e, 0x3e, 0x80, 0x80, 0x80, 0x80, 0x80]);
    assert!(matches!(decoder.next(false), Ok(Step::NeedMore)));
    decoder.push(&[0x01]);
    assert!(matches!(decoder.next(false), Err(DecodeError::MalformedRecord)));

    // The fifth byte of a number carries more than four bits.
    let mut decoder = StreamDecoder::new();
    decoder.push(&record(7, &[(1, 2, 1)]));
    decoder.push(&[0x3e, 0x3e, 0x05, 0x01, 0xFF, 0xFF, 0xFF, 0xFF, 0x1F]);
    assert!(matches!(decoder.next(false), Ok(Step::Record(_))));
    assert!(matches!(decoder.next(false), Err(DecodeError::MalformedRecord)));

    // The same bytes without the last are cut short, and wait.
    let mut decoder = StreamDecoder::new();
    decoder.push(&[0x3e, 0x3e, 0x05, 0x01, 0xFF, 0xFF, 0xFF, 0xFF]);
    assert!(matches!(decoder.next(false), Ok(Step::NeedMore)));
    assert!(matches!(decoder.next(true), Err(DecodeError::MalformedRecord)));
}

#[test]
fn body_faults_are_told_apart() {
    assert_eq!(read_body(&mut ByteCursor::new(&[])).err(), Some(BodyFault::CutShort));
    assert_eq!(read_body(&mut ByteCursor::new(&[0x05])).err(), Some(BodyFault::CutShort));
    assert_eq!(read_body(&mut ByteCursor::new(&[0x05, 0x01, 0x80])).err(), Some(BodyFault::CutShort));
    assert_eq!(
        read_body(&mut ByteCursor::new(&[0x05, 0x02, 0x01, 0x02, 0x03, 0x04])).err(),
        Some(BodyFault::CutShort)
    );
    assert_eq!(
        read_body(&mut ByteCursor::new(&[0x05, 0x01, 0x01, 0xFF, 0xFF, 0xFF, 0xFF, 0x10])).err(),
        Some(BodyFault::Invalid)
    );
    assert_eq!(
        read_body(&mut ByteCursor::new(&[0x80, 0x80, 0x80, 0x80, 0x80, 0x00])).err(),
        Some(BodyFault::Invalid)
    );
    let mut input = ByteCursor::new(&[0x05, 0x01, 0x01, 0x02, 0x03, 0xAA]);
    let account = read_body(&mut input).unwrap();
    assert_eq!(account.id, 5);
    assert_eq!(account.tanks, vec![Tank { id: 1, battles: 2, wins: 3 }]);
    assert_eq!(input.remaining(), 1);
}
