use cf_trainer::error::DecodeError;
use cf_trainer::model::{Neighbor, SimilarityModel};
use cf_trainer::persist::{read_model, write_model};
use cf_trainer::protobuf::{write_uvarint, ByteCursor};

fn neighbor(item: u32, score: i32) -> Neighbor {
    Neighbor { item, score }
}

fn stored(model: &SimilarityModel) -> Vec<u8> {
    let mut bytes = Vec::new();
    write_model(&mut bytes, model);
    bytes
}

fn numbers(values: &[u32]) -> Vec<u8> {
    let mut bytes = Vec::new();
    for &value in values {
        write_uvarint(&mut bytes, value);
    }
    bytes
}

fn sample() -> SimilarityModel {
    let mut model = SimilarityModel::new();
    assert!(model.insert(7, 300, 800_000));
    assert!(model.insert(7, 2, -1_000_000));
    assert!(model.insert(300, 2, 0));
    assert!(model.insert(5, 300, 1_000_000));
    assert!(model.insert(7, 5, 123_456));
    model.prune(2);
    model
}

fn same(left: &SimilarityModel, right: &SimilarityModel) {
    assert_eq!(left.items(), right.items());
    for &item in left.items() {
        assert_eq!(left.neighbors(item), right.neighbors(item));
    }
}

#[test]
fn stored_model_has_the_expected_bytes() {
    let mut model = SimilarityModel::new();
    assert!(model.insert(1, 2, 0));
    // item 1, one neighbour: item 2 with score 0 stored as 1000000; then
    // the same the other way round.
    let one_million = vec![0xC0, 0x84, 0x3D];
    let mut expected = vec![0x01, 0x01, 0x02];
    expected.extend(&one_million);
    expected.extend(vec![0x02, 0x01, 0x01]);
    expected.extend(&one_million);
    assert_eq!(stored(&model), expected);
    assert_eq!(stored(&SimilarityModel::new()), Vec::<u8>::new());
}

#[test]
fn model_is_read_back_as_it_was_written() {
    let model = sample();
    let bytes = stored(&model);
    let mut input = ByteCursor::new(&bytes);
    let read = read_model(&mut input).unwrap();
    assert_eq!(input.remaining(), 0);
    same(&model, &read);
    assert_eq!(read.items(), &vec![7, 300, 2, 5]);
    assert_eq!(read.neighbors(7).unwrap(), &vec![neighbor(2, -1_000_000), neighbor(300, 800_000)]);
    assert_eq!(stored(&read), stored(&model));
}

#[test]
fn model_pruned_to_nothing_is_read_back() {
    let mut model = sample();
    model.prune(0);
    let read = read_model(&mut ByteCursor::new(&stored(&model))).unwrap();
    same(&model, &read);
    assert_eq!(read.len(), 4);
    assert!(read.neighbors(7).unwrap().is_empty());
}

#[test]
fn no_bytes_are_an_empty_model() {
    let read = read_model(&mut ByteCursor::new(&[])).unwrap();
    assert_eq!(read.len(), 0);
}

#[test]
fn writing_appends() {
    let mut bytes = vec![0xAA];
    write_model(&mut bytes, &sample());
    assert_eq!(bytes[0], 0xAA);
    assert_eq!(&bytes[1..], &stored(&sample())[..]);
}

#[test]
fn truncated_model_is_malformed() {
    let whole = stored(&sample());
    let mut complete = 0;
    for length in 1..whole.len() {
        match read_model(&mut ByteCursor::new(&whole[..length])) {
            Ok(_) => complete += 1,
            Err(error) => assert_eq!(error, DecodeError::MalformedModel),
        }
    }
    // A prefix is a model only where it ends with a record: after the
    // first, the second and the third of the four.
    assert_eq!(complete, 3);
}

fn malformed(bytes: Vec<u8>) {
    assert_eq!(read_model(&mut ByteCursor::new(&bytes)).err(), Some(DecodeError::MalformedModel));
}

#[test]
fn score_out_of_range_is_malformed() {
    assert!(read_model(&mut ByteCursor::new(&numbers(&[1, 1, 2, 2_000_000]))).is_ok());
    assert!(read_model(&mut ByteCursor::new(&numbers(&[1, 1, 2, 0]))).is_ok());
    malformed(numbers(&[1, 1, 2, 2_000_001]));
    malformed(numbers(&[1, 1, 2, u32::MAX]));
}

#[test]
fn item_listed_twice_is_malformed() {
    malformed(numbers(&[1, 0, 2, 0, 1, 0]));
}

#[test]
fn item_as_its_own_neighbour_is_malformed() {
    malformed(numbers(&[1, 1, 1, 1_000_000]));
}

#[test]
fn neighbour_listed_twice_is_malformed() {
    malformed(numbers(&[1, 2, 2, 1_000_000, 2, 1_000_000]));
    malformed(numbers(&[1, 3, 2, 1_000_000, 3, 1_000_000, 2, 1_000_001]));
}

#[test]
fn two_scores_for_one_pair_are_malformed() {
    assert!(read_model(&mut ByteCursor::new(&numbers(&[1, 1, 2, 1_500_000, 2, 1, 1, 1_500_000])))
        .is_ok());
    malformed(numbers(&[1, 1, 2, 1_500_000, 2, 1, 1, 1_500_001]));
}

#[test]
fn one_direction_of_a_pair_is_enough() {
    let read = read_model(&mut ByteCursor::new(&numbers(&[1, 1, 2, 1_500_000, 2, 0]))).unwrap();
    assert_eq!(read.neighbors(1).unwrap(), &vec![neighbor(2, 500_000)]);
    assert!(read.neighbors(2).unwrap().is_empty());
}

#[test]
fn number_too_wide_is_malformed() {
    malformed(vec![0xFF, 0xFF, 0xFF, 0xFF, 0x7F, 0x00]);
    malformed(vec![0x80]);
}

#[test]
fn lists_enter_the_model_one_by_one() {
    let mut model = SimilarityModel::new();
    assert!(model.add_list(1, vec![neighbor(2, 5), neighbor(3, -5)]));
    assert!(!model.add_list(1, vec![]));
    assert!(!model.add_list(2, vec![neighbor(1, 6)]));
    assert!(!model.add_list(2, vec![neighbor(2, 5)]));
    assert!(!model.add_list(2, vec![neighbor(4, 5), neighbor(4, 5)]));
    assert!(!model.add_list(2, vec![neighbor(4, 1_000_001)]));
    assert!(model.add_list(2, vec![neighbor(4, 1), neighbor(1, 5)]));
    assert!(model.add_list(4, vec![]));
    assert_eq!(model.items(), &vec![1, 2, 4]);
    assert_eq!(model.neighbors(2).unwrap(), &vec![neighbor(4, 1), neighbor(1, 5)]);
    assert_eq!(model.len(), 3);
}
