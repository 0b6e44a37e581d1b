use std::collections::HashMap;

use cf_trainer::model::SimilarityModel;
use cf_trainer::predictor::predict;

const A: u32 = 1;
const B: u32 = 2;
const C: u32 = 3;
const D: u32 = 4;

fn profile(ratings: &[(u32, u32)]) -> HashMap<u32, u32> {
    ratings.iter().copied().collect()
}

#[test]
fn zero_similarity_adds_nothing_to_either_sum() {
    let mut model = SimilarityModel::new();
    assert!(model.insert(A, B, 800_000));
    assert!(model.insert(A, C, 0));
    let known = profile(&[(B, 600_000), (C, 900_000)]);
    assert_eq!(predict(&model, &known, A), Some(600_000));
}

#[test]
fn no_neighbour_in_the_profile_gives_no_prediction() {
    let mut model = SimilarityModel::new();
    assert!(model.insert(A, B, 800_000));
    assert!(model.insert(A, C, 0));
    assert_eq!(predict(&model, &profile(&[(D, 500_000)]), A), None);
    assert_eq!(predict(&model, &profile(&[]), A), None);
    assert_eq!(predict(&model, &profile(&[(B, 600_000)]), D), None);
    assert_eq!(predict(&SimilarityModel::new(), &profile(&[(B, 600_000)]), A), None);
}

#[test]
fn only_neighbours_with_a_score_of_zero_give_no_prediction() {
    let mut model = SimilarityModel::new();
    assert!(model.insert(A, B, 800_000));
    assert!(model.insert(A, C, 0));
    assert_eq!(predict(&model, &profile(&[(C, 900_000)]), A), None);
}

#[test]
fn estimate_is_the_weighted_average() {
    let mut model = SimilarityModel::new();
    assert!(model.insert(A, B, 500_000));
    assert!(model.insert(A, C, 250_000));
    assert!(model.insert(A, D, 250_000));
    let known = profile(&[(B, 400_000), (C, 800_000), (D, 100_000)]);
    // (0.5 * 0.4 + 0.25 * 0.8 + 0.25 * 0.1) / 1.0 = 0.425
    assert_eq!(predict(&model, &known, A), Some(425_000));
    // Seen from B, only A is a neighbour, and A is not in the profile.
    assert_eq!(predict(&model, &known, B), None);
}

#[test]
fn negative_similarity_counts_against_and_weighs_by_magnitude() {
    let mut model = SimilarityModel::new();
    assert!(model.insert(A, B, 600_000));
    assert!(model.insert(A, C, -200_000));
    let known = profile(&[(B, 500_000), (C, 1_000_000)]);
    // (0.6 * 0.5 - 0.2 * 1.0) / (0.6 + 0.2) = 0.125
    assert_eq!(predict(&model, &known, A), Some(125_000));
    let mut against = SimilarityModel::new();
    assert!(against.insert(A, B, -1_000_000));
    assert_eq!(predict(&against, &profile(&[(B, 700_000)]), A), Some(-700_000));
}

#[test]
fn estimate_is_rounded_towards_zero() {
    let mut model = SimilarityModel::new();
    assert!(model.insert(A, B, 1));
    assert!(model.insert(A, C, 2));
    // (1 * 1 + 2 * 0) / 3 = 0.33..
    assert_eq!(predict(&model, &profile(&[(B, 1), (C, 0)]), A), Some(0));
    // (1 * 5 + 2 * 0) / 3 = 1.66..
    assert_eq!(predict(&model, &profile(&[(B, 5), (C, 0)]), A), Some(1));
    let mut against = SimilarityModel::new();
    assert!(against.insert(A, B, -1));
    assert!(against.insert(A, C, 2));
    // (-1 * 5 + 2 * 0) / 3 = -1.66..
    assert_eq!(predict(&against, &profile(&[(B, 5), (C, 0)]), A), Some(-1));
}

#[test]
fn largest_ratings_do_not_overflow() {
    let mut model = SimilarityModel::new();
    assert!(model.insert(A, B, 1_000_000));
    assert!(model.insert(A, C, -1_000_000));
    assert_eq!(predict(&model, &profile(&[(B, u32::MAX)]), A), Some(u32::MAX as i64));
    assert_eq!(predict(&model, &profile(&[(C, u32::MAX)]), A), Some(-(u32::MAX as i64)));
    assert_eq!(predict(&model, &profile(&[(B, u32::MAX), (C, u32::MAX)]), A), Some(0));
}

#[test]
fn prediction_does_not_change_the_model() {
    let mut model = SimilarityModel::new();
    assert!(model.insert(A, B, 800_000));
    let known = profile(&[(B, 600_000)]);
    let first = predict(&model, &known, A);
    let second = predict(&model, &known, A);
    assert_eq!(first, second);
    assert_eq!(model.len(), 2);
}
