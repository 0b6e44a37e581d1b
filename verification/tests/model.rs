use cf_trainer::model::{strongest, Neighbor, SimilarityModel, SCORE_ONE};

fn neighbor(item: u32, score: i32) -> Neighbor {
    Neighbor { item, score }
}

#[test]
fn pair_enters_both_directions() {
    let mut model = SimilarityModel::new();
    assert_eq!(model.len(), 0);
    assert!(model.insert(1, 2, 800_000));
    assert!(model.insert(1, 3, -250_000));
    assert_eq!(model.len(), 3);
    assert_eq!(model.neighbors(1).unwrap(), &vec![neighbor(2, 800_000), neighbor(3, -250_000)]);
    assert_eq!(model.neighbors(2).unwrap(), &vec![neighbor(1, 800_000)]);
    assert_eq!(model.neighbors(3).unwrap(), &vec![neighbor(1, -250_000)]);
    assert!(model.neighbors(4).is_none());
}

#[test]
fn pairs_that_the_model_does_not_accept_change_nothing() {
    let mut model = SimilarityModel::new();
    assert!(!model.insert(1, 1, 0));
    assert!(!model.insert(1, 2, SCORE_ONE + 1));
    assert!(!model.insert(1, 2, -SCORE_ONE - 1));
    assert_eq!(model.len(), 0);
    assert!(model.insert(1, 2, SCORE_ONE));
    assert!(model.insert(3, 4, -SCORE_ONE));
    assert!(!model.insert(1, 2, 5));
    assert!(!model.insert(2, 1, 5));
    assert_eq!(model.neighbors(1).unwrap(), &vec![neighbor(2, SCORE_ONE)]);
    assert_eq!(model.neighbors(2).unwrap(), &vec![neighbor(1, SCORE_ONE)]);
}

#[test]
fn strongest_neighbours_come_first() {
    let list = vec![
        neighbor(1, 100),
        neighbor(2, -900),
        neighbor(3, 500),
        neighbor(4, 900),
        neighbor(5, -500),
        neighbor(6, 0),
    ];
    assert_eq!(strongest(&list, 0), vec![]);
    assert_eq!(strongest(&list, 1), vec![neighbor(2, -900)]);
    assert_eq!(
        strongest(&list, 3),
        vec![neighbor(2, -900), neighbor(4, 900), neighbor(3, 500)]
    );
    assert_eq!(
        strongest(&list, 6),
        vec![
            neighbor(2, -900),
            neighbor(4, 900),
            neighbor(3, 500),
            neighbor(5, -500),
            neighbor(1, 100),
            neighbor(6, 0),
        ]
    );
    assert_eq!(strongest(&list, 100).len(), 6);
    assert_eq!(strongest(&Vec::new(), 3), vec![]);
}

#[test]
fn strongest_handles_the_extreme_scores() {
    let list = vec![neighbor(1, i32::MAX), neighbor(2, i32::MIN), neighbor(3, 0)];
    assert_eq!(strongest(&list, 1), vec![neighbor(2, i32::MIN)]);
}

#[test]
fn pruning_may_drop_one_direction_of_a_pair() {
    let mut model = SimilarityModel::new();
    assert!(model.insert(1, 2, 900_000));
    assert!(model.insert(1, 3, 500_000));
    assert!(model.insert(2, 3, -100_000));
    model.prune(1);
    assert_eq!(model.len(), 3);
    assert_eq!(model.neighbors(1).unwrap(), &vec![neighbor(2, 900_000)]);
    assert_eq!(model.neighbors(2).unwrap(), &vec![neighbor(1, 900_000)]);
    assert_eq!(model.neighbors(3).unwrap(), &vec![neighbor(1, 500_000)]);
}

#[test]
fn pruning_to_more_than_there_is_only_sorts() {
    let mut model = SimilarityModel::new();
    assert!(model.insert(1, 2, 100_000));
    assert!(model.insert(1, 3, -700_000));
    model.prune(10);
    assert_eq!(model.neighbors(1).unwrap(), &vec![neighbor(3, -700_000), neighbor(2, 100_000)]);
    assert_eq!(model.neighbors(2).unwrap(), &vec![neighbor(1, 100_000)]);
}

#[test]
fn pruning_to_nothing_leaves_empty_lists() {
    let mut model = SimilarityModel::new();
    assert!(model.insert(1, 2, 100_000));
    model.prune(0);
    assert_eq!(model.len(), 2);
    assert!(model.neighbors(1).unwrap().is_empty());
    assert!(model.neighbors(2).unwrap().is_empty());
}
