use cf_trainer::cf::Ratings;
use cf_trainer::engine::train;
use cf_trainer::error::RepeatedAccount;
use cf_trainer::model::{Neighbor, SCORE_ONE};
use cf_trainer::pearson::pearson;
use cf_trainer::similarity::shared_ratings;
use cf_trainer::stats::{Account, Tank};
use cf_trainer::trainer::{insert_account, RatingsIndex, Sampling};

/// Accounts with their tanks as (item, wins out of ten battles).
fn table(accounts: &[(u32, &[(u32, u32)])]) -> Ratings {
    let mut index = RatingsIndex::new(0, Sampling::all());
    for &(id, tanks) in accounts {
        let tanks = tanks.iter().map(|&(item, wins)| Tank { id: item, battles: 10, wins }).collect();
        insert_account(&mut index, Account { id, tanks });
    }
    index.finish()
}

fn sample() -> Ratings {
    table(&[
        (100, &[(1, 1), (2, 2), (3, 9)]),
        (101, &[(1, 5), (2, 6), (3, 5)]),
        (102, &[(1, 9), (2, 9), (3, 2)]),
        (103, &[(1, 3), (2, 5), (3, 6), (4, 7)]),
        (104, &[(5, 5)]),
    ])
}

fn score(ratings: &Ratings, a: u32, b: u32) -> i32 {
    let shared = shared_ratings(ratings.get(&a).unwrap(), ratings.get(&b).unwrap()).unwrap();
    pearson(&shared).unwrap()
}

#[test]
fn model_holds_each_pair_with_a_common_account_in_both_directions() {
    let ratings = sample();
    let model = train(&ratings, 10).unwrap();
    assert_eq!(model.len(), 4);
    assert!(model.neighbors(5).is_none());
    for (a, b) in [(1, 2), (1, 3), (1, 4), (2, 3), (2, 4), (3, 4)] {
        let expected = score(&ratings, a, b);
        assert_eq!(score(&ratings, b, a), expected);
        let forth: Vec<&Neighbor> =
            model.neighbors(a).unwrap().iter().filter(|n| n.item == b).collect();
        let back: Vec<&Neighbor> =
            model.neighbors(b).unwrap().iter().filter(|n| n.item == a).collect();
        assert_eq!(forth, vec![&Neighbor { item: b, score: expected }]);
        assert_eq!(back, vec![&Neighbor { item: a, score: expected }]);
    }
    assert_eq!(model.neighbors(1).unwrap().len(), 3);
    assert_eq!(model.neighbors(4).unwrap().len(), 3);
}

#[test]
fn scores_have_the_expected_signs() {
    let ratings = sample();
    let model = train(&ratings, 10).unwrap();
    let of_1 = model.neighbors(1).unwrap();
    let with_2 = of_1.iter().find(|n| n.item == 2).unwrap().score;
    let with_3 = of_1.iter().find(|n| n.item == 3).unwrap().score;
    let with_4 = of_1.iter().find(|n| n.item == 4).unwrap().score;
    assert!(with_2 > 900_000 && with_2 <= SCORE_ONE);
    assert!(with_3 < -900_000 && with_3 >= -SCORE_ONE);
    // One shared account only: nothing varies.
    assert_eq!(with_4, 0);
}

#[test]
fn every_item_keeps_its_strongest_neighbours() {
    let ratings = sample();
    let full = train(&ratings, 10).unwrap();
    let pruned = train(&ratings, 1).unwrap();
    assert_eq!(pruned.len(), 4);
    for item in [1, 2, 3, 4] {
        let all = full.neighbors(item).unwrap();
        let kept = pruned.neighbors(item).unwrap();
        assert_eq!(kept.len(), 1);
        assert_eq!(kept[0], all[0]);
        assert!(all.iter().all(|n| n.score.abs() <= kept[0].score.abs()));
    }
    let none = train(&ratings, 0).unwrap();
    assert!(none.neighbors(1).unwrap().is_empty());
}

#[test]
fn neighbours_are_sorted_by_strength() {
    let model = train(&sample(), 10).unwrap();
    for item in [1, 2, 3, 4] {
        let list = model.neighbors(item).unwrap();
        for pair in list.windows(2) {
            assert!(pair[0].score.abs() >= pair[1].score.abs());
        }
    }
}

#[test]
fn empty_table_gives_an_empty_model() {
    let model = train(&table(&[]), 5).unwrap();
    assert_eq!(model.len(), 0);
    let lonely = train(&table(&[(1, &[(7, 5)]), (2, &[(8, 5)])]), 5).unwrap();
    assert_eq!(lonely.len(), 0);
}

#[test]
fn two_ratings_of_one_account_for_an_item_are_a_fault() {
    let ratings = table(&[(100, &[(1, 1), (2, 2)]), (101, &[(2, 5), (3, 5)]), (100, &[(3, 1), (2, 9)])]);
    assert_eq!(train(&ratings, 5).err(), Some(RepeatedAccount { item: 2 }));
    let ratings = table(&[(7, &[(1, 1), (1, 2)])]);
    assert_eq!(train(&ratings, 5).err(), Some(RepeatedAccount { item: 1 }));
}
