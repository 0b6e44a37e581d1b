use cf_trainer::cf::{Entry, Rating};
use cf_trainer::similarity::{
    account_ratings, co_rated_pairs, items_by_account, shared_ratings, ItemPair, SharedRating,
};
use cf_trainer::stats::{Account, Tank};
use cf_trainer::trainer::{insert_account, RatingsIndex, Sampling};

fn entry(account_id: u32, wins: u32, battles: u32) -> Entry {
    Entry { account_id, rating: Rating { wins, battles } }
}

fn table(accounts: &[(u32, &[u32])]) -> cf_trainer::cf::Ratings {
    let mut index = RatingsIndex::new(0, Sampling::all());
    for &(id, items) in accounts {
        let tanks = items.iter().map(|&item| Tank { id: item, battles: 10, wins: 5 }).collect();
        insert_account(&mut index, Account { id, tanks });
    }
    index.finish()
}

#[test]
fn ratings_are_collected_by_account() {
    let ratings = account_ratings(&vec![entry(1, 5, 10), entry(7, 2, 3), entry(4, 0, 9)]).unwrap();
    assert_eq!(ratings.len(), 3);
    assert_eq!(ratings.get(&1), Some(&Rating { wins: 5, battles: 10 }));
    assert_eq!(ratings.get(&7), Some(&Rating { wins: 2, battles: 3 }));
    assert_eq!(ratings.get(&4), Some(&Rating { wins: 0, battles: 9 }));
    assert_eq!(ratings.get(&5), None);
    assert!(account_ratings(&Vec::new()).unwrap().is_empty());
}

#[test]
fn repeated_account_gives_no_map() {
    assert!(account_ratings(&vec![entry(1, 5, 10), entry(2, 1, 2), entry(1, 6, 10)]).is_none());
    assert!(account_ratings(&vec![entry(3, 1, 1), entry(3, 1, 1)]).is_none());
}

#[test]
fn shared_accounts_are_paired_in_the_order_of_the_first_item() {
    let first = vec![entry(5, 1, 2), entry(1, 3, 4), entry(9, 5, 6), entry(2, 7, 8)];
    let second = vec![entry(2, 10, 20), entry(7, 1, 1), entry(5, 30, 40)];
    assert_eq!(
        shared_ratings(&first, &second).unwrap(),
        vec![
            SharedRating {
                account_id: 5,
                first: Rating { wins: 1, battles: 2 },
                second: Rating { wins: 30, battles: 40 },
            },
            SharedRating {
                account_id: 2,
                first: Rating { wins: 7, battles: 8 },
                second: Rating { wins: 10, battles: 20 },
            },
        ]
    );
}

#[test]
fn swapping_the_items_swaps_the_ratings_of_each_pair() {
    let first = vec![entry(5, 1, 2), entry(1, 3, 4), entry(2, 7, 8)];
    let second = vec![entry(2, 10, 20), entry(5, 30, 40)];
    let forth = shared_ratings(&first, &second).unwrap();
    let mut back = shared_ratings(&second, &first).unwrap();
    back.sort_by_key(|pair| pair.account_id);
    let mut swapped: Vec<SharedRating> = forth
        .iter()
        .map(|pair| SharedRating {
            account_id: pair.account_id,
            first: pair.second,
            second: pair.first,
        })
        .collect();
    swapped.sort_by_key(|pair| pair.account_id);
    assert_eq!(back, swapped);
}

#[test]
fn items_without_a_common_account_share_nothing() {
    let first = vec![entry(1, 1, 2), entry(2, 1, 2)];
    let second = vec![entry(3, 1, 2)];
    assert!(shared_ratings(&first, &second).unwrap().is_empty());
    assert!(shared_ratings(&first, &Vec::new()).unwrap().is_empty());
    assert!(shared_ratings(&Vec::new(), &second).unwrap().is_empty());
}

#[test]
fn repeated_account_in_either_item_gives_no_pairs() {
    let clean = vec![entry(1, 1, 2), entry(2, 1, 2)];
    let faulty = vec![entry(3, 1, 2), entry(3, 2, 2)];
    assert!(shared_ratings(&clean, &faulty).is_none());
    assert!(shared_ratings(&faulty, &clean).is_none());
}

#[test]
fn index_lists_the_items_of_each_account() {
    let ratings = table(&[(100, &[1, 2]), (101, &[2, 3]), (102, &[])]);
    let index = items_by_account(&ratings);
    assert_eq!(index.len(), 2);
    assert_eq!(index.keys(), &vec![100, 101]);
    assert_eq!(index.get(&100).unwrap(), &vec![1, 2]);
    assert_eq!(index.get(&101).unwrap(), &vec![2, 3]);
    assert!(index.get(&102).is_none());
}

#[test]
fn only_items_with_a_common_account_are_paired() {
    let ratings = table(&[(100, &[1, 2]), (101, &[2, 3]), (102, &[4]), (103, &[3, 2, 1])]);
    let mut pairs = co_rated_pairs(&ratings);
    pairs.sort_by_key(|pair| (pair.first, pair.second));
    assert_eq!(
        pairs,
        vec![
            ItemPair { first: 1, second: 2 },
            ItemPair { first: 1, second: 3 },
            ItemPair { first: 2, second: 3 },
        ]
    );
}

#[test]
fn a_pair_is_listed_once_however_many_accounts_share_it() {
    let ratings = table(&[(1, &[8, 9]), (2, &[9, 8]), (3, &[8, 9]), (4, &[9])]);
    assert_eq!(co_rated_pairs(&ratings), vec![ItemPair { first: 8, second: 9 }]);
    assert!(co_rated_pairs(&table(&[(1, &[5]), (2, &[6])])).is_empty());
    assert!(co_rated_pairs(&table(&[])).is_empty());
}

#[test]
fn an_item_rated_twice_by_one_account_is_not_paired_with_itself() {
    let ratings = table(&[(1, &[5, 5, 6])]);
    assert_eq!(co_rated_pairs(&ratings), vec![ItemPair { first: 5, second: 6 }]);
}
