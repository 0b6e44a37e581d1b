//! Training: from the ratings table to the similarity model.

use vstd::prelude::*;
use crate::buckets::{bucket_of, lists_keys};
use crate::cf::{is_ratings_table, Entry, Ratings};
use crate::error::RepeatedAccount;
use crate::model::{
    accepts_pair, has_neighbor, is_pruned_model, is_similarity_model, neighbors_of, with_pair,
    Neighbor, SimilarityModel,
};
use crate::pearson::{
    are_defined, are_win_rates, lemma_moments_of_same_pairs, lemma_pearson_of_nothing,
    lemma_pearson_symmetric, lemma_win_rates_fit, pearson, pearson_score, swapped,
};
use crate::similarity::{
    account_ratings, are_co_rated, co_rated_pairs, has_repeated_account, is_rated_by,
    lemma_accounts_fit, lemma_nothing_shared, lemma_rating_by_account,
    lemma_ratings_by_account_domain, lemma_shared_pairs_length,
    lemma_shared_pairs_distinct, lemma_shared_pairs_members, pair_at, ratings_by_account,
    shared_pairs, shared_ratings, ItemPair, SharedRating,
};

verus! {

/// The score of the items `a` and `b`: the correlation of their ratings
/// over the accounts that rated both.
pub open spec fn pair_score(table: Map<u32, Seq<Entry>>, a: u32, b: u32) -> Option<int> {
    pearson_score(shared_pairs(bucket_of(table, a), ratings_by_account(bucket_of(table, b))))
}

/// Whether `a` and `b`, the smaller id first, are a pair of the model
/// trained on `table`, with the score `score`: some account rated both,
/// and that is their score.
pub open spec fn is_scored_pair(table: Map<u32, Seq<Entry>>, a: u32, b: u32, score: i32) -> bool {
    a < b && are_co_rated(table, a, b) && pair_score(table, a, b) == Some(score as int)
}

/// Whether `model` is the unpruned model of `table`: it holds every
/// scored pair in both directions, and nothing else.
pub open spec fn is_trained_on(table: Map<u32, Seq<Entry>>, model: Map<u32, Seq<Neighbor>>) -> bool {
    &&& is_similarity_model(model)
    &&& forall|x: u32, y: u32, score: i32| #[trigger]
        neighbors_of(model, x).contains(Neighbor { item: y, score }) <==> is_scored_pair(
            table,
            x,
            y,
            score,
        ) || is_scored_pair(table, y, x, score)
}

/// Two items without a common account have a score of zero.
pub proof fn lemma_score_without_shared_account(table: Map<u32, Seq<Entry>>, a: u32, b: u32)
    requires
        !are_co_rated(table, a, b),
    ensures
        pair_score(table, a, b) == Some(0int),
{
    assert forall|account: u32|
        !(is_rated_by(bucket_of(table, a), account) && is_rated_by(bucket_of(table, b), account)) by {
        if is_rated_by(bucket_of(table, a), account) && is_rated_by(bucket_of(table, b), account) {
            assert(are_co_rated(table, a, b));
        }
    }
    lemma_nothing_shared(bucket_of(table, a), bucket_of(table, b));
    lemma_pearson_of_nothing();
}

/// The score of two items is the same in both directions: over buckets
/// in which no account occurs twice, it does not matter which of the two
/// items is taken first.
pub proof fn lemma_score_symmetric(first: Seq<Entry>, second: Seq<Entry>)
    requires
        !has_repeated_account(first),
        !has_repeated_account(second),
    ensures
        pearson_score(shared_pairs(second, ratings_by_account(first))) == pearson_score(
            shared_pairs(first, ratings_by_account(second)),
        ),
{
    let of_first = ratings_by_account(first);
    let of_second = ratings_by_account(second);
    let forth = shared_pairs(first, of_second);
    let back = shared_pairs(second, of_first);
    let turned = swapped(back);
    lemma_shared_pairs_distinct(first, of_second);
    lemma_shared_pairs_distinct(second, of_first);
    assert(turned.no_duplicates()) by {
        assert forall|i: int, j: int|
            0 <= i < turned.len() && 0 <= j < turned.len() && i != j implies turned[i]
            != turned[j] by {
            assert(back[i] != back[j]);
        }
    }
    assert forall|pair: SharedRating| forth.contains(pair) <==> turned.contains(pair) by {
        lemma_shared_pairs_members(first, of_second, pair);
        let other = SharedRating {
            account_id: pair.account_id,
            first: pair.second,
            second: pair.first,
        };
        lemma_shared_pairs_members(second, of_first, other);
        if forth.contains(pair) {
            let i = choose|i: int|
                0 <= i < first.len() && of_second.contains_key(first[i].account_id) && pair
                    == #[trigger] pair_at(first, of_second, i);
            let account = first[i].account_id;
            lemma_rating_by_account(first, i);
            lemma_ratings_by_account_domain(second, account);
            let j = choose|j: int| 0 <= j < second.len() && (#[trigger] second[j]).account_id
                == account;
            lemma_rating_by_account(second, j);
            assert(other == pair_at(second, of_first, j));
            let k = choose|k: int| 0 <= k < back.len() && back[k] == other;
            assert(turned[k] == pair);
        }
        if turned.contains(pair) {
            let k = choose|k: int| 0 <= k < turned.len() && turned[k] == pair;
            assert(back[k] == other);
            assert(back.contains(other));
            let j = choose|j: int|
                0 <= j < second.len() && of_first.contains_key(second[j].account_id) && other
                    == #[trigger] pair_at(second, of_first, j);
            let account = second[j].account_id;
            lemma_rating_by_account(second, j);
            lemma_ratings_by_account_domain(first, account);
            let i = choose|i: int| 0 <= i < first.len() && (#[trigger] first[i]).account_id
                == account;
            lemma_rating_by_account(first, i);
            assert(pair == pair_at(first, of_second, i));
        }
    }
    lemma_moments_of_same_pairs(forth, turned);
    lemma_pearson_symmetric(back);
}

/// Whether every rating of `entries` is a win rate: it has a battle behind
/// it and no more wins than battles.
pub open spec fn holds_win_rates(entries: Seq<Entry>) -> bool {
    forall|i: int|
        0 <= i < entries.len() ==> 0 < (#[trigger] entries[i]).rating.battles && entries[i].rating.wins
            <= entries[i].rating.battles
}

proof fn lemma_win_rate_by_account(entries: Seq<Entry>, account: u32)
    requires
        holds_win_rates(entries),
        ratings_by_account(entries).contains_key(account),
    ensures
        0 < ratings_by_account(entries)[account].battles,
        ratings_by_account(entries)[account].wins <= ratings_by_account(entries)[account].battles,
    decreases entries.len(),
{
    if entries.len() > 0 {
        let front = entries.drop_last();
        assert(entries.last() == entries[entries.len() - 1]);
        if entries.last().account_id != account {
            assert forall|i: int| 0 <= i < front.len() implies 0 < (
            #[trigger] front[i]).rating.battles && front[i].rating.wins
                <= front[i].rating.battles by {
                assert(front[i] == entries[i]);
            }
            lemma_win_rate_by_account(front, account);
        }
    }
}

proof fn lemma_shared_win_rates(first: Seq<Entry>, second: Seq<Entry>)
    requires
        holds_win_rates(first),
        holds_win_rates(second),
    ensures
        are_win_rates(shared_pairs(first, ratings_by_account(second))),
    decreases first.len(),
{
    if first.len() > 0 {
        let front = first.drop_last();
        assert forall|i: int| 0 <= i < front.len() implies 0 < (#[trigger] front[i]).rating.battles
            && front[i].rating.wins <= front[i].rating.battles by {
            assert(front[i] == first[i]);
        }
        lemma_shared_win_rates(front, second);
        let last = first.last();
        assert(last == first[first.len() - 1]);
        if ratings_by_account(second).contains_key(last.account_id) {
            lemma_win_rate_by_account(second, last.account_id);
        }
    }
}

/// Two buckets of win rates always have a score: where no rating has more
/// wins than battles and no account occurs twice in the first bucket, the
/// sums are within what the arithmetic can hold, so that training leaves
/// no pair of such buckets out.
pub proof fn lemma_win_rates_have_score(first: Seq<Entry>, second: Seq<Entry>)
    requires
        holds_win_rates(first),
        holds_win_rates(second),
        !has_repeated_account(first),
    ensures
        pearson_score(shared_pairs(first, ratings_by_account(second))) is Some,
{
    let pairs = shared_pairs(first, ratings_by_account(second));
    lemma_shared_win_rates(first, second);
    lemma_shared_pairs_length(first, ratings_by_account(second));
    lemma_accounts_fit(first);
    lemma_win_rates_fit(pairs);
}

/// Whether some item of `table` has two ratings by one account.
pub open spec fn has_repeats(table: Map<u32, Seq<Entry>>) -> bool {
    exists|item: u32| table.contains_key(item) && has_repeated_account(#[trigger] table[item])
}

proof fn lemma_ratings_by_account_defined(entries: Seq<Entry>, account: u32)
    requires
        forall|i: int| 0 <= i < entries.len() ==> (#[trigger] entries[i]).rating.battles > 0,
        ratings_by_account(entries).contains_key(account),
    ensures
        ratings_by_account(entries)[account].battles > 0,
    decreases entries.len(),
{
    if entries.len() > 0 {
        let front = entries.drop_last();
        assert(entries.last() == entries[entries.len() - 1]);
        if entries.last().account_id != account {
            assert forall|i: int| 0 <= i < front.len() implies (#[trigger] front[i]).rating.battles
                > 0 by {
                assert(front[i] == entries[i]);
            }
            lemma_ratings_by_account_defined(front, account);
        }
    }
}

proof fn lemma_shared_pairs_defined(first: Seq<Entry>, second: Seq<Entry>)
    requires
        forall|i: int| 0 <= i < first.len() ==> (#[trigger] first[i]).rating.battles > 0,
        forall|i: int| 0 <= i < second.len() ==> (#[trigger] second[i]).rating.battles > 0,
    ensures
        are_defined(shared_pairs(first, ratings_by_account(second))),
    decreases first.len(),
{
    if first.len() > 0 {
        let front = first.drop_last();
        assert forall|i: int| 0 <= i < front.len() implies (#[trigger] front[i]).rating.battles
            > 0 by {
            assert(front[i] == first[i]);
        }
        lemma_shared_pairs_defined(front, second);
        let last = first.last();
        assert(last == first[first.len() - 1]);
        if ratings_by_account(second).contains_key(last.account_id) {
            lemma_ratings_by_account_defined(second, last.account_id);
        }
    }
}

proof fn lemma_with_pair_contains(
    model: Map<u32, Seq<Neighbor>>,
    a: u32,
    b: u32,
    score: i32,
    x: u32,
    neighbor: Neighbor,
)
    requires
        a != b,
    ensures
        neighbors_of(with_pair(model, a, b, score), x).contains(neighbor) <==> neighbors_of(
            model,
            x,
        ).contains(neighbor) || (x == a && neighbor == Neighbor { item: b, score }) || (x == b
            && neighbor == Neighbor { item: a, score }),
{
    let before = neighbors_of(model, x);
    let after = neighbors_of(with_pair(model, a, b, score), x);
    if x == a {
        assert(after == before.push(Neighbor { item: b, score }));
    } else if x == b {
        assert(after == before.push(Neighbor { item: a, score }));
    } else {
        assert(after == before);
    }
    if x == a || x == b {
        let added = if x == a {
            Neighbor { item: b, score }
        } else {
            Neighbor { item: a, score }
        };
        if before.contains(neighbor) {
            let i = choose|i: int| 0 <= i < before.len() && before[i] == neighbor;
            assert(after[i] == neighbor);
        }
        if neighbor == added {
            assert(after[before.len() as int] == neighbor);
        }
    }
}

/// Finds an item with two ratings by one account: the first in the order
/// of the table's items.
fn find_repeats(ratings: &Ratings) -> (found: Option<u32>)
    ensures
        is_ratings_table(ratings@),
        found is Some <==> has_repeats(ratings@),
        found matches Some(item) ==> ratings@.contains_key(item) && has_repeated_account(
            ratings@[item],
        ),
{
    let items = ratings.items();
    let mut p: usize = 0;
    while p < items.len()
        invariant
            p <= items.len(),
            lists_keys(items@, ratings@),
            forall|q: int| 0 <= q < p ==> !has_repeated_account(ratings@[#[trigger] items@[q]]),
        decreases items.len() - p,
    {
        let item = items[p];
        assert(items@.contains(item));
        let entries = match ratings.get(&item) {
            Some(entries) => entries,
            None => vstd::pervasive::unreached(),
        };
        if account_ratings(entries).is_none() {
            return Some(item);
        }
        p = p + 1;
    }
    proof {
        if has_repeats(ratings@) {
            let item = choose|item: u32|
                ratings@.contains_key(item) && has_repeated_account(#[trigger] ratings@[item]);
            assert(items@.contains(item));
            let q = choose|q: int| 0 <= q < items@.len() && items@[q] == item;
            assert(!has_repeated_account(ratings@[items@[q]]));
        }
    }
    None
}

/// Trains the similarity model on the ratings table.
///
/// Every two items that share an account are scored with the correlation
/// of their ratings over the shared accounts, and each becomes a
/// neighbour of the other. A pair whose score is beyond the arithmetic is
/// left out; there is no such pair where no rating has more wins than
/// battles. In the end every item keeps its `top_k` strongest
/// neighbours.
///
/// A table in which an item has two ratings by one account is at fault:
/// no model is trained on it.
pub fn train(ratings: &Ratings, top_k: usize) -> (result: Result<SimilarityModel, RepeatedAccount>)
    ensures
        result is Err <==> has_repeats(ratings@),
        result matches Err(fault) ==> ratings@.contains_key(fault.item) && has_repeated_account(
            ratings@[fault.item],
        ),
        result matches Ok(model) ==> is_similarity_model(model@) && exists|full: Map<u32, Seq<Neighbor>>|
            #[trigger] is_trained_on(ratings@, full) && is_pruned_model(full, top_k as nat, model@),
{
    match find_repeats(ratings) {
        Some(item) => {
            return Err(RepeatedAccount { item });
        },
        None => {},
    }
    let pairs = co_rated_pairs(ratings);
    let mut model = SimilarityModel::new();
    let mut p: usize = 0;
    assert(forall|x: u32| neighbors_of(model@, x) =~= Seq::<Neighbor>::empty());
    while p < pairs.len()
        invariant
            p <= pairs.len(),
            !has_repeats(ratings@),
            is_ratings_table(ratings@),
            is_similarity_model(model@),
            pairs@.no_duplicates(),
            forall|k: int|
                0 <= k < pairs@.len() ==> {
                    let pair = #[trigger] pairs@[k];
                    pair.first < pair.second && are_co_rated(ratings@, pair.first, pair.second)
                },
            forall|x: u32, y: u32, score: i32| #[trigger]
                neighbors_of(model@, x).contains(Neighbor { item: y, score }) <==> (is_scored_pair(
                    ratings@,
                    x,
                    y,
                    score,
                ) && pairs@.take(p as int).contains(ItemPair { first: x, second: y })) || (
                is_scored_pair(ratings@, y, x, score) && pairs@.take(p as int).contains(
                    ItemPair { first: y, second: x },
                )),
        decreases pairs.len() - p,
    {
        let pair = pairs[p];
        let a = pair.first;
        let b = pair.second;
        let ghost done = pairs@.take(p as int);
        let ghost next = pairs@.take(p + 1);
        proof {
            assert(pairs@[p as int] == pair);
            assert(next =~= done.push(pair));
            let account = choose|account: u32| #[trigger]
                is_rated_by(bucket_of(ratings@, a), account) && is_rated_by(
                    bucket_of(ratings@, b),
                    account,
                );
            assert(ratings@.contains_key(a) && ratings@.contains_key(b));
        }
        let first = match ratings.get(&a) {
            Some(entries) => entries,
            None => vstd::pervasive::unreached(),
        };
        let second = match ratings.get(&b) {
            Some(entries) => entries,
            None => vstd::pervasive::unreached(),
        };
        let shared = match shared_ratings(first, second) {
            Some(shared) => shared,
            None => vstd::pervasive::unreached(),
        };
        proof {
            lemma_shared_pairs_defined(first@, second@);
            assert(!done.contains(pair)) by {
                if done.contains(pair) {
                    let k = choose|k: int| 0 <= k < done.len() && done[k] == pair;
                    assert(pairs@[k] == pairs@[p as int]);
                }
            }
        }
        let ghost before = model@;
        match pearson(&shared) {
            Some(score) => {
                proof {
                    assert(is_scored_pair(ratings@, a, b, score));
                    assert(!has_neighbor(neighbors_of(before, a), b)) by {
                        if has_neighbor(neighbors_of(before, a), b) {
                            let i = choose|i: int|
                                0 <= i < neighbors_of(before, a).len() && (
                                #[trigger] neighbors_of(before, a)[i]).item == b;
                            let n = neighbors_of(before, a)[i];
                            assert(neighbors_of(before, a).contains(
                                Neighbor { item: b, score: n.score },
                            ));
                        }
                    }
                    assert(!has_neighbor(neighbors_of(before, b), a)) by {
                        if has_neighbor(neighbors_of(before, b), a) {
                            let i = choose|i: int|
                                0 <= i < neighbors_of(before, b).len() && (
                                #[trigger] neighbors_of(before, b)[i]).item == a;
                            let n = neighbors_of(before, b)[i];
                            assert(neighbors_of(before, b).contains(
                                Neighbor { item: a, score: n.score },
                            ));
                        }
                    }
                    assert(accepts_pair(before, a, b, score));
                }
                let inserted = model.insert(a, b, score);
                proof {
                    assert(model@ == with_pair(before, a, b, score));
                    assert forall|x: u32, y: u32, other: i32| #[trigger]
                        neighbors_of(model@, x).contains(Neighbor { item: y, score: other }) <==> (
                        is_scored_pair(ratings@, x, y, other) && next.contains(
                            ItemPair { first: x, second: y },
                        )) || (is_scored_pair(ratings@, y, x, other) && next.contains(
                            ItemPair { first: y, second: x },
                        )) by {
                        lemma_with_pair_contains(
                            before,
                            a,
                            b,
                            score,
                            x,
                            Neighbor { item: y, score: other },
                        );
                        lemma_take_contains(pairs@, p as int, ItemPair { first: x, second: y });
                        lemma_take_contains(pairs@, p as int, ItemPair { first: y, second: x });
                        assert(neighbors_of(before, x).contains(Neighbor { item: y, score: other })
                            <==> (is_scored_pair(ratings@, x, y, other) && done.contains(
                            ItemPair { first: x, second: y },
                        )) || (is_scored_pair(ratings@, y, x, other) && done.contains(
                            ItemPair { first: y, second: x },
                        )));
                    }
                }
            },
            None => {
                proof {
                    assert forall|x: u32, y: u32, other: i32| #[trigger]
                        neighbors_of(model@, x).contains(Neighbor { item: y, score: other }) <==> (
                        is_scored_pair(ratings@, x, y, other) && next.contains(
                            ItemPair { first: x, second: y },
                        )) || (is_scored_pair(ratings@, y, x, other) && next.contains(
                            ItemPair { first: y, second: x },
                        )) by {
                        lemma_take_contains(pairs@, p as int, ItemPair { first: x, second: y });
                        lemma_take_contains(pairs@, p as int, ItemPair { first: y, second: x });
                        assert(neighbors_of(before, x).contains(Neighbor { item: y, score: other })
                            <==> (is_scored_pair(ratings@, x, y, other) && done.contains(
                            ItemPair { first: x, second: y },
                        )) || (is_scored_pair(ratings@, y, x, other) && done.contains(
                            ItemPair { first: y, second: x },
                        )));
                    }
                }
            },
        }
        p = p + 1;
    }
    let ghost full = model@;
    proof {
        assert(pairs@.take(pairs.len() as int) =~= pairs@);
        assert forall|x: u32, y: u32, score: i32| #[trigger]
            neighbors_of(full, x).contains(Neighbor { item: y, score }) <==> is_scored_pair(
                ratings@,
                x,
                y,
                score,
            ) || is_scored_pair(ratings@, y, x, score) by {
            if is_scored_pair(ratings@, x, y, score) {
                assert(are_co_rated(ratings@, x, y));
            }
            if is_scored_pair(ratings@, y, x, score) {
                assert(are_co_rated(ratings@, y, x));
            }
        }
        assert(is_trained_on(ratings@, full));
    }
    model.prune(top_k);
    Ok(model)
}

proof fn lemma_take_contains(pairs: Seq<ItemPair>, p: int, pair: ItemPair)
    requires
        0 <= p < pairs.len(),
    ensures
        pairs.take(p + 1).contains(pair) <==> pairs.take(p).contains(pair) || pairs[p] == pair,
{
    let done = pairs.take(p);
    let next = pairs.take(p + 1);
    if done.contains(pair) {
        let k = choose|k: int| 0 <= k < done.len() && done[k] == pair;
        assert(next[k] == pair);
    }
    if pairs[p] == pair {
        assert(next[p] == pair);
    }
    if next.contains(pair) {
        let k = choose|k: int| 0 <= k < next.len() && next[k] == pair;
        if k < p {
            assert(done[k] == pair);
        }
    }
}

} // verus!
