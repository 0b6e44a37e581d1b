//! The accounts that two items share.
//!
//! The similarity of two items is computed from the ratings of the
//! accounts that rated both. This module finds those accounts and pairs
//! their ratings up; the arithmetic on the pairs is the caller's.

use std::collections::{HashMap, HashSet};
use vstd::prelude::*;
use crate::buckets::{bucket_of, lists_keys, Buckets};
use crate::cf::{Entry, Rating, Ratings};

verus! {

broadcast use vstd::std_specs::hash::group_hash_axioms;

/// The two ratings that one account gave to a pair of items.
#[derive(Debug, Clone, Copy, PartialEq, Eq, Structural)]
pub struct SharedRating {
    pub account_id: u32,
    /// The account's rating of the first item.
    pub first: Rating,
    /// The account's rating of the second item.
    pub second: Rating,
}

/// Whether some account occurs twice in `entries`.
pub open spec fn has_repeated_account(entries: Seq<Entry>) -> bool {
    exists|i: int, j: int|
        0 <= i < j < entries.len() && (#[trigger] entries[i]).account_id == (
        #[trigger] entries[j]).account_id
}

/// Whether `account` has an entry in `entries`.
pub open spec fn is_rated_by(entries: Seq<Entry>, account: u32) -> bool {
    exists|i: int| 0 <= i < entries.len() && (#[trigger] entries[i]).account_id == account
}

/// The ratings in `entries` by account. Where an account occurs more than
/// once, its last entry counts.
pub open spec fn ratings_by_account(entries: Seq<Entry>) -> Map<u32, Rating>
    decreases entries.len(),
{
    if entries.len() == 0 {
        Map::empty()
    } else {
        ratings_by_account(entries.drop_last()).insert(
            entries.last().account_id,
            entries.last().rating,
        )
    }
}

/// The entries of `entries` whose account has a rating in `other`, in
/// order, each with that other rating beside its own.
pub open spec fn shared_pairs(entries: Seq<Entry>, other: Map<u32, Rating>) -> Seq<SharedRating>
    decreases entries.len(),
{
    if entries.len() == 0 {
        Seq::empty()
    } else {
        let before = shared_pairs(entries.drop_last(), other);
        let entry = entries.last();
        if other.contains_key(entry.account_id) {
            before.push(
                SharedRating {
                    account_id: entry.account_id,
                    first: entry.rating,
                    second: other[entry.account_id],
                },
            )
        } else {
            before
        }
    }
}

/// The accounts with a rating in `ratings_by_account(entries)` are those
/// with an entry in `entries`.
pub proof fn lemma_ratings_by_account_domain(entries: Seq<Entry>, account: u32)
    ensures
        ratings_by_account(entries).contains_key(account) <==> is_rated_by(entries, account),
    decreases entries.len(),
{
    if entries.len() > 0 {
        let front = entries.drop_last();
        lemma_ratings_by_account_domain(front, account);
        if is_rated_by(entries, account) {
            let i = choose|i: int| 0 <= i < entries.len() && (#[trigger] entries[i]).account_id
                == account;
            if i < front.len() {
                assert(front[i].account_id == account);
            }
        }
        if is_rated_by(front, account) {
            let i = choose|i: int| 0 <= i < front.len() && (#[trigger] front[i]).account_id
                == account;
            assert(entries[i].account_id == account);
        }
        if entries.last().account_id == account {
            assert(entries[entries.len() - 1].account_id == account);
        }
    }
}

/// Collects the ratings in `entries` by account, or finds an account that
/// occurs twice.
///
/// An item's bucket holds one rating per account. Two ratings of one
/// account are a fault in the data, and they are not merged: there is no
/// map then.
pub fn account_ratings(entries: &Vec<Entry>) -> (result: Option<HashMap<u32, Rating>>)
    ensures
        result is None <==> has_repeated_account(entries@),
        result matches Some(ratings) ==> ratings@ == ratings_by_account(entries@),
{
    let mut ratings: HashMap<u32, Rating> = HashMap::new();
    let mut i: usize = 0;
    assert(entries@.take(0) =~= Seq::<Entry>::empty());
    while i < entries.len()
        invariant
            i <= entries.len(),
            !has_repeated_account(entries@.take(i as int)),
            ratings@ == ratings_by_account(entries@.take(i as int)),
        decreases entries.len() - i,
    {
        let entry = entries[i];
        let ghost front = entries@.take(i as int);
        let ghost next = entries@.take(i + 1);
        assert(next.drop_last() =~= front);
        assert(next.last() == entry);
        proof {
            lemma_ratings_by_account_domain(front, entry.account_id);
        }
        if ratings.contains_key(&entry.account_id) {
            proof {
                let k = choose|k: int| 0 <= k < front.len() && (#[trigger] front[k]).account_id
                    == entry.account_id;
                assert(entries@[k].account_id == entries@[i as int].account_id);
            }
            return None;
        }
        ratings.insert(entry.account_id, entry.rating);
        proof {
            if has_repeated_account(next) {
                let (a, b) = choose|a: int, b: int|
                    0 <= a < b < next.len() && (#[trigger] next[a]).account_id == (
                    #[trigger] next[b]).account_id;
                if b < front.len() {
                    assert(front[a].account_id == front[b].account_id);
                } else {
                    assert(front[a].account_id == entry.account_id);
                }
            }
        }
        i = i + 1;
    }
    assert(entries@.take(entries.len() as int) =~= entries@);
    Some(ratings)
}

/// Pairs up the ratings of the accounts that rated both items.
///
/// The pairs come in the order of `entries_1`. Where either item has two
/// ratings by one account there are no pairs to be had: the data is at
/// fault, and the fault is reported instead of being smoothed over.
pub fn shared_ratings(entries_1: &Vec<Entry>, entries_2: &Vec<Entry>) -> (result: Option<
    Vec<SharedRating>,
>)
    ensures
        result is None <==> has_repeated_account(entries_1@) || has_repeated_account(entries_2@),
        result matches Some(pairs) ==> pairs@ == shared_pairs(
            entries_1@,
            ratings_by_account(entries_2@),
        ),
{
    if account_ratings(entries_1).is_none() {
        return None;
    }
    let ratings_2 = match account_ratings(entries_2) {
        Some(ratings) => ratings,
        None => {
            return None;
        },
    };
    let mut pairs: Vec<SharedRating> = Vec::new();
    let mut i: usize = 0;
    assert(entries_1@.take(0) =~= Seq::<Entry>::empty());
    while i < entries_1.len()
        invariant
            i <= entries_1.len(),
            pairs@ == shared_pairs(entries_1@.take(i as int), ratings_2@),
        decreases entries_1.len() - i,
    {
        let entry = entries_1[i];
        assert(entries_1@.take(i + 1).drop_last() =~= entries_1@.take(i as int));
        assert(entries_1@.take(i + 1).last() == entry);
        match ratings_2.get(&entry.account_id) {
            Some(second) => {
                pairs.push(
                    SharedRating {
                        account_id: entry.account_id,
                        first: entry.rating,
                        second: *second,
                    },
                );
            },
            None => {},
        }
        i = i + 1;
    }
    assert(entries_1@.take(entries_1.len() as int) =~= entries_1@);
    Some(pairs)
}

/// Two items, the one with the smaller id first.
#[derive(Debug, Clone, Copy, PartialEq, Eq, Structural)]
pub struct ItemPair {
    pub first: u32,
    pub second: u32,
}

/// Whether some account has rated both `a` and `b`.
pub open spec fn are_co_rated(table: Map<u32, Seq<Entry>>, a: u32, b: u32) -> bool {
    exists|account: u32| #[trigger]
        is_rated_by(bucket_of(table, a), account) && is_rated_by(bucket_of(table, b), account)
}

/// The pair of `x` and `y`, the smaller id first.
pub open spec fn pair_of(x: u32, y: u32) -> ItemPair {
    if x < y {
        ItemPair { first: x, second: y }
    } else {
        ItemPair { first: y, second: x }
    }
}

/// Whether `index` is the table turned round: it lists under each account
/// the items that the account has rated, and no others.
pub open spec fn is_inverted(index: Map<u32, Seq<u32>>, table: Map<u32, Seq<Entry>>) -> bool {
    forall|account: u32, item: u32| #[trigger]
        bucket_of(index, account).contains(item) <==> is_rated_by(bucket_of(table, item), account)
}

proof fn lemma_is_rated_by_push(entries: Seq<Entry>, n: int, account: u32)
    requires
        0 <= n < entries.len(),
    ensures
        is_rated_by(entries.take(n + 1), account) <==> is_rated_by(entries.take(n), account)
            || entries[n].account_id == account,
{
    let front = entries.take(n);
    let next = entries.take(n + 1);
    if is_rated_by(next, account) {
        let i = choose|i: int| 0 <= i < next.len() && (#[trigger] next[i]).account_id == account;
        if i < n {
            assert(front[i].account_id == account);
        }
    }
    if is_rated_by(front, account) {
        let i = choose|i: int| 0 <= i < front.len() && (#[trigger] front[i]).account_id == account;
        assert(next[i].account_id == account);
    }
    if entries[n].account_id == account {
        assert(next[n].account_id == account);
    }
}

proof fn lemma_contains_push(list: Seq<u32>, value: u32, other: u32)
    ensures
        list.push(value).contains(other) <==> list.contains(other) || other == value,
{
    let after = list.push(value);
    if list.contains(other) {
        let i = choose|i: int| 0 <= i < list.len() && list[i] == other;
        assert(after[i] == other);
    }
    if other == value {
        assert(after[list.len() as int] == other);
    }
}

/// Turns the table round: for each account the items that it has rated.
///
/// An item stands twice under an account that rated it twice.
pub fn items_by_account(ratings: &Ratings) -> (index: Buckets<u32>)
    ensures
        is_inverted(index@, ratings@),
{
    let items = ratings.items();
    let mut index: Buckets<u32> = Buckets::new();
    let mut p: usize = 0;
    while p < items.len()
        invariant
            p <= items.len(),
            lists_keys(items@, ratings@),
            forall|account: u32, item: u32| #[trigger]
                bucket_of(index@, account).contains(item) <==> items@.take(p as int).contains(item)
                    && is_rated_by(bucket_of(ratings@, item), account),
        decreases items.len() - p,
    {
        let item = items[p];
        assert(items@.contains(item));
        let entries = match ratings.get(&item) {
            Some(entries) => entries,
            None => vstd::pervasive::unreached(),
        };
        let mut q: usize = 0;
        assert(entries@.take(0) =~= Seq::<Entry>::empty());
        while q < entries.len()
            invariant
                q <= entries.len(),
                p < items.len(),
                item == items@[p as int],
                entries@ == bucket_of(ratings@, item),
                forall|account: u32, other: u32| #[trigger]
                    bucket_of(index@, account).contains(other) <==> (items@.take(p as int).contains(
                        other,
                    ) && is_rated_by(bucket_of(ratings@, other), account)) || (other == item
                        && is_rated_by(entries@.take(q as int), account)),
            decreases entries.len() - q,
        {
            let account_id = entries[q].account_id;
            let ghost before = index@;
            index.add(account_id, item);
            proof {
                assert forall|account: u32, other: u32| #[trigger]
                    bucket_of(index@, account).contains(other) <==> (items@.take(p as int).contains(
                        other,
                    ) && is_rated_by(bucket_of(ratings@, other), account)) || (other == item
                        && is_rated_by(entries@.take(q + 1), account)) by {
                    lemma_is_rated_by_push(entries@, q as int, account);
                    assert(bucket_of(before, account).contains(other) <==> (items@.take(
                        p as int,
                    ).contains(other) && is_rated_by(bucket_of(ratings@, other), account)) || (
                    other == item && is_rated_by(entries@.take(q as int), account)));
                    if account == account_id {
                        lemma_contains_push(bucket_of(before, account), item, other);
                    }
                }
            }
            q = q + 1;
        }
        proof {
            assert(entries@.take(entries.len() as int) =~= entries@);
            assert forall|account: u32, other: u32| #[trigger]
                bucket_of(index@, account).contains(other) <==> items@.take(p + 1).contains(other)
                    && is_rated_by(bucket_of(ratings@, other), account) by {
                assert(items@.take(p + 1) =~= items@.take(p as int).push(item));
                lemma_contains_push(items@.take(p as int), item, other);
            }
        }
        p = p + 1;
    }
    proof {
        assert(items@.take(items.len() as int) =~= items@);
        assert forall|account: u32, item: u32| #[trigger]
            bucket_of(index@, account).contains(item) <==> is_rated_by(
                bucket_of(ratings@, item),
                account,
            ) by {
            if !ratings@.contains_key(item) {
                assert(!is_rated_by(bucket_of(ratings@, item), account));
            }
        }
    }
    index
}

/// The key under which a pair is remembered: the two ids side by side.
spec fn pair_key(pair: ItemPair) -> u64 {
    (pair.first * 0x1_0000_0000 + pair.second) as u64
}

/// Whether `seen` holds the keys of the pairs in `pairs`, and no other
/// pair's key.
spec fn remembers(seen: Set<u64>, pairs: Seq<ItemPair>) -> bool {
    forall|pair: ItemPair| #[trigger] seen.contains(pair_key(pair)) <==> pairs.contains(pair)
}

/// Whether `pair` is made of two different entries of `list`.
spec fn is_pair_from(list: Seq<u32>, pair: ItemPair) -> bool {
    exists|i: int, j: int|
        0 <= i < j < list.len() && list[i] != list[j] && pair == #[trigger] pair_of(
            list[i],
            list[j],
        )
}

/// Whether `pairs` holds the pair of every two different entries of
/// `list` of which the first stands before `i`, or at `i` with the second
/// before `j`.
spec fn covers_until(pairs: Seq<ItemPair>, list: Seq<u32>, i: int, j: int) -> bool {
    forall|x: int, y: int|
        0 <= x < y < list.len() && (x < i || (x == i && y < j)) && list[x] != list[y]
            ==> pairs.contains(#[trigger] pair_of(list[x], list[y]))
}

fn add_pair(pairs: &mut Vec<ItemPair>, seen: &mut HashSet<u64>, x: u32, y: u32)
    requires
        x != y,
        remembers(old(seen)@, old(pairs)@),
        old(pairs)@.no_duplicates(),
    ensures
        remembers(final(seen)@, final(pairs)@),
        final(pairs)@.no_duplicates(),
        final(pairs)@.contains(pair_of(x, y)),
        final(pairs)@ == old(pairs)@ || final(pairs)@ == old(pairs)@.push(pair_of(x, y)),
{
    let pair = if x < y {
        ItemPair { first: x, second: y }
    } else {
        ItemPair { first: y, second: x }
    };
    let key = (pair.first as u64) * 0x1_0000_0000 + (pair.second as u64);
    assert(key == pair_key(pair));
    if seen.contains(&key) {
        return ;
    }
    let ghost before = pairs@;
    let ghost seen_before = seen@;
    seen.insert(key);
    pairs.push(pair);
    proof {
        assert(pairs@[before.len() as int] == pair);
        assert forall|other: ItemPair| #[trigger]
            seen@.contains(pair_key(other)) <==> pairs@.contains(other) by {
            assert(seen_before.contains(pair_key(other)) <==> before.contains(other));
            if before.contains(other) {
                let k = choose|k: int| 0 <= k < before.len() && before[k] == other;
                assert(pairs@[k] == other);
            }
            if pair_key(other) == pair_key(pair) {
                assert(other == pair);
            }
        }
        assert forall|i: int, j: int| 0 <= i < pairs@.len() && 0 <= j < pairs@.len() && i != j implies pairs@[i]
            != pairs@[j] by {
            if i < before.len() {
                assert(before.contains(pairs@[i]));
            }
            if j < before.len() {
                assert(before.contains(pairs@[j]));
            }
        }
    }
}

proof fn lemma_grown_contains(before: Seq<ItemPair>, after: Seq<ItemPair>, added: ItemPair)
    requires
        after == before || after == before.push(added),
    ensures
        forall|pair: ItemPair| before.contains(pair) ==> #[trigger] after.contains(pair),
        forall|k: int| 0 <= k < after.len() ==> k < before.len() && after[k] == before[k] || (
        #[trigger] after[k]) == added,
{
    assert forall|pair: ItemPair| before.contains(pair) implies #[trigger] after.contains(pair) by {
        let k = choose|k: int| 0 <= k < before.len() && before[k] == pair;
        assert(after[k] == pair);
    }
}

/// Adds to `pairs` the pair of every two different entries of `list`
/// that it does not hold yet.
fn add_pairs_of(list: &Vec<u32>, pairs: &mut Vec<ItemPair>, seen: &mut HashSet<u64>)
    requires
        remembers(old(seen)@, old(pairs)@),
        old(pairs)@.no_duplicates(),
    ensures
        remembers(final(seen)@, final(pairs)@),
        final(pairs)@.no_duplicates(),
        forall|pair: ItemPair| old(pairs)@.contains(pair) ==> #[trigger] final(pairs)@.contains(pair),
        forall|k: int|
            0 <= k < final(pairs)@.len() ==> old(pairs)@.contains(#[trigger] final(pairs)@[k])
                || is_pair_from(list@, final(pairs)@[k]),
        covers_until(final(pairs)@, list@, list@.len() as int, 0),
{
    let mut i: usize = 0;
    while i < list.len()
        invariant
            i <= list.len(),
            remembers(seen@, pairs@),
            pairs@.no_duplicates(),
            forall|pair: ItemPair| old(pairs)@.contains(pair) ==> #[trigger] pairs@.contains(pair),
            forall|k: int|
                0 <= k < pairs@.len() ==> old(pairs)@.contains(#[trigger] pairs@[k])
                    || is_pair_from(list@, pairs@[k]),
            covers_until(pairs@, list@, i as int, 0),
        decreases list.len() - i,
    {
        let mut j: usize = i + 1;
        while j < list.len()
            invariant
                i < list.len(),
                i < j <= list.len(),
                remembers(seen@, pairs@),
                pairs@.no_duplicates(),
                forall|pair: ItemPair| old(pairs)@.contains(pair) ==> #[trigger] pairs@.contains(pair),
                forall|k: int|
                    0 <= k < pairs@.len() ==> old(pairs)@.contains(#[trigger] pairs@[k])
                        || is_pair_from(list@, pairs@[k]),
                covers_until(pairs@, list@, i as int, j as int),
            decreases list.len() - j,
        {
            if list[i] != list[j] {
                let ghost before = pairs@;
                add_pair(pairs, seen, list[i], list[j]);
                proof {
                    let added = pair_of(list@[i as int], list@[j as int]);
                    lemma_grown_contains(before, pairs@, added);
                    assert(is_pair_from(list@, added));
                    assert forall|k: int| 0 <= k < pairs@.len() implies old(pairs)@.contains(
                        #[trigger] pairs@[k],
                    ) || is_pair_from(list@, pairs@[k]) by {
                        if k < before.len() && pairs@[k] == before[k] {
                            assert(old(pairs)@.contains(before[k]) || is_pair_from(list@, before[k]));
                        }
                    }
                }
            }
            j = j + 1;
        }
        i = i + 1;
    }
}

/// The pairs of items that share an account, each pair once.
///
/// Only pairs that occur under some account are looked at: the items are
/// first listed by account, and each account contributes the pairs among
/// its own items. The cost is the sum over the accounts of the number of
/// such pairs, not the square of the number of items.
pub fn co_rated_pairs(ratings: &Ratings) -> (pairs: Vec<ItemPair>)
    ensures
        pairs@.no_duplicates(),
        forall|k: int|
            0 <= k < pairs@.len() ==> {
                let pair = #[trigger] pairs@[k];
                pair.first < pair.second && are_co_rated(ratings@, pair.first, pair.second)
            },
        forall|a: u32, b: u32|
            a < b && #[trigger] are_co_rated(ratings@, a, b) ==> pairs@.contains(
                ItemPair { first: a, second: b },
            ),
{
    let index = items_by_account(ratings);
    let accounts = index.keys();
    let mut pairs: Vec<ItemPair> = Vec::new();
    let mut seen: HashSet<u64> = HashSet::new();
    let mut c: usize = 0;
    while c < accounts.len()
        invariant
            c <= accounts.len(),
            lists_keys(accounts@, index@),
            is_inverted(index@, ratings@),
            remembers(seen@, pairs@),
            pairs@.no_duplicates(),
            forall|k: int|
                0 <= k < pairs@.len() ==> {
                    let pair = #[trigger] pairs@[k];
                    pair.first < pair.second && are_co_rated(ratings@, pair.first, pair.second)
                },
            forall|n: int|
                0 <= n < c ==> covers_until(
                    pairs@,
                    #[trigger] bucket_of(index@, accounts@[n]),
                    bucket_of(index@, accounts@[n]).len() as int,
                    0,
                ),
        decreases accounts.len() - c,
    {
        let account = accounts[c];
        assert(accounts@.contains(account));
        let list = match index.get(&account) {
            Some(list) => list,
            None => vstd::pervasive::unreached(),
        };
        let ghost before = pairs@;
        add_pairs_of(list, &mut pairs, &mut seen);
        proof {
            assert forall|k: int| 0 <= k < pairs@.len() implies {
                let pair = #[trigger] pairs@[k];
                pair.first < pair.second && are_co_rated(ratings@, pair.first, pair.second)
            } by {
                let pair = pairs@[k];
                if before.contains(pair) {
                    let n = choose|n: int| 0 <= n < before.len() && before[n] == pair;
                    assert(before[n] == pair);
                } else {
                    let (i, j) = choose|i: int, j: int|
                        0 <= i < j < list@.len() && list@[i] != list@[j] && pair == #[trigger] pair_of(
                            list@[i],
                            list@[j],
                        );
                    assert(bucket_of(index@, account).contains(list@[i]));
                    assert(bucket_of(index@, account).contains(list@[j]));
                    assert(is_rated_by(bucket_of(ratings@, list@[i]), account));
                    assert(is_rated_by(bucket_of(ratings@, list@[j]), account));
                }
            }
            assert forall|n: int| 0 <= n < c + 1 implies covers_until(
                pairs@,
                #[trigger] bucket_of(index@, accounts@[n]),
                bucket_of(index@, accounts@[n]).len() as int,
                0,
            ) by {
                if n < c {
                    let other = bucket_of(index@, accounts@[n]);
                    assert(covers_until(before, other, other.len() as int, 0));
                }
            }
        }
        c = c + 1;
    }
    proof {
        assert forall|a: u32, b: u32| a < b && #[trigger] are_co_rated(
            ratings@,
            a,
            b,
        ) implies pairs@.contains(ItemPair { first: a, second: b }) by {
            let account = choose|account: u32| #[trigger]
                is_rated_by(bucket_of(ratings@, a), account) && is_rated_by(
                    bucket_of(ratings@, b),
                    account,
                );
            let list = bucket_of(index@, account);
            assert(list.contains(a));
            assert(list.contains(b));
            assert(index@.contains_key(account));
            assert(accounts@.contains(account));
            let n = choose|n: int| 0 <= n < accounts@.len() && accounts@[n] == account;
            assert(covers_until(pairs@, bucket_of(index@, accounts@[n]), list.len() as int, 0));
            let i = choose|i: int| 0 <= i < list.len() && list[i] == a;
            let j = choose|j: int| 0 <= j < list.len() && list[j] == b;
            if i < j {
                assert(pairs@.contains(pair_of(list[i], list[j])));
            } else {
                assert(pairs@.contains(pair_of(list[j], list[i])));
            }
        }
    }
    pairs
}

/// Items without a common account share no ratings.
pub proof fn lemma_nothing_shared(first: Seq<Entry>, second: Seq<Entry>)
    requires
        forall|account: u32| !(is_rated_by(first, account) && is_rated_by(second, account)),
    ensures
        shared_pairs(first, ratings_by_account(second)) == Seq::<SharedRating>::empty(),
    decreases first.len(),
{
    if first.len() > 0 {
        let front = first.drop_last();
        let last = first.last();
        assert(first[first.len() - 1] == last);
        assert(is_rated_by(first, last.account_id));
        lemma_ratings_by_account_domain(second, last.account_id);
        assert forall|account: u32| !(is_rated_by(front, account) && is_rated_by(
            second,
            account,
        )) by {
            if is_rated_by(front, account) {
                let i = choose|i: int| 0 <= i < front.len() && (#[trigger] front[i]).account_id
                    == account;
                assert(first[i].account_id == account);
            }
        }
        lemma_nothing_shared(front, second);
    }
}

/// The pair that the entry at `i` makes with the rating of its account in
/// `other`.
pub open spec fn pair_at(entries: Seq<Entry>, other: Map<u32, Rating>, i: int) -> SharedRating {
    SharedRating {
        account_id: entries[i].account_id,
        first: entries[i].rating,
        second: other[entries[i].account_id],
    }
}

/// The shared pairs are the pairs of the entries whose account has a
/// rating in `other`.
pub proof fn lemma_shared_pairs_members(
    entries: Seq<Entry>,
    other: Map<u32, Rating>,
    pair: SharedRating,
)
    ensures
        shared_pairs(entries, other).contains(pair) <==> exists|i: int|
            0 <= i < entries.len() && other.contains_key(entries[i].account_id) && pair
                == #[trigger] pair_at(entries, other, i),
    decreases entries.len(),
{
    let pairs = shared_pairs(entries, other);
    if entries.len() > 0 {
        let front = entries.drop_last();
        let before = shared_pairs(front, other);
        let n = entries.len() - 1;
        lemma_shared_pairs_members(front, other, pair);
        assert(entries.last() == entries[n]);
        let added = other.contains_key(entries[n].account_id);
        if pairs.contains(pair) {
            let k = choose|k: int| 0 <= k < pairs.len() && pairs[k] == pair;
            if added && k == before.len() {
                assert(pair == pair_at(entries, other, n));
            } else {
                assert(before[k] == pair);
                let i = choose|i: int|
                    0 <= i < front.len() && other.contains_key(front[i].account_id) && pair
                        == #[trigger] pair_at(front, other, i);
                assert(pair == pair_at(entries, other, i));
            }
        }
        if exists|i: int|
            0 <= i < entries.len() && other.contains_key(entries[i].account_id) && pair
                == #[trigger] pair_at(entries, other, i) {
            let i = choose|i: int|
                0 <= i < entries.len() && other.contains_key(entries[i].account_id) && pair
                    == #[trigger] pair_at(entries, other, i);
            if i == n {
                assert(pairs[before.len() as int] == pair);
            } else {
                assert(pair == pair_at(front, other, i));
                let k = choose|k: int| 0 <= k < before.len() && before[k] == pair;
                assert(pairs[k] == pair);
            }
        }
    }
}

/// Where no account occurs twice in `entries`, none occurs twice among
/// the shared pairs.
pub proof fn lemma_shared_pairs_distinct(entries: Seq<Entry>, other: Map<u32, Rating>)
    requires
        !has_repeated_account(entries),
    ensures
        shared_pairs(entries, other).no_duplicates(),
    decreases entries.len(),
{
    let pairs = shared_pairs(entries, other);
    if entries.len() > 0 {
        let front = entries.drop_last();
        let before = shared_pairs(front, other);
        let n = entries.len() - 1;
        assert(entries.last() == entries[n]);
        if has_repeated_account(front) {
            let (i, j) = choose|i: int, j: int|
                0 <= i < j < front.len() && (#[trigger] front[i]).account_id == (
                #[trigger] front[j]).account_id;
            assert(entries[i].account_id == entries[j].account_id);
        }
        lemma_shared_pairs_distinct(front, other);
        if other.contains_key(entries[n].account_id) {
            let last = pair_at(entries, other, n);
            assert(!before.contains(last)) by {
                lemma_shared_pairs_members(front, other, last);
                if before.contains(last) {
                    let i = choose|i: int|
                        0 <= i < front.len() && other.contains_key(front[i].account_id) && last
                            == #[trigger] pair_at(front, other, i);
                    assert(entries[i].account_id == entries[n].account_id);
                }
            }
            assert forall|i: int, j: int| 0 <= i < pairs.len() && 0 <= j < pairs.len() && i != j implies pairs[i]
                != pairs[j] by {
                if i < before.len() {
                    assert(before.contains(pairs[i]));
                }
                if j < before.len() {
                    assert(before.contains(pairs[j]));
                }
            }
        }
    }
}

/// Where no account occurs twice in `entries`, the rating of an account
/// is the rating of its one entry.
pub proof fn lemma_rating_by_account(entries: Seq<Entry>, i: int)
    requires
        !has_repeated_account(entries),
        0 <= i < entries.len(),
    ensures
        ratings_by_account(entries).contains_key(entries[i].account_id),
        ratings_by_account(entries)[entries[i].account_id] == entries[i].rating,
    decreases entries.len(),
{
    let n = entries.len() - 1;
    let front = entries.drop_last();
    assert(entries.last() == entries[n]);
    if i < n {
        assert(entries[i].account_id != entries[n].account_id);
        if has_repeated_account(front) {
            let (a, b) = choose|a: int, b: int|
                0 <= a < b < front.len() && (#[trigger] front[a]).account_id == (
                #[trigger] front[b]).account_id;
            assert(entries[a].account_id == entries[b].account_id);
        }
        lemma_rating_by_account(front, i);
        assert(front[i] == entries[i]);
    }
}


/// There are no more shared pairs than entries.
pub proof fn lemma_shared_pairs_length(entries: Seq<Entry>, other: Map<u32, Rating>)
    ensures
        shared_pairs(entries, other).len() <= entries.len(),
    decreases entries.len(),
{
    if entries.len() > 0 {
        lemma_shared_pairs_length(entries.drop_last(), other);
    }
}

/// A bucket in which no account occurs twice has at most 2^32 entries:
/// one for each account id.
pub proof fn lemma_accounts_fit(entries: Seq<Entry>)
    requires
        !has_repeated_account(entries),
    ensures
        entries.len() <= 0x1_0000_0000,
{
    let ids = Seq::new(entries.len(), |i: int| entries[i].account_id as int);
    assert(ids.no_duplicates()) by {
        assert forall|i: int, j: int| 0 <= i < ids.len() && 0 <= j < ids.len() && i != j implies ids[i]
            != ids[j] by {
            if i < j {
                assert(entries[i].account_id != entries[j].account_id);
            } else {
                assert(entries[j].account_id != entries[i].account_id);
            }
        }
    }
    ids.unique_seq_to_set();
    let range = vstd::set_lib::set_int_range(0, 0x1_0000_0000);
    vstd::set_lib::lemma_int_range(0, 0x1_0000_0000);
    assert(ids.to_set().subset_of(range)) by {
        assert forall|id: int| ids.to_set().contains(id) implies range.contains(id) by {
            let i = choose|i: int| 0 <= i < ids.len() && ids[i] == id;
        }
    }
    vstd::set_lib::lemma_len_subset(ids.to_set(), range);
}

} // verus!
