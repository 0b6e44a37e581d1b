//! The ratings table of the collaborative filter.

use vstd::prelude::*;
use crate::buckets::{appended, lists_keys, order_with, Buckets};

verus! {

/// A win rate, kept as the fraction `wins / battles` so that nothing is
/// rounded away. It is defined only where `battles` is positive.
#[derive(Debug, Clone, Copy, PartialEq, Eq, Structural)]
pub struct Rating {
    pub wins: u32,
    pub battles: u32,
}

/// One account's rating of one item.
#[derive(Debug, Clone, Copy, PartialEq, Eq, Structural)]
pub struct Entry {
    pub account_id: u32,
    pub rating: Rating,
}

/// The table `table` with `entry` appended to the bucket of `item`; the
/// bucket is created if `item` had none.
pub open spec fn with_entry(table: Map<u32, Seq<Entry>>, item: u32, entry: Entry) -> Map<
    u32,
    Seq<Entry>,
> {
    appended(table, item, entry)
}

/// What every ratings table holds: finitely many buckets, none of them
/// empty, and no rating without a battle.
pub open spec fn is_ratings_table(table: Map<u32, Seq<Entry>>) -> bool {
    &&& table.dom().finite()
    &&& forall|item: u32| #[trigger]
        table.contains_key(item) ==> {
            &&& table[item].len() > 0
            &&& forall|i: int|
                0 <= i < table[item].len() ==> (#[trigger] table[item][i]).rating.battles > 0
        }
}

/// Maps each item to the ratings it has received, in the order in which
/// they were added.
///
/// The view is the table as a map from item id to the item's bucket.
pub struct Ratings {
    buckets: Buckets<Entry>,
}

impl View for Ratings {
    type V = Map<u32, Seq<Entry>>;

    closed spec fn view(&self) -> Map<u32, Seq<Entry>> {
        self.buckets@
    }
}

impl Ratings {
    #[verifier::type_invariant]
    spec fn well_formed(self) -> bool {
        is_ratings_table(self@)
    }

    /// The items that have a bucket, each once, in the order in which
    /// their buckets were created.
    pub closed spec fn item_order(&self) -> Seq<u32> {
        self.buckets.key_order()
    }

    /// An empty table.
    pub fn new() -> (ratings: Ratings)
        ensures
            ratings@ == Map::<u32, Seq<Entry>>::empty(),
            ratings.item_order() == Seq::<u32>::empty(),
    {
        Ratings { buckets: Buckets::new() }
    }

    /// The number of items that have a bucket.
    pub fn len(&self) -> (n: usize)
        ensures
            n == self@.len(),
            n == self.item_order().len(),
            is_ratings_table(self@),
    {
        proof {
            use_type_invariant(self);
        }
        self.buckets.len()
    }

    /// The bucket of `item`, if it has one.
    pub fn get(&self, item: &u32) -> (bucket: Option<&Vec<Entry>>)
        ensures
            is_ratings_table(self@),
            match bucket {
                Some(entries) => self@.contains_key(*item) && entries@ == self@[*item],
                None => !self@.contains_key(*item),
            },
    {
        proof {
            use_type_invariant(self);
        }
        self.buckets.get(item)
    }

    /// The items that have a bucket, each once, in the order in which
    /// their buckets were created.
    pub fn items(&self) -> (items: &Vec<u32>)
        ensures
            items@ == self.item_order(),
            lists_keys(items@, self@),
            is_ratings_table(self@),
    {
        proof {
            use_type_invariant(self);
        }
        self.buckets.keys()
    }

    /// Appends `entry` to the bucket of `item`, creating the bucket on
    /// first use.
    pub fn add(&mut self, item: u32, entry: Entry)
        requires
            entry.rating.battles > 0,
        ensures
            final(self)@ == with_entry(old(self)@, item, entry),
            final(self).item_order() == order_with(old(self).item_order(), item),
            is_ratings_table(final(self)@),
    {
        proof {
            use_type_invariant(&*self);
            lemma_with_entry_keeps_table(self@, item, entry);
        }
        let mut taken = Ratings::new();
        core::mem::swap(self, &mut taken);
        let Ratings { buckets } = taken;
        let mut buckets = buckets;
        buckets.add(item, entry);
        *self = Ratings { buckets };
    }
}

/// Adding a rating with a battle to a ratings table gives a ratings table.
pub proof fn lemma_with_entry_keeps_table(table: Map<u32, Seq<Entry>>, item: u32, entry: Entry)
    requires
        is_ratings_table(table),
        entry.rating.battles > 0,
    ensures
        is_ratings_table(with_entry(table, item, entry)),
{
    let after = with_entry(table, item, entry);
    assert forall|other: u32| #[trigger] after.contains_key(other) implies {
        &&& after[other].len() > 0
        &&& forall|i: int|
            0 <= i < after[other].len() ==> (#[trigger] after[other][i]).rating.battles > 0
    } by {
        if other != item {
            assert(table.contains_key(other));
        } else if table.contains_key(item) {
            assert forall|i: int| 0 <= i < after[other].len() implies (
            #[trigger] after[other][i]).rating.battles > 0 by {
                if i < table[item].len() {
                    assert(after[other][i] == table[item][i]);
                }
            }
        }
    }
}

} // verus!
