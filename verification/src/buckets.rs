//! Buckets of values under integer keys.

use std::collections::HashMap;
use vstd::prelude::*;

verus! {

broadcast use vstd::std_specs::hash::group_hash_axioms;

/// The bucket of `key` in `table`; empty where it has none.
pub open spec fn bucket_of<V>(table: Map<u32, Seq<V>>, key: u32) -> Seq<V> {
    if table.contains_key(key) {
        table[key]
    } else {
        Seq::empty()
    }
}

/// The table `table` with `value` appended to the bucket of `key`; the
/// bucket is created if `key` had none.
pub open spec fn appended<V>(table: Map<u32, Seq<V>>, key: u32, value: V) -> Map<u32, Seq<V>> {
    table.insert(key, bucket_of(table, key).push(value))
}

/// The order of the keys after `key` has been given a bucket: it goes to
/// the end if it is new.
pub open spec fn order_with(order: Seq<u32>, key: u32) -> Seq<u32> {
    if order.contains(key) {
        order
    } else {
        order.push(key)
    }
}

/// A map from keys to buckets that remembers the order in which the keys
/// came.
///
/// The view is the map from each key to the values in its bucket, in the
/// order in which they were added.
pub struct Buckets<V> {
    map: HashMap<u32, Vec<V>>,
    keys: Vec<u32>,
}

spec fn table_of<V>(map: Map<u32, Vec<V>>) -> Map<u32, Seq<V>> {
    Map::new(|key: u32| map.contains_key(key), |key: u32| map[key]@)
}

impl<V> View for Buckets<V> {
    type V = Map<u32, Seq<V>>;

    closed spec fn view(&self) -> Map<u32, Seq<V>> {
        table_of(self.map@)
    }
}

/// Whether `order` lists the keys of `table`, each once.
pub open spec fn lists_keys<V>(order: Seq<u32>, table: Map<u32, Seq<V>>) -> bool {
    &&& order.no_duplicates()
    &&& forall|key: u32| order.contains(key) <==> table.contains_key(key)
}

/// A new key goes to the end of the order, a known one stays where it is.
pub proof fn lemma_order_with<V>(order: Seq<u32>, table: Map<u32, Seq<V>>, key: u32, bucket: Seq<V>)
    requires
        lists_keys(order, table),
    ensures
        lists_keys(order_with(order, key), table.insert(key, bucket)),
{
    let after = order_with(order, key);
    if !order.contains(key) {
        assert forall|i: int, j: int| 0 <= i < after.len() && 0 <= j < after.len() && i != j implies after[i]
            != after[j] by {
            if i < order.len() {
                assert(order.contains(after[i]));
            }
            if j < order.len() {
                assert(order.contains(after[j]));
            }
        }
        assert forall|other: u32| after.contains(other) <==> table.insert(key, bucket).contains_key(
            other,
        ) by {
            if other == key {
                assert(after[order.len() as int] == key);
            } else if order.contains(other) {
                let k = choose|k: int| 0 <= k < order.len() && order[k] == other;
                assert(after[k] == other);
            }
        }
    }
}

impl<V> Buckets<V> {
    #[verifier::type_invariant]
    spec fn well_formed(self) -> bool {
        lists_keys(self.keys@, self@)
    }

    /// The keys, each once, in the order in which their buckets were
    /// created.
    pub closed spec fn key_order(&self) -> Seq<u32> {
        self.keys@
    }

    /// No bucket at all.
    pub fn new() -> (buckets: Buckets<V>)
        ensures
            buckets@ == Map::<u32, Seq<V>>::empty(),
            buckets.key_order() == Seq::<u32>::empty(),
    {
        let map: HashMap<u32, Vec<V>> = HashMap::new();
        assert(table_of(map@) =~= Map::<u32, Seq<V>>::empty());
        Buckets { map, keys: Vec::new() }
    }

    /// The number of buckets.
    pub fn len(&self) -> (n: usize)
        ensures
            n == self@.len(),
            n == self.key_order().len(),
            self@.dom().finite(),
    {
        proof {
            use_type_invariant(self);
            assert(table_of(self.map@).dom() =~= self.map@.dom());
            self.keys@.unique_seq_to_set();
            assert(self.keys@.to_set() =~= self.map@.dom());
        }
        self.map.len()
    }

    /// The bucket of `key`, if it has one.
    pub fn get(&self, key: &u32) -> (bucket: Option<&Vec<V>>)
        ensures
            match bucket {
                Some(values) => self@.contains_key(*key) && values@ == self@[*key],
                None => !self@.contains_key(*key),
            },
    {
        self.map.get(key)
    }

    /// The keys, each once, in the order in which their buckets were
    /// created.
    pub fn keys(&self) -> (keys: &Vec<u32>)
        ensures
            keys@ == self.key_order(),
            lists_keys(keys@, self@),
    {
        proof {
            use_type_invariant(self);
        }
        &self.keys
    }

    /// Puts `bucket` under `key`, in place of the bucket that `key` had.
    pub fn set(&mut self, key: u32, bucket: Vec<V>)
        ensures
            final(self)@ == old(self)@.insert(key, bucket@),
            final(self).key_order() == order_with(old(self).key_order(), key),
    {
        proof {
            use_type_invariant(&*self);
        }
        let ghost before = self@;
        let ghost order = self.keys@;
        // The value is taken apart while it changes: the key may be in
        // the map before it is in the list.
        let mut taken = Buckets::new();
        core::mem::swap(self, &mut taken);
        let Buckets { map, keys } = taken;
        let mut map = map;
        let mut keys = keys;
        if !map.contains_key(&key) {
            keys.push(key);
        }
        map.insert(key, bucket);
        proof {
            assert(table_of(map@) =~= before.insert(key, bucket@));
            lemma_order_with(order, before, key, bucket@);
        }
        *self = Buckets { map, keys };
    }

    /// Appends `value` to the bucket of `key`, creating the bucket on
    /// first use.
    pub fn add(&mut self, key: u32, value: V)
        ensures
            final(self)@ == appended(old(self)@, key, value),
            final(self).key_order() == order_with(old(self).key_order(), key),
    {
        proof {
            use_type_invariant(&*self);
        }
        let ghost before = self@;
        let ghost order = self.keys@;
        let mut taken = Buckets::new();
        core::mem::swap(self, &mut taken);
        let Buckets { map, keys } = taken;
        let mut map = map;
        let mut keys = keys;
        let mut bucket = match map.remove(&key) {
            Some(values) => values,
            None => {
                keys.push(key);
                Vec::new()
            },
        };
        bucket.push(value);
        map.insert(key, bucket);
        proof {
            assert(table_of(map@) =~= appended(before, key, value));
            lemma_order_with(order, before, key, bucket_of(before, key).push(value));
        }
        *self = Buckets { map, keys };
    }
}

} // verus!
