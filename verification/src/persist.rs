//! The similarity model as bytes.
//!
//! A stored model is a sequence of item records, one per item, up to the
//! end of the data. A record is the item id, the number of neighbours,
//! and then for each neighbour its id and its score; every number is a
//! varint, and a score is stored with `SCORE_ONE` added, so that it is not
//! negative.

use vstd::prelude::*;
use crate::buckets::lists_keys;
use crate::error::DecodeError;
use crate::model::{
    accepts_list, is_similarity_model, lemma_neighbors_fit, Neighbor, SimilarityModel, SCORE_ONE,
};
use crate::protobuf::{
    lemma_uvarint_round_trip, read_uvarint, uvarint_encoding, write_uvarint, ByteCursor,
};
use crate::stats::parse_field;

verus! {

/// One item with its neighbours, as a stored model lists them.
pub ghost struct ItemRecord {
    pub item: u32,
    pub neighbors: Seq<Neighbor>,
}

/// The bytes of one neighbour.
pub open spec fn neighbor_encoding(neighbor: Neighbor) -> Seq<u8> {
    uvarint_encoding(neighbor.item as nat) + uvarint_encoding((neighbor.score + SCORE_ONE) as nat)
}

/// The bytes of the neighbours of `list`, one after the other.
pub open spec fn neighbors_encoding(list: Seq<Neighbor>) -> Seq<u8>
    decreases list.len(),
{
    if list.len() == 0 {
        Seq::empty()
    } else {
        neighbors_encoding(list.drop_last()) + neighbor_encoding(list.last())
    }
}

/// The bytes of one item record.
pub open spec fn record_encoding(record: ItemRecord) -> Seq<u8> {
    uvarint_encoding(record.item as nat) + uvarint_encoding(record.neighbors.len())
        + neighbors_encoding(record.neighbors)
}

/// The bytes of the records, one after the other.
pub open spec fn records_encoding(records: Seq<ItemRecord>) -> Seq<u8>
    decreases records.len(),
{
    if records.len() == 0 {
        Seq::empty()
    } else {
        record_encoding(records[0]) + records_encoding(records.skip(1))
    }
}

/// The records of a model: its items in the given order, each with its
/// neighbours.
pub open spec fn records_of(order: Seq<u32>, model: Map<u32, Seq<Neighbor>>) -> Seq<ItemRecord> {
    Seq::new(order.len(), |i: int| ItemRecord { item: order[i], neighbors: model[order[i]] })
}

/// One neighbour at the front of `s` and the bytes it takes; `None` where
/// a number is missing or the score is out of range.
pub open spec fn parse_neighbor(s: Seq<u8>) -> Option<(Neighbor, nat)> {
    match parse_field(s) {
        Some((item, n1)) => match parse_field(s.skip(n1 as int)) {
            Some((code, n2)) => if code <= 2 * SCORE_ONE {
                Some((Neighbor { item, score: (code - SCORE_ONE) as i32 }, n1 + n2))
            } else {
                None
            },
            None => None,
        },
        None => None,
    }
}

/// The first `count` neighbours at the front of `s`, in order, and the
/// bytes they take together.
pub open spec fn parse_neighbors(s: Seq<u8>, count: nat) -> Option<(Seq<Neighbor>, nat)>
    decreases count,
{
    if count == 0 {
        Some((Seq::empty(), 0))
    } else {
        match parse_neighbors(s, (count - 1) as nat) {
            Some((list, used)) => match parse_neighbor(s.skip(used as int)) {
                Some((neighbor, n)) => Some((list.push(neighbor), used + n)),
                None => None,
            },
            None => None,
        }
    }
}

/// One item record at the front of `s` and the bytes it takes.
#[verifier::opaque]
pub open spec fn parse_record(s: Seq<u8>) -> Option<(ItemRecord, nat)> {
    match parse_field(s) {
        Some((item, n1)) => match parse_field(s.skip(n1 as int)) {
            Some((count, n2)) => match parse_neighbors(s.skip((n1 + n2) as int), count as nat) {
                Some((neighbors, n3)) => Some((ItemRecord { item, neighbors }, n1 + n2 + n3)),
                None => None,
            },
            None => None,
        },
        None => None,
    }
}

/// The records that `s` is made of, where it is made of records from its
/// first byte to its last.
pub open spec fn parse_records(s: Seq<u8>) -> Option<Seq<ItemRecord>>
    decreases s.len(),
{
    if s.len() == 0 {
        Some(Seq::empty())
    } else {
        match parse_record(s) {
            Some((record, used)) => {
                proof {
                    lemma_parse_record_in_bounds(s);
                }
                match parse_records(s.skip(used as int)) {
                    Some(rest) => Some(seq![record] + rest),
                    None => None,
                }
            },
            None => None,
        }
    }
}

/// The model that the records build when they enter it one after the
/// other; `None` where one of them is not accepted.
pub open spec fn model_of_records(records: Seq<ItemRecord>) -> Option<Map<u32, Seq<Neighbor>>>
    decreases records.len(),
{
    if records.len() == 0 {
        Some(Map::empty())
    } else {
        match model_of_records(records.drop_last()) {
            Some(model) => {
                let last = records.last();
                if accepts_list(model, last.item, last.neighbors) {
                    Some(model.insert(last.item, last.neighbors))
                } else {
                    None
                }
            },
            None => None,
        }
    }
}

/// The items of the records, in order.
pub open spec fn items_of(records: Seq<ItemRecord>) -> Seq<u32> {
    Seq::new(records.len(), |i: int| records[i].item)
}

proof fn lemma_parse_neighbor_in_bounds(s: Seq<u8>)
    ensures
        parse_neighbor(s) matches Some((neighbor, used)) ==> used <= s.len() && -SCORE_ONE
            <= neighbor.score <= SCORE_ONE,
{
}

proof fn lemma_parse_neighbors_in_bounds(s: Seq<u8>, count: nat)
    ensures
        parse_neighbors(s, count) matches Some((list, used)) ==> used <= s.len() && list.len()
            == count,
    decreases count,
{
    if count > 0 {
        lemma_parse_neighbors_in_bounds(s, (count - 1) as nat);
        match parse_neighbors(s, (count - 1) as nat) {
            Some((list, used)) => {
                lemma_parse_neighbor_in_bounds(s.skip(used as int));
            },
            None => {},
        }
    }
}

/// A record takes at least one byte, and never more than there are.
pub proof fn lemma_parse_record_in_bounds(s: Seq<u8>)
    ensures
        parse_record(s) matches Some((_, used)) ==> 1 <= used <= s.len(),
{
    reveal(parse_record);
    match parse_field(s) {
        Some((item, n1)) => match parse_field(s.skip(n1 as int)) {
            Some((count, n2)) => {
                lemma_parse_neighbors_in_bounds(s.skip((n1 + n2) as int), count as nat);
            },
            None => {},
        },
        None => {},
    }
}

proof fn lemma_parse_neighbors_fails_on(s: Seq<u8>, failed: nat, count: nat)
    requires
        failed <= count,
        parse_neighbors(s, failed) is None,
    ensures
        parse_neighbors(s, count) is None,
    decreases count,
{
    if failed < count {
        lemma_parse_neighbors_fails_on(s, failed, (count - 1) as nat);
    }
}

proof fn lemma_model_of_records_fails_on(records: Seq<ItemRecord>, failed: int)
    requires
        0 <= failed <= records.len(),
        model_of_records(records.take(failed)) is None,
    ensures
        model_of_records(records) is None,
    decreases records.len(),
{
    if failed < records.len() {
        assert(records.drop_last().take(failed) =~= records.take(failed));
        lemma_model_of_records_fails_on(records.drop_last(), failed);
    } else {
        assert(records.take(failed) =~= records);
    }
}

proof fn lemma_records_encoding_push(records: Seq<ItemRecord>, record: ItemRecord)
    ensures
        records_encoding(records.push(record)) == records_encoding(records) + record_encoding(
            record,
        ),
    decreases records.len(),
{
    let all = records.push(record);
    if records.len() == 0 {
        assert(all.skip(1) =~= Seq::<ItemRecord>::empty());
        assert(all[0] == record);
        assert(records_encoding(all.skip(1)) =~= Seq::<u8>::empty());
        assert(records_encoding(all) =~= record_encoding(record) + Seq::<u8>::empty());
        assert(records_encoding(all) =~= records_encoding(records) + record_encoding(record));
    } else {
        lemma_records_encoding_push(records.skip(1), record);
        assert(all.skip(1) =~= records.skip(1).push(record));
        assert(all[0] == records[0]);
        assert(records_encoding(all) =~= records_encoding(records) + record_encoding(record));
    }
}

fn write_record(output: &mut Vec<u8>, item: u32, list: &Vec<Neighbor>)
    requires
        list@.len() <= 0xffff_ffff,
        forall|i: int| 0 <= i < list@.len() ==> -SCORE_ONE <= (#[trigger] list@[i]).score <= SCORE_ONE,
    ensures
        final(output)@ == old(output)@ + record_encoding(
            ItemRecord { item, neighbors: list@ },
        ),
{
    let ghost start = output@;
    write_uvarint(output, item);
    write_uvarint(output, list.len() as u32);
    let ghost head = output@;
    let mut i: usize = 0;
    assert(list@.take(0) =~= Seq::<Neighbor>::empty());
    assert(head + Seq::<u8>::empty() =~= head);
    while i < list.len()
        invariant
            i <= list.len(),
            forall|i: int|
                0 <= i < list@.len() ==> -SCORE_ONE <= (#[trigger] list@[i]).score <= SCORE_ONE,
            output@ == head + neighbors_encoding(list@.take(i as int)),
        decreases list.len() - i,
    {
        let neighbor = list[i];
        let ghost before = output@;
        write_uvarint(output, neighbor.item);
        write_uvarint(output, (neighbor.score + SCORE_ONE) as u32);
        proof {
            let front = list@.take(i as int);
            let next = list@.take(i + 1);
            assert(next.drop_last() =~= front);
            assert(next.last() == neighbor);
            assert(output@ =~= head + neighbors_encoding(next));
        }
        i = i + 1;
    }
    proof {
        assert(list@.take(list.len() as int) =~= list@);
        assert(output@ =~= start + record_encoding(ItemRecord { item, neighbors: list@ }));
    }
}

/// Appends the model to `output`: one record per item, in the order of
/// the model's items.
pub fn write_model(output: &mut Vec<u8>, model: &SimilarityModel)
    ensures
        final(output)@ == old(output)@ + records_encoding(
            records_of(model.item_order(), model@),
        ),
{
    let ghost start = output@;
    let items = model.items();
    let ghost records = records_of(items@, model@);
    let mut p: usize = 0;
    assert(records.take(0) =~= Seq::<ItemRecord>::empty());
    assert(start + Seq::<u8>::empty() =~= start);
    while p < items.len()
        invariant
            p <= items.len(),
            items@ == model.item_order(),
            lists_keys(items@, model@),
            is_similarity_model(model@),
            records == records_of(items@, model@),
            output@ == start + records_encoding(records.take(p as int)),
        decreases items.len() - p,
    {
        let item = items[p];
        assert(items@.contains(item));
        let list = match model.neighbors(item) {
            Some(list) => list,
            None => vstd::pervasive::unreached(),
        };
        proof {
            lemma_neighbors_fit(model@, item);
            assert forall|i: int| 0 <= i < list@.len() implies -SCORE_ONE <= (#[trigger] list@[i]).score
                <= SCORE_ONE by {
                assert(model@[item][i] == list@[i]);
            }
        }
        write_record(output, item, list);
        proof {
            let record = ItemRecord { item, neighbors: list@ };
            assert(records[p as int] == record);
            assert(records.take(p + 1) =~= records.take(p as int).push(record));
            lemma_records_encoding_push(records.take(p as int), record);
            assert(output@ =~= start + records_encoding(records.take(p + 1)));
        }
        p = p + 1;
    }
    assert(records.take(items.len() as int) =~= records);
}

fn read_number(input: &mut ByteCursor) -> (result: Option<u32>)
    ensures
        match parse_field(old(input)@) {
            Some((value, used)) => result == Some(value) && final(input)@ == old(input)@.skip(
                used as int,
            ),
            None => result is None,
        },
{
    match read_uvarint(input) {
        Ok(Some(value)) => Some(value),
        _ => None,
    }
}

fn read_neighbor(input: &mut ByteCursor) -> (result: Option<Neighbor>)
    ensures
        match parse_neighbor(old(input)@) {
            Some((neighbor, used)) => result == Some(neighbor) && final(input)@ == old(
                input,
            )@.skip(used as int),
            None => result is None,
        },
{
    let ghost s = input@;
    let item = match read_number(input) {
        Some(v) => v,
        None => {
            return None;
        },
    };
    let ghost n1 = parse_field(s).unwrap().1;
    let code = match read_number(input) {
        Some(v) => v,
        None => {
            return None;
        },
    };
    let ghost n2 = parse_field(s.skip(n1 as int)).unwrap().1;
    assert(s.skip(n1 as int).skip(n2 as int) =~= s.skip((n1 + n2) as int));
    if code > 2 * (SCORE_ONE as u32) {
        return None;
    }
    Some(Neighbor { item, score: code as i32 - SCORE_ONE })
}

fn read_neighbors(input: &mut ByteCursor, count: u32) -> (result: Option<Vec<Neighbor>>)
    ensures
        match parse_neighbors(old(input)@, count as nat) {
            Some((list, used)) => {
                &&& result matches Some(read)
                &&& read@ == list
                &&& used <= old(input)@.len()
                &&& final(input)@ == old(input)@.skip(used as int)
            },
            None => result is None,
        },
{
    let ghost s = input@;
    let mut list: Vec<Neighbor> = Vec::new();
    let ghost mut used: nat = 0;
    let mut i: u32 = 0;
    assert(s.skip(0) =~= s);
    while i < count
        invariant
            s == old(input)@,
            i <= count,
            parse_neighbors(s, i as nat) == Some((list@, used)),
            used <= s.len(),
            input@ == s.skip(used as int),
        decreases count - i,
    {
        let ghost rest = input@;
        proof {
            lemma_parse_neighbor_in_bounds(rest);
        }
        let neighbor = match read_neighbor(input) {
            Some(n) => n,
            None => {
                proof {
                    assert(parse_neighbors(s, (i + 1) as nat) is None);
                    lemma_parse_neighbors_fails_on(s, (i + 1) as nat, count as nat);
                }
                return None;
            },
        };
        proof {
            let n = parse_neighbor(rest).unwrap().1;
            assert(s.skip(used as int).skip(n as int) =~= s.skip((used + n) as int));
            used = used + n;
        }
        list.push(neighbor);
        i = i + 1;
    }
    Some(list)
}

fn read_record(input: &mut ByteCursor) -> (result: Option<(u32, Vec<Neighbor>)>)
    ensures
        match parse_record(old(input)@) {
            Some((record, used)) => {
                &&& result matches Some((item, list))
                &&& item == record.item
                &&& list@ == record.neighbors
                &&& final(input)@ == old(input)@.skip(used as int)
            },
            None => result is None,
        },
{
    let ghost s = input@;
    proof {
        reveal(parse_record);
    }
    let item = match read_number(input) {
        Some(v) => v,
        None => {
            return None;
        },
    };
    let ghost n1 = parse_field(s).unwrap().1;
    let count = match read_number(input) {
        Some(v) => v,
        None => {
            return None;
        },
    };
    let ghost n2 = parse_field(s.skip(n1 as int)).unwrap().1;
    assert(s.skip(n1 as int).skip(n2 as int) =~= s.skip((n1 + n2) as int));
    let list = match read_neighbors(input, count) {
        Some(list) => list,
        None => {
            return None;
        },
    };
    proof {
        let n3 = parse_neighbors(s.skip((n1 + n2) as int), count as nat).unwrap().1;
        assert(s.skip((n1 + n2) as int).skip(n3 as int) =~= s.skip((n1 + n2 + n3) as int));
    }
    Some((item, list))
}

/// Reads a stored model: record after record to the end of `input`.
///
/// The bytes must be records from the first to the last, and the records
/// must build a similarity model: no item twice, no item its own
/// neighbour, no neighbour twice for one item, and one score where two
/// items name each other. Anything else is `MalformedModel`.
pub fn read_model(input: &mut ByteCursor) -> (result: Result<SimilarityModel, DecodeError>)
    ensures
        match parse_records(old(input)@) {
            Some(records) => match model_of_records(records) {
                Some(stored) => {
                    &&& result matches Ok(model)
                    &&& model@ == stored
                    &&& model.item_order() == items_of(records)
                    &&& final(input)@.len() == 0
                },
                None => result matches Err(DecodeError::MalformedModel),
            },
            None => result matches Err(DecodeError::MalformedModel),
        },
{
    let ghost stream = input@;
    let mut model = SimilarityModel::new();
    let ghost mut done: Seq<ItemRecord> = Seq::empty();
    assert(items_of(done) =~= Seq::<u32>::empty());
    proof {
        match parse_records(stream) {
            Some(rest) => {
                assert(done + rest =~= rest);
            },
            None => {},
        }
    }
    loop
        invariant
            stream == old(input)@,
            model_of_records(done) == Some(model@),
            model.item_order() == items_of(done),
            parse_records(stream) == match parse_records(input@) {
                Some(rest) => Some(done + rest),
                None => None,
            },
        decreases input@.len(),
    {
        let ghost rest = input@;
        if input.remaining() == 0 {
            proof {
                assert(done + Seq::<ItemRecord>::empty() =~= done);
            }
            return Ok(model);
        }
        proof {
            lemma_parse_record_in_bounds(rest);
        }
        let (item, list) = match read_record(input) {
            Some(read) => read,
            None => {
                return Err(DecodeError::MalformedModel);
            },
        };
        let ghost record = ItemRecord { item, neighbors: list@ };
        let ghost next = done.push(record);
        proof {
            assert(next.drop_last() =~= done);
            assert(next.last() == record);
            match parse_records(input@) {
                Some(tail) => {
                    assert(done + (seq![record] + tail) =~= next + tail);
                },
                None => {},
            }
        }
        if !model.add_list(item, list) {
            proof {
                assert(model_of_records(next) is None);
                match parse_records(input@) {
                    Some(tail) => {
                        assert((next + tail).take(next.len() as int) =~= next);
                        lemma_model_of_records_fails_on(next + tail, next.len() as int);
                    },
                    None => {},
                }
            }
            return Err(DecodeError::MalformedModel);
        }
        proof {
            assert(items_of(next) =~= items_of(done).push(item));
            done = next;
        }
    }
}

/// Whether `record` can be stored: its scores are in range, and its
/// neighbours can be counted in 32 bits.
pub open spec fn is_storable(record: ItemRecord) -> bool {
    &&& record.neighbors.len() <= 0xffff_ffff
    &&& forall|i: int|
        0 <= i < record.neighbors.len() ==> -SCORE_ONE <= (#[trigger] record.neighbors[i]).score
            <= SCORE_ONE
}

proof fn lemma_field_round_trip(value: u32, rest: Seq<u8>)
    ensures
        parse_field(uvarint_encoding(value as nat) + rest) == Some(
            (value, uvarint_encoding(value as nat).len()),
        ),
        uvarint_encoding(value as nat).len() >= 1,
{
    lemma_uvarint_round_trip(value, rest);
}

proof fn lemma_neighbor_round_trip(neighbor: Neighbor, rest: Seq<u8>)
    requires
        -SCORE_ONE <= neighbor.score <= SCORE_ONE,
    ensures
        parse_neighbor(neighbor_encoding(neighbor) + rest) == Some(
            (neighbor, neighbor_encoding(neighbor).len()),
        ),
{
    let id = uvarint_encoding(neighbor.item as nat);
    let code = (neighbor.score + SCORE_ONE) as u32;
    let score = uvarint_encoding(code as nat);
    let s = neighbor_encoding(neighbor) + rest;
    assert(s =~= id + (score + rest));
    lemma_field_round_trip(neighbor.item, score + rest);
    assert(s.skip(id.len() as int) =~= score + rest);
    lemma_field_round_trip(code, rest);
}

proof fn lemma_neighbors_round_trip(list: Seq<Neighbor>, rest: Seq<u8>)
    requires
        forall|i: int| 0 <= i < list.len() ==> -SCORE_ONE <= (#[trigger] list[i]).score <= SCORE_ONE,
    ensures
        parse_neighbors(neighbors_encoding(list) + rest, list.len()) == Some(
            (list, neighbors_encoding(list).len()),
        ),
    decreases list.len(),
{
    if list.len() > 0 {
        let front = list.drop_last();
        let last = list.last();
        let s = neighbors_encoding(list) + rest;
        assert(last == list[list.len() - 1]);
        assert forall|i: int| 0 <= i < front.len() implies -SCORE_ONE <= (#[trigger] front[i]).score
            <= SCORE_ONE by {
            assert(front[i] == list[i]);
        }
        assert(s =~= neighbors_encoding(front) + (neighbor_encoding(last) + rest));
        lemma_neighbors_round_trip(front, neighbor_encoding(last) + rest);
        assert(s.skip(neighbors_encoding(front).len() as int) =~= neighbor_encoding(last) + rest);
        lemma_neighbor_round_trip(last, rest);
        assert(front.push(last) =~= list);
    }
}

proof fn lemma_record_round_trip(record: ItemRecord, rest: Seq<u8>)
    requires
        is_storable(record),
    ensures
        parse_record(record_encoding(record) + rest) == Some(
            (record, record_encoding(record).len()),
        ),
        record_encoding(record).len() >= 1,
{
    reveal(parse_record);
    let id = uvarint_encoding(record.item as nat);
    let count = uvarint_encoding(record.neighbors.len());
    let body = neighbors_encoding(record.neighbors);
    let s = record_encoding(record) + rest;
    assert(s =~= id + (count + (body + rest)));
    lemma_field_round_trip(record.item, count + (body + rest));
    assert(s.skip(id.len() as int) =~= count + (body + rest));
    lemma_field_round_trip(record.neighbors.len() as u32, body + rest);
    assert(s.skip((id.len() + count.len()) as int) =~= body + rest);
    lemma_neighbors_round_trip(record.neighbors, rest);
}

/// Records that can be stored are read back as they were written.
pub proof fn lemma_records_round_trip(records: Seq<ItemRecord>)
    requires
        forall|i: int| 0 <= i < records.len() ==> is_storable(#[trigger] records[i]),
    ensures
        parse_records(records_encoding(records)) == Some(records),
    decreases records.len(),
{
    if records.len() > 0 {
        let first = records[0];
        let tail = records.skip(1);
        let s = records_encoding(records);
        assert forall|i: int| 0 <= i < tail.len() implies is_storable(#[trigger] tail[i]) by {
            assert(tail[i] == records[i + 1]);
        }
        lemma_record_round_trip(first, records_encoding(tail));
        lemma_records_round_trip(tail);
        assert(s.skip(record_encoding(first).len() as int) =~= records_encoding(tail));
        assert(seq![first] + tail =~= records);
    }
}

/// The part of `model` that the first `n` items of `order` make up.
spec fn model_until(order: Seq<u32>, model: Map<u32, Seq<Neighbor>>, n: int) -> Map<
    u32,
    Seq<Neighbor>,
> {
    Map::new(|item: u32| order.take(n).contains(item), |item: u32| model[item])
}

proof fn lemma_model_until_is_model(order: Seq<u32>, model: Map<u32, Seq<Neighbor>>, n: int)
    requires
        is_similarity_model(model),
        lists_keys(order, model),
        0 <= n <= order.len(),
    ensures
        is_similarity_model(model_until(order, model, n)),
{
    let part = model_until(order, model, n);
    assert forall|item: u32| #[trigger] part.contains_key(item) implies model.contains_key(item)
        && part[item] == model[item] by {
        let upto = order.take(n);
        let k = choose|k: int| 0 <= k < upto.len() && upto[k] == item;
        assert(order[k] == item);
        assert(order.contains(item));
    }
    assert(part.dom().subset_of(model.dom())) by {
        assert forall|item: u32| part.dom().contains(item) implies model.dom().contains(item) by {
            assert(part.contains_key(item));
            assert(model.contains_key(item));
        }
    }
    vstd::set_lib::lemma_len_subset(part.dom(), model.dom());
    assert forall|item: u32, i: int| part.contains_key(item) && 0 <= i < part[item].len() implies {
        let neighbor = #[trigger] part[item][i];
        &&& -SCORE_ONE <= neighbor.score <= SCORE_ONE
        &&& neighbor.item != item
    } by {
        assert(part[item][i] == model[item][i]);
    }
    assert forall|item: u32, i: int, j: int|
        part.contains_key(item) && 0 <= i < j < part[item].len() implies (
    #[trigger] part[item][i]).item != (#[trigger] part[item][j]).item by {
        assert(part[item][i] == model[item][i] && part[item][j] == model[item][j]);
    }
    assert forall|a: u32, b: u32, i: int, j: int|
        part.contains_key(a) && part.contains_key(b) && 0 <= i < part[a].len() && 0 <= j
            < part[b].len() && (#[trigger] part[a][i]).item == b && (#[trigger] part[b][j]).item
            == a implies part[a][i].score == part[b][j].score by {
        assert(part[a][i] == model[a][i] && part[b][j] == model[b][j]);
    }
}

proof fn lemma_records_build_model(order: Seq<u32>, model: Map<u32, Seq<Neighbor>>, n: int)
    requires
        is_similarity_model(model),
        lists_keys(order, model),
        0 <= n <= order.len(),
    ensures
        model_of_records(records_of(order, model).take(n)) == Some(model_until(order, model, n)),
    decreases n,
{
    let records = records_of(order, model);
    if n == 0 {
        assert(model_until(order, model, 0) =~= Map::<u32, Seq<Neighbor>>::empty());
    } else {
        lemma_records_build_model(order, model, n - 1);
        let before = model_until(order, model, n - 1);
        let after = model_until(order, model, n);
        let item = order[n - 1];
        assert(records.take(n).drop_last() =~= records.take(n - 1));
        assert(records.take(n).last() == records[n - 1]);
        assert(order.take(n) =~= order.take(n - 1).push(item));
        assert(!before.contains_key(item)) by {
            if order.take(n - 1).contains(item) {
                let front = order.take(n - 1);
                let k = choose|k: int| 0 <= k < front.len() && front[k] == item;
                assert(order[k] == order[n - 1]);
            }
        }
        assert(before.insert(item, model[item]) =~= after) by {
            assert forall|other: u32| after.contains_key(other) <==> before.contains_key(other)
                || other == item by {
                if before.contains_key(other) {
                    let front = order.take(n - 1);
                    let k = choose|k: int| 0 <= k < front.len() && front[k] == other;
                    assert(order.take(n)[k] == other);
                }
                if other == item {
                    assert(order.take(n)[n - 1] == other);
                }
                if after.contains_key(other) {
                    let upto = order.take(n);
                    let k = choose|k: int| 0 <= k < upto.len() && upto[k] == other;
                    if k < n - 1 {
                        assert(order.take(n - 1)[k] == other);
                    }
                }
            }
        }
        lemma_model_until_is_model(order, model, n);
    }
}

/// A similarity model is read back as it was written: the bytes that
/// `write_model` appends for it are records, the records build the model,
/// and they list its items in their order.
pub proof fn lemma_model_round_trip(order: Seq<u32>, model: Map<u32, Seq<Neighbor>>)
    requires
        is_similarity_model(model),
        lists_keys(order, model),
    ensures
        parse_records(records_encoding(records_of(order, model))) == Some(
            records_of(order, model),
        ),
        model_of_records(records_of(order, model)) == Some(model),
        items_of(records_of(order, model)) == order,
{
    let records = records_of(order, model);
    assert forall|i: int| 0 <= i < records.len() implies is_storable(#[trigger] records[i]) by {
        let item = order[i];
        assert(order.contains(item));
        lemma_neighbors_fit(model, item);
        assert forall|k: int| 0 <= k < records[i].neighbors.len() implies -SCORE_ONE <= (
        #[trigger] records[i].neighbors[k]).score <= SCORE_ONE by {
            assert(model[item][k] == records[i].neighbors[k]);
        }
    }
    lemma_records_round_trip(records);
    lemma_records_build_model(order, model, order.len() as int);
    assert(records.take(order.len() as int) =~= records);
    assert(order.take(order.len() as int) =~= order);
    assert(model_until(order, model, order.len() as int) =~= model);
    assert(items_of(records) =~= order);
}

} // verus!
