//! Building the ratings table from account records.

use vstd::prelude::*;
use crate::cf::{with_entry, Entry, Rating, Ratings};
use crate::error::DecodeError;
use crate::protobuf::ByteCursor;
use crate::stats::{
    parse_stream, read_account, Account, AccountView, RecordRead, StreamEnd, Tank,
};

verus! {

/// Which records of a stream are kept: every `period`-th one, counted
/// from one. With a period of two the second, fourth, sixth record and so
/// on are kept; with a period of one, all of them.
#[derive(Debug, Clone, Copy)]
pub struct Sampling {
    period: u64,
}

impl Sampling {
    #[verifier::type_invariant]
    spec fn well_formed(self) -> bool {
        self.period >= 1
    }

    /// The distance between two records that are kept.
    pub closed spec fn period(self) -> nat {
        self.period as nat
    }

    /// Whether the record with the given index, counted from one, is kept.
    pub open spec fn keeps(self, index: nat) -> bool {
        index % self.period() == 0
    }

    /// Keeps every `period`-th record; there is no such policy for a
    /// period of zero.
    pub fn every(period: u64) -> (sampling: Option<Sampling>)
        ensures
            period == 0 <==> sampling is None,
            sampling matches Some(s) ==> s.period() == period,
    {
        if period == 0 {
            None
        } else {
            Some(Sampling { period })
        }
    }

    /// Keeps every record.
    pub fn all() -> (sampling: Sampling)
        ensures
            sampling.period() == 1,
    {
        Sampling { period: 1 }
    }

    /// Whether the record with the given index, counted from one, is kept.
    pub fn keep(&self, index: u64) -> (kept: bool)
        ensures
            kept == self.keeps(index as nat),
    {
        proof {
            use_type_invariant(self);
        }
        index % self.period == 0
    }
}

/// Whether a tank's statistics become a rating: it has as many battles as
/// the minimum asks for, and at least one.
pub open spec fn is_rated(tank: Tank, min_battles: u32) -> bool {
    tank.battles >= min_battles && tank.battles > 0
}

/// The table after one tank of the account `account_id` has been looked at.
pub open spec fn with_tank(
    table: Map<u32, Seq<Entry>>,
    account_id: u32,
    tank: Tank,
    min_battles: u32,
) -> Map<u32, Seq<Entry>> {
    if is_rated(tank, min_battles) {
        with_entry(
            table,
            tank.id,
            Entry { account_id, rating: Rating { wins: tank.wins, battles: tank.battles } },
        )
    } else {
        table
    }
}

/// The table after the tanks of the account `account_id` have been looked
/// at one after the other.
pub open spec fn with_tanks(
    table: Map<u32, Seq<Entry>>,
    account_id: u32,
    tanks: Seq<Tank>,
    min_battles: u32,
) -> Map<u32, Seq<Entry>>
    decreases tanks.len(),
{
    if tanks.len() == 0 {
        table
    } else {
        with_tank(
            with_tanks(table, account_id, tanks.drop_last(), min_battles),
            account_id,
            tanks.last(),
            min_battles,
        )
    }
}

/// The table after the records have been offered in order, the first of
/// them under the index `index`: a record that the sampling keeps puts
/// its tanks into the table, the others leave it as it is.
pub open spec fn with_records(
    table: Map<u32, Seq<Entry>>,
    records: Seq<AccountView>,
    index: nat,
    min_battles: u32,
    sampling: Sampling,
) -> Map<u32, Seq<Entry>>
    decreases records.len(),
{
    if records.len() == 0 {
        table
    } else {
        let next = if sampling.keeps(index) {
            with_tanks(table, records[0].id, records[0].tanks, min_battles)
        } else {
            table
        };
        with_records(next, records.skip(1), index + 1, min_battles, sampling)
    }
}

/// The ratings table while it is being built, with the two settings that
/// govern the build and the number of records that have been offered.
///
/// The view is the table built so far.
pub struct RatingsIndex {
    min_battles: u32,
    sampling: Sampling,
    /// The number of records offered, as far as the sampling needs it:
    /// its remainder by the period.
    phase: u64,
    seen: Ghost<nat>,
    ratings: Ratings,
}

impl View for RatingsIndex {
    type V = Map<u32, Seq<Entry>>;

    closed spec fn view(&self) -> Map<u32, Seq<Entry>> {
        self.ratings@
    }
}

impl RatingsIndex {
    #[verifier::type_invariant]
    spec fn well_formed(self) -> bool {
        &&& self.sampling.period >= 1
        &&& self.phase == self.seen@ % (self.sampling.period as nat)
    }

    /// The least number of battles that makes a tank count.
    pub closed spec fn min_battles(&self) -> u32 {
        self.min_battles
    }

    /// The sampling policy for the records of a stream.
    pub closed spec fn sampling(&self) -> Sampling {
        self.sampling
    }

    /// The number of records that have been offered to the index. The
    /// next record has the index `seen() + 1`.
    pub closed spec fn seen(&self) -> nat {
        self.seen@
    }

    /// An empty index with its two settings, to which no record has been
    /// offered.
    pub fn new(min_battles: u32, sampling: Sampling) -> (index: RatingsIndex)
        ensures
            index@ == Map::<u32, Seq<Entry>>::empty(),
            index.min_battles() == min_battles,
            index.sampling() == sampling,
            index.seen() == 0,
    {
        proof {
            use_type_invariant(&sampling);
            assert(0nat % (sampling.period as nat) == 0) by (nonlinear_arith)
                requires
                    sampling.period >= 1,
            ;
        }
        RatingsIndex { min_battles, sampling, phase: 0, seen: Ghost(0), ratings: Ratings::new() }
    }

    /// The number of items that have a bucket.
    pub fn len(&self) -> (n: usize)
        ensures
            n == self@.len(),
    {
        self.ratings.len()
    }

    /// The bucket of `item`, if it has one.
    pub fn get(&self, item: &u32) -> (bucket: Option<&Vec<Entry>>)
        ensures
            match bucket {
                Some(entries) => self@.contains_key(*item) && entries@ == self@[*item],
                None => !self@.contains_key(*item),
            },
    {
        self.ratings.get(item)
    }

    /// Ends the build and hands out the table.
    pub fn finish(self) -> (ratings: Ratings)
        ensures
            ratings@ == self@,
    {
        self.ratings
    }
}

fn insert_tanks(table: &mut Ratings, account: &Account, min_battles: u32)
    ensures
        final(table)@ == with_tanks(old(table)@, account.id, account.tanks@, min_battles),
{
    let ghost tanks = account.tanks@;
    let mut i: usize = 0;
    assert(tanks.take(0) =~= Seq::<Tank>::empty());
    while i < account.tanks.len()
        invariant
            i <= tanks.len(),
            tanks == account.tanks@,
            table@ == with_tanks(old(table)@, account.id, tanks.take(i as int), min_battles),
        decreases tanks.len() - i,
    {
        let tank = account.tanks[i];
        assert(tanks.take(i + 1).drop_last() =~= tanks.take(i as int));
        assert(tanks.take(i + 1).last() == tank);
        if tank.battles >= min_battles && tank.battles > 0 {
            table.add(
                tank.id,
                Entry {
                    account_id: account.id,
                    rating: Rating { wins: tank.wins, battles: tank.battles },
                },
            );
        }
        i = i + 1;
    }
    assert(tanks.take(tanks.len() as int) =~= tanks);
}

/// Inserts the account's tanks into the ratings table.
///
/// A tank with fewer battles than the index asks for, or with none at all,
/// is passed over. Every other tank adds the account's rating of it to the
/// bucket of its item. The record is not counted: the sampling has no say
/// here.
pub fn insert_account(ratings: &mut RatingsIndex, account: Account)
    ensures
        final(ratings)@ == with_tanks(
            old(ratings)@,
            account.id,
            account.tanks@,
            old(ratings).min_battles(),
        ),
        final(ratings).min_battles() == old(ratings).min_battles(),
        final(ratings).sampling() == old(ratings).sampling(),
        final(ratings).seen() == old(ratings).seen(),
{
    proof {
        use_type_invariant(&*ratings);
    }
    let mut table = Ratings::new();
    core::mem::swap(&mut ratings.ratings, &mut table);
    insert_tanks(&mut table, &account, ratings.min_battles);
    core::mem::swap(&mut ratings.ratings, &mut table);
}

/// Offers the next record of a stream to the table, and says whether the
/// sampling kept it.
///
/// The index counts the record: it is the record number `seen() + 1`, and
/// the sampling decides on that number. This is one step of
/// [`read_ratings`], for a stream whose records are decoded one at a
/// time.
pub fn offer(ratings: &mut RatingsIndex, account: Account) -> (kept: bool)
    ensures
        final(ratings).seen() == old(ratings).seen() + 1,
        kept == old(ratings).sampling().keeps(old(ratings).seen() + 1),
        final(ratings)@ == if kept {
            with_tanks(old(ratings)@, account.id, account.tanks@, old(ratings).min_battles())
        } else {
            old(ratings)@
        },
        final(ratings).min_battles() == old(ratings).min_battles(),
        final(ratings).sampling() == old(ratings).sampling(),
{
    proof {
        use_type_invariant(&*ratings);
    }
    // The index is taken apart while it changes: the count and its
    // remainder move together.
    let mut taken = RatingsIndex::new(0, Sampling::all());
    core::mem::swap(ratings, &mut taken);
    let RatingsIndex { min_battles, sampling, phase, seen, ratings: table } = taken;
    let mut table = table;
    let next = if phase + 1 == sampling.period {
        0
    } else {
        phase + 1
    };
    proof {
        let count = seen@;
        let period = sampling.period as nat;
        assert((count + 1) % period == next) by (nonlinear_arith)
            requires
                period >= 1,
                phase == count % period,
                next == if phase + 1 == period {
                    0
                } else {
                    phase + 1
                },
        ;
    }
    let kept = next == 0;
    if kept {
        insert_tanks(&mut table, &account, min_battles);
    }
    *ratings = RatingsIndex {
        min_battles,
        sampling,
        phase: next,
        seen: Ghost((seen@ + 1) as nat),
        ratings: table,
    };
    kept
}

/// Reads the stream to its end and builds the ratings table from it.
///
/// The records are offered in order, so that the first of them has the
/// number `seen() + 1`, and those that the index's sampling keeps are
/// inserted. The table is handed out only if the whole stream could be
/// decoded: on the first record that fails, the error is all that comes
/// back.
pub fn read_ratings(input: &mut ByteCursor, ratings: RatingsIndex) -> (result: Result<
    (Ratings, StreamEnd),
    DecodeError,
>)
    ensures
        match parse_stream(old(input)@).end {
            Ok(end) => {
                &&& result matches Ok((table, e))
                &&& e == end
                &&& table@ == with_records(
                    ratings@,
                    parse_stream(old(input)@).records,
                    ratings.seen() + 1,
                    ratings.min_battles(),
                    ratings.sampling(),
                )
                &&& final(input)@ == old(input)@.skip(parse_stream(old(input)@).consumed as int)
            },
            Err(error) => result matches Err(e) && e == error,
        },
{
    let ghost stream = input@;
    let ghost goal = with_records(
        ratings@,
        parse_stream(stream).records,
        ratings.seen() + 1,
        ratings.min_battles(),
        ratings.sampling(),
    );
    let mut building = ratings;
    let ghost mut consumed: nat = 0;
    assert(stream.skip(0) =~= stream);
    loop
        invariant
            stream == old(input)@,
            consumed <= stream.len(),
            input@ == stream.skip(consumed as int),
            parse_stream(input@).end == parse_stream(stream).end,
            consumed + parse_stream(input@).consumed == parse_stream(stream).consumed,
            building.min_battles() == ratings.min_battles(),
            building.sampling() == ratings.sampling(),
            goal == with_records(
                ratings@,
                parse_stream(stream).records,
                ratings.seen() + 1,
                ratings.min_battles(),
                ratings.sampling(),
            ),
            goal == with_records(
                building@,
                parse_stream(input@).records,
                building.seen() + 1,
                ratings.min_battles(),
                ratings.sampling(),
            ),
        decreases input@.len(),
    {
        let ghost rest = input@;
        match read_account(input) {
            Err(e) => {
                return Err(e);
            },
            Ok(RecordRead::End(end)) => {
                proof {
                    let n = parse_stream(rest).consumed;
                    assert(stream.skip(consumed as int).skip(n as int) =~= stream.skip(
                        (consumed + n) as int,
                    ));
                }
                return Ok((building.finish(), end));
            },
            Ok(RecordRead::Account(account)) => {
                proof {
                    let used = (rest.len() - input@.len()) as nat;
                    assert(stream.skip(consumed as int).skip(used as int) =~= stream.skip(
                        (consumed + used) as int,
                    ));
                    let tail = parse_stream(input@).records;
                    assert(parse_stream(rest).records == seq![account@] + tail);
                    assert((seq![account@] + tail).skip(1) =~= tail);
                    consumed = consumed + used;
                }
                offer(&mut building, account);
            },
        }
    }
}

} // verus!
