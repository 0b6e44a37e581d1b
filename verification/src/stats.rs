//! Account records of the statistics stream.
//!
//! A stream is a sequence of records. Each record is the two marker bytes,
//! the account id, the number of tanks, and then one triple of item id,
//! battles and wins per tank, every number a varint.

use vstd::prelude::*;
use crate::error::DecodeError;
use crate::protobuf::{
    lemma_overflow_is_stable, lemma_uvarint_stable, read_uvarint, uvarint_consumed,
    uvarint_result, ByteCursor,
};

verus! {

/// The byte that opens a record; the marker is this byte twice.
pub const MARKER_BYTE: u8 = 0x3e;

/// One account's statistics on one item.
#[derive(Debug, Clone, Copy, PartialEq, Eq, Structural)]
pub struct Tank {
    pub id: u32,
    pub battles: u32,
    pub wins: u32,
}

/// One account with the items it has played.
#[derive(Debug)]
pub struct Account {
    pub id: u32,
    pub tanks: Vec<Tank>,
}

/// An account record as plain values.
pub ghost struct AccountView {
    pub id: u32,
    pub tanks: Seq<Tank>,
}

impl View for Account {
    type V = AccountView;

    open spec fn view(&self) -> AccountView {
        AccountView { id: self.id, tanks: self.tanks@ }
    }
}

/// How a stream of records came to its end.
#[derive(Debug, Clone, Copy, PartialEq, Eq, Structural)]
pub enum StreamEnd {
    /// No byte was left where the next record would start.
    Clean,
    /// Bytes were left, but not the two marker bytes: one byte only, or
    /// two that differ from the marker. Whether that is the end of the
    /// data or a corruption is the caller's call.
    MarkerMismatch,
}

/// What stands where a record's marker is expected.
#[derive(Debug, Clone, Copy, PartialEq, Eq, Structural)]
pub enum Header {
    /// Both marker bytes are there: a record follows.
    Marker,
    /// No marker: the stream is over.
    End(StreamEnd),
}

/// What one call of [`read_account`] found.
#[derive(Debug)]
pub enum RecordRead {
    /// A complete record.
    Account(Account),
    /// No marker: the stream is over.
    End(StreamEnd),
}

impl RecordRead {
    /// The record, if one was read.
    pub fn account(self) -> (account: Option<Account>)
        ensures
            match self {
                RecordRead::Account(a) => account == Some(a),
                RecordRead::End(_) => account is None,
            },
    {
        match self {
            RecordRead::Account(a) => Some(a),
            RecordRead::End(_) => None,
        }
    }
}

/// What a stream of records holds.
pub ghost struct StreamView {
    /// The records that were read in full, in order.
    pub records: Seq<AccountView>,
    /// How reading stopped: at the end of the stream, or on the first
    /// record that could not be decoded.
    pub end: Result<StreamEnd, DecodeError>,
    /// The bytes read until then. After a failure the number is that of
    /// the bytes up to the failed record's marker, the marker included.
    pub consumed: nat,
}

/// The header at the front of `s`.
pub open spec fn header_of(s: Seq<u8>) -> Header {
    if s.len() == 0 {
        Header::End(StreamEnd::Clean)
    } else if s.len() >= 2 && s[0] == MARKER_BYTE && s[1] == MARKER_BYTE {
        Header::Marker
    } else {
        Header::End(StreamEnd::MarkerMismatch)
    }
}

/// The number of bytes that reading a header from the front of `s` takes:
/// two, or what is left if that is less.
pub open spec fn header_consumed(s: Seq<u8>) -> nat {
    if s.len() < 2 {
        s.len()
    } else {
        2
    }
}

/// One number inside a record: its value and the bytes it takes, or `None`
/// where the varint at the front of `s` is missing, truncated or too wide.
pub open spec fn parse_field(s: Seq<u8>) -> Option<(u32, nat)> {
    match uvarint_result(s) {
        Ok(Some(value)) => Some((value, uvarint_consumed(s))),
        _ => None,
    }
}

/// One tank triple at the front of `s` and the bytes it takes.
#[verifier::opaque]
pub open spec fn parse_tank(s: Seq<u8>) -> Option<(Tank, nat)> {
    match parse_field(s) {
        Some((id, n1)) => match parse_field(s.skip(n1 as int)) {
            Some((battles, n2)) => match parse_field(s.skip((n1 + n2) as int)) {
                Some((wins, n3)) => Some((Tank { id, battles, wins }, n1 + n2 + n3)),
                None => None,
            },
            None => None,
        },
        None => None,
    }
}

/// The first `count` tank triples at the front of `s`, in order, and the
/// bytes they take together.
pub open spec fn parse_tanks(s: Seq<u8>, count: nat) -> Option<(Seq<Tank>, nat)>
    decreases count,
{
    if count == 0 {
        Some((Seq::empty(), 0))
    } else {
        match parse_tanks(s, (count - 1) as nat) {
            Some((tanks, used)) => match parse_tank(s.skip(used as int)) {
                Some((tank, n)) => Some((tanks.push(tank), used + n)),
                None => None,
            },
            None => None,
        }
    }
}

/// The body of a record at the front of `s`, the marker already taken:
/// the account with its tanks, and the bytes the body takes.
#[verifier::opaque]
pub open spec fn parse_body(s: Seq<u8>) -> Option<(AccountView, nat)> {
    match parse_field(s) {
        Some((id, n1)) => match parse_field(s.skip(n1 as int)) {
            Some((count, n2)) => match parse_tanks(s.skip((n1 + n2) as int), count as nat) {
                Some((tanks, n3)) => Some((AccountView { id, tanks }, n1 + n2 + n3)),
                None => None,
            },
            None => None,
        },
        None => None,
    }
}

/// The whole stream `s`: record after record until the marker is missing
/// or a record fails.
pub open spec fn parse_stream(s: Seq<u8>) -> StreamView
    decreases s.len(),
{
    match header_of(s) {
        Header::End(end) => StreamView {
            records: Seq::empty(),
            end: Ok(end),
            consumed: header_consumed(s),
        },
        Header::Marker => match parse_body(s.skip(2)) {
            None => StreamView {
                records: Seq::empty(),
                end: Err(DecodeError::MalformedRecord),
                consumed: 2,
            },
            Some((account, used)) => {
                proof {
                    lemma_parse_body_in_bounds(s.skip(2));
                }
                let rest = parse_stream(s.skip(2 + used as int));
                StreamView {
                    records: seq![account] + rest.records,
                    end: rest.end,
                    consumed: 2 + used + rest.consumed,
                }
            },
        },
    }
}

/// A record's body never takes more bytes than there are.
pub proof fn lemma_parse_body_in_bounds(s: Seq<u8>)
    ensures
        parse_body(s) matches Some((_, used)) ==> used <= s.len(),
{
    reveal(parse_body);
    match parse_field(s) {
        Some((id, n1)) => match parse_field(s.skip(n1 as int)) {
            Some((count, n2)) => {
                lemma_parse_tanks_in_bounds(s.skip((n1 + n2) as int), count as nat);
            },
            None => {},
        },
        None => {},
    }
}

proof fn lemma_parse_tanks_in_bounds(s: Seq<u8>, count: nat)
    ensures
        parse_tanks(s, count) matches Some((tanks, used)) ==> used <= s.len() && tanks.len()
            == count,
    decreases count,
{
    if count > 0 {
        lemma_parse_tanks_in_bounds(s, (count - 1) as nat);
        match parse_tanks(s, (count - 1) as nat) {
            Some((tanks, used)) => {
                lemma_parse_tank_in_bounds(s.skip(used as int));
            },
            None => {},
        }
    }
}

proof fn lemma_parse_tank_in_bounds(s: Seq<u8>)
    ensures
        parse_tank(s) matches Some((_, used)) ==> used <= s.len(),
{
    reveal(parse_tank);
}

proof fn lemma_parse_tanks_fails_on(s: Seq<u8>, failed: nat, count: nat)
    requires
        failed <= count,
        parse_tanks(s, failed) is None,
    ensures
        parse_tanks(s, count) is None,
    decreases count,
{
    if failed < count {
        lemma_parse_tanks_fails_on(s, failed, (count - 1) as nat);
    }
}

/// Reads the two marker bytes that open a record.
pub fn skip_account_header(input: &mut ByteCursor) -> (header: Header)
    ensures
        header == header_of(old(input)@),
        final(input)@ == old(input)@.skip(header_consumed(old(input)@) as int),
{
    let ghost s = input@;
    assert(s.skip(0) =~= s);
    let first = match input.next_byte() {
        Some(b) => b,
        None => {
            return Header::End(StreamEnd::Clean);
        },
    };
    let second = match input.next_byte() {
        Some(b) => b,
        None => {
            assert(s.skip(1) =~= Seq::<u8>::empty());
            assert(s.len() == 1);
            return Header::End(StreamEnd::MarkerMismatch);
        },
    };
    assert(s.skip(1).skip(1) =~= s.skip(2));
    assert(second == s[1]);
    if first == MARKER_BYTE && second == MARKER_BYTE {
        Header::Marker
    } else {
        Header::End(StreamEnd::MarkerMismatch)
    }
}

/// Why the body of a record could not be decoded.
#[derive(Debug, Clone, Copy, PartialEq, Eq, Structural)]
pub enum BodyFault {
    /// The bytes run out before the body is complete. With more bytes the
    /// body might still decode.
    CutShort,
    /// A number of the body does not fit the 32-bit width. No further
    /// byte can mend that.
    Invalid,
}

/// Whether the number at the front of `s` is cut short: the bytes run out
/// before it starts, or before its terminal byte.
pub open spec fn field_is_cut_short(s: Seq<u8>) -> bool {
    uvarint_result(s) == Ok::<Option<u32>, DecodeError>(None) || uvarint_result(s) == Err::<
        Option<u32>,
        DecodeError,
    >(DecodeError::TruncatedVarint)
}

/// Whether the tank triple at the front of `s` is cut short: the first of
/// its numbers that cannot be decoded is cut short.
pub open spec fn tank_is_cut_short(s: Seq<u8>) -> bool {
    match parse_field(s) {
        Some((_, n1)) => match parse_field(s.skip(n1 as int)) {
            Some((_, n2)) => match parse_field(s.skip((n1 + n2) as int)) {
                Some(_) => false,
                None => field_is_cut_short(s.skip((n1 + n2) as int)),
            },
            None => field_is_cut_short(s.skip(n1 as int)),
        },
        None => field_is_cut_short(s),
    }
}

/// Whether the first `count` tank triples at the front of `s` are cut
/// short: the first of them that cannot be decoded is cut short.
pub open spec fn tanks_are_cut_short(s: Seq<u8>, count: nat) -> bool
    decreases count,
{
    if count == 0 {
        false
    } else {
        match parse_tanks(s, (count - 1) as nat) {
            Some((_, used)) => tank_is_cut_short(s.skip(used as int)),
            None => tanks_are_cut_short(s, (count - 1) as nat),
        }
    }
}

/// Whether the body at the front of `s` is cut short: it cannot be
/// decoded, and what stops it is the end of the bytes, not a number that
/// is too wide.
pub open spec fn body_is_cut_short(s: Seq<u8>) -> bool {
    match parse_field(s) {
        Some((_, n1)) => match parse_field(s.skip(n1 as int)) {
            Some((count, n2)) => tanks_are_cut_short(s.skip((n1 + n2) as int), count as nat),
            None => field_is_cut_short(s.skip(n1 as int)),
        },
        None => field_is_cut_short(s),
    }
}

/// The fault of a body that cannot be decoded.
pub open spec fn fault_of(cut_short: bool) -> BodyFault {
    if cut_short {
        BodyFault::CutShort
    } else {
        BodyFault::Invalid
    }
}

proof fn lemma_tanks_cut_short_on(s: Seq<u8>, failed: nat, count: nat)
    requires
        1 <= failed <= count,
        parse_tanks(s, failed) is None,
    ensures
        tanks_are_cut_short(s, count) == tanks_are_cut_short(s, failed),
    decreases count,
{
    if failed < count {
        lemma_parse_tanks_fails_on(s, failed, (count - 1) as nat);
        lemma_tanks_cut_short_on(s, failed, (count - 1) as nat);
    }
}

fn read_field(input: &mut ByteCursor) -> (result: Result<u32, BodyFault>)
    ensures
        match parse_field(old(input)@) {
            Some((value, used)) => result == Ok::<u32, BodyFault>(value) && final(input)@ == old(
                input,
            )@.skip(used as int),
            None => result == Err::<u32, BodyFault>(
                fault_of(field_is_cut_short(old(input)@)),
            ),
        },
{
    match read_uvarint(input) {
        Ok(Some(value)) => Ok(value),
        Ok(None) => Err(BodyFault::CutShort),
        Err(DecodeError::VarintOverflow) => Err(BodyFault::Invalid),
        Err(_) => Err(BodyFault::CutShort),
    }
}

fn read_tank(input: &mut ByteCursor) -> (result: Result<Tank, BodyFault>)
    ensures
        match parse_tank(old(input)@) {
            Some((tank, used)) => result == Ok::<Tank, BodyFault>(tank) && final(input)@ == old(
                input,
            )@.skip(used as int),
            None => result == Err::<Tank, BodyFault>(fault_of(tank_is_cut_short(old(input)@))),
        },
{
    let ghost s = input@;
    reveal(parse_tank);
    let id = match read_field(input) {
        Ok(v) => v,
        Err(e) => {
            return Err(e);
        },
    };
    let ghost n1 = parse_field(s).unwrap().1;
    let battles = match read_field(input) {
        Ok(v) => v,
        Err(e) => {
            return Err(e);
        },
    };
    let ghost n2 = parse_field(s.skip(n1 as int)).unwrap().1;
    assert(s.skip(n1 as int).skip(n2 as int) =~= s.skip((n1 + n2) as int));
    let wins = match read_field(input) {
        Ok(v) => v,
        Err(e) => {
            return Err(e);
        },
    };
    let ghost n3 = parse_field(s.skip((n1 + n2) as int)).unwrap().1;
    assert(s.skip((n1 + n2) as int).skip(n3 as int) =~= s.skip((n1 + n2 + n3) as int));
    Ok(Tank { id, battles, wins })
}

fn read_tanks(input: &mut ByteCursor, count: u32) -> (result: Result<Vec<Tank>, BodyFault>)
    ensures
        match parse_tanks(old(input)@, count as nat) {
            Some((tanks, used)) => {
                &&& result matches Ok(read)
                &&& read@ == tanks
                &&& used <= old(input)@.len()
                &&& final(input)@ == old(input)@.skip(used as int)
            },
            None => result == Err::<Vec<Tank>, BodyFault>(
                fault_of(tanks_are_cut_short(old(input)@, count as nat)),
            ),
        },
{
    let ghost s = input@;
    let mut tanks: Vec<Tank> = Vec::new();
    let ghost mut used: nat = 0;
    let mut i: u32 = 0;
    assert(s.skip(0) =~= s);
    while i < count
        invariant
            s == old(input)@,
            i <= count,
            parse_tanks(s, i as nat) == Some((tanks@, used)),
            used <= s.len(),
            input@ == s.skip(used as int),
        decreases count - i,
    {
        let ghost rest = input@;
        proof {
            lemma_parse_tank_in_bounds(rest);
        }
        let tank = match read_tank(input) {
            Ok(t) => t,
            Err(e) => {
                proof {
                    assert(parse_tanks(s, (i + 1) as nat) is None);
                    lemma_parse_tanks_fails_on(s, (i + 1) as nat, count as nat);
                    lemma_tanks_cut_short_on(s, (i + 1) as nat, count as nat);
                }
                return Err(e);
            },
        };
        proof {
            let n = parse_tank(rest).unwrap().1;
            assert(s.skip(used as int).skip(n as int) =~= s.skip((used + n) as int));
            used = used + n;
        }
        tanks.push(tank);
        i = i + 1;
    }
    Ok(tanks)
}

/// Reads the body of a record, the marker already taken: the account id,
/// the number of tanks, and the tanks.
///
/// A body that cannot be decoded is told apart by its fault: cut short by
/// the end of the bytes, or invalid whatever bytes may follow.
pub fn read_body(input: &mut ByteCursor) -> (result: Result<Account, BodyFault>)
    ensures
        match parse_body(old(input)@) {
            Some((account, used)) => {
                &&& result matches Ok(read)
                &&& read@ == account
                &&& used <= old(input)@.len()
                &&& final(input)@ == old(input)@.skip(used as int)
            },
            None => result matches Err(fault) && fault == fault_of(
                body_is_cut_short(old(input)@),
            ),
        },
{
    let ghost s = input@;
    proof {
        reveal(parse_body);
        lemma_parse_body_in_bounds(s);
    }
    let id = match read_field(input) {
        Ok(v) => v,
        Err(e) => {
            return Err(e);
        },
    };
    let ghost n1 = parse_field(s).unwrap().1;
    let count = match read_field(input) {
        Ok(v) => v,
        Err(e) => {
            return Err(e);
        },
    };
    let ghost n2 = parse_field(s.skip(n1 as int)).unwrap().1;
    assert(s.skip(n1 as int).skip(n2 as int) =~= s.skip((n1 + n2) as int));
    let tanks = match read_tanks(input, count) {
        Ok(t) => t,
        Err(e) => {
            return Err(e);
        },
    };
    proof {
        let n3 = parse_tanks(s.skip((n1 + n2) as int), count as nat).unwrap().1;
        assert(s.skip((n1 + n2) as int).skip(n3 as int) =~= s.skip((n1 + n2 + n3) as int));
    }
    Ok(Account { id, tanks })
}

/// Reads the next account record from `input`.
///
/// Where no marker stands at the front, the stream is over and nothing is
/// decoded: the end is clean if no byte was left, a marker mismatch
/// otherwise. Once the marker has matched, the record is returned whole or
/// not at all: a body that cannot be decoded in full is `MalformedRecord`.
pub fn read_account(input: &mut ByteCursor) -> (result: Result<RecordRead, DecodeError>)
    ensures
        match header_of(old(input)@) {
            Header::End(end) => {
                &&& result matches Ok(RecordRead::End(e))
                &&& e == end
                &&& final(input)@ == old(input)@.skip(header_consumed(old(input)@) as int)
            },
            Header::Marker => match parse_body(old(input)@.skip(2)) {
                Some((account, used)) => {
                    &&& result matches Ok(RecordRead::Account(read))
                    &&& read@ == account
                    &&& 2 + used <= old(input)@.len()
                    &&& final(input)@ == old(input)@.skip(2 + used as int)
                },
                None => result matches Err(DecodeError::MalformedRecord),
            },
        },
{
    let ghost stream = input@;
    match skip_account_header(input) {
        Header::End(end) => {
            return Ok(RecordRead::End(end));
        },
        Header::Marker => {},
    }
    match read_body(input) {
        Ok(account) => {
            proof {
                let used = parse_body(stream.skip(2)).unwrap().1;
                assert(stream.skip(2).skip(used as int) =~= stream.skip(2 + used as int));
            }
            Ok(RecordRead::Account(account))
        },
        Err(_) => Err(DecodeError::MalformedRecord),
    }
}

proof fn lemma_field_stable(s: Seq<u8>, more: Seq<u8>)
    requires
        parse_field(s) is Some,
    ensures
        parse_field(s + more) == parse_field(s),
        parse_field(s).unwrap().1 <= s.len(),
{
    lemma_uvarint_stable(s, more);
}

proof fn lemma_tank_stable(s: Seq<u8>, more: Seq<u8>)
    requires
        parse_tank(s) is Some,
    ensures
        parse_tank(s + more) == parse_tank(s),
{
    reveal(parse_tank);
    lemma_field_stable(s, more);
    let n1 = parse_field(s).unwrap().1;
    assert((s + more).skip(n1 as int) =~= s.skip(n1 as int) + more);
    lemma_field_stable(s.skip(n1 as int), more);
    let n2 = parse_field(s.skip(n1 as int)).unwrap().1;
    assert((s + more).skip((n1 + n2) as int) =~= s.skip((n1 + n2) as int) + more);
    lemma_field_stable(s.skip((n1 + n2) as int), more);
}

proof fn lemma_tanks_stable(s: Seq<u8>, more: Seq<u8>, count: nat)
    requires
        parse_tanks(s, count) is Some,
    ensures
        parse_tanks(s + more, count) == parse_tanks(s, count),
    decreases count,
{
    if count > 0 {
        lemma_tanks_stable(s, more, (count - 1) as nat);
        lemma_parse_tanks_in_bounds(s, (count - 1) as nat);
        let used = parse_tanks(s, (count - 1) as nat).unwrap().1;
        assert((s + more).skip(used as int) =~= s.skip(used as int) + more);
        lemma_tank_stable(s.skip(used as int), more);
    }
}

proof fn lemma_body_stable(s: Seq<u8>, more: Seq<u8>)
    requires
        parse_body(s) is Some,
    ensures
        parse_body(s + more) == parse_body(s),
{
    reveal(parse_body);
    lemma_field_stable(s, more);
    let n1 = parse_field(s).unwrap().1;
    assert((s + more).skip(n1 as int) =~= s.skip(n1 as int) + more);
    lemma_field_stable(s.skip(n1 as int), more);
    let (count, n2) = parse_field(s.skip(n1 as int)).unwrap();
    assert((s + more).skip((n1 + n2) as int) =~= s.skip((n1 + n2) as int) + more);
    lemma_tanks_stable(s.skip((n1 + n2) as int), more, count as nat);
}

/// A record that is complete does not depend on the bytes that follow
/// it: it is the same record, and takes the same bytes, whatever is
/// appended. A stream can therefore be decoded piece by piece.
pub proof fn lemma_record_is_stable(s: Seq<u8>, more: Seq<u8>)
    requires
        header_of(s) == Header::Marker,
        parse_body(s.skip(2)) is Some,
    ensures
        header_of(s + more) == Header::Marker,
        parse_body((s + more).skip(2)) == parse_body(s.skip(2)),
{
    assert((s + more)[0] == s[0] && (s + more)[1] == s[1]);
    assert((s + more).skip(2) =~= s.skip(2) + more);
    lemma_body_stable(s.skip(2), more);
}

/// Two bytes that are not the marker end the stream whatever follows
/// them.
pub proof fn lemma_mismatch_is_stable(s: Seq<u8>, more: Seq<u8>)
    requires
        s.len() >= 2,
        header_of(s) == Header::End(StreamEnd::MarkerMismatch),
    ensures
        header_of(s + more) == Header::End(StreamEnd::MarkerMismatch),
        header_consumed(s + more) == header_consumed(s),
{
    assert((s + more)[0] == s[0] && (s + more)[1] == s[1]);
}

/// The records that can be decoded from the first bytes of a stream are
/// the first records of the stream: whatever bytes follow, they come out
/// again, in order, before any other.
pub proof fn lemma_stream_grows(s: Seq<u8>, more: Seq<u8>)
    ensures
        parse_stream(s).records.is_prefix_of(parse_stream(s + more).records),
    decreases s.len(),
{
    let short = parse_stream(s);
    let long = parse_stream(s + more);
    match header_of(s) {
        Header::End(_) => {},
        Header::Marker => match parse_body(s.skip(2)) {
            None => {},
            Some((account, used)) => {
                lemma_record_is_stable(s, more);
                lemma_parse_body_in_bounds(s.skip(2));
                let rest = s.skip(2 + used as int);
                assert((s + more).skip(2 + used as int) =~= rest + more);
                lemma_stream_grows(rest, more);
                let tail = parse_stream(rest).records;
                let long_tail = parse_stream(rest + more).records;
                assert(short.records == seq![account] + tail);
                assert(long.records == seq![account] + long_tail);
                assert forall|i: int| 0 <= i < short.records.len() implies short.records[i]
                    == long.records[i] by {
                    if i > 0 {
                        assert(tail[i - 1] == long_tail[i - 1]);
                    }
                }
            },
        },
    }
}


proof fn lemma_field_stays_invalid(s: Seq<u8>, more: Seq<u8>)
    requires
        parse_field(s) is None,
        !field_is_cut_short(s),
    ensures
        parse_field(s + more) is None,
{
    lemma_overflow_is_stable(s, more);
}

proof fn lemma_tank_stays_invalid(s: Seq<u8>, more: Seq<u8>)
    requires
        parse_tank(s) is None,
        !tank_is_cut_short(s),
    ensures
        parse_tank(s + more) is None,
{
    reveal(parse_tank);
    match parse_field(s) {
        None => {
            lemma_field_stays_invalid(s, more);
        },
        Some((_, n1)) => {
            lemma_field_stable(s, more);
            assert((s + more).skip(n1 as int) =~= s.skip(n1 as int) + more);
            match parse_field(s.skip(n1 as int)) {
                None => {
                    lemma_field_stays_invalid(s.skip(n1 as int), more);
                },
                Some((_, n2)) => {
                    lemma_field_stable(s.skip(n1 as int), more);
                    assert((s + more).skip((n1 + n2) as int) =~= s.skip((n1 + n2) as int) + more);
                    lemma_field_stays_invalid(s.skip((n1 + n2) as int), more);
                },
            }
        },
    }
}

proof fn lemma_tanks_stay_invalid(s: Seq<u8>, more: Seq<u8>, count: nat)
    requires
        parse_tanks(s, count) is None,
        !tanks_are_cut_short(s, count),
    ensures
        parse_tanks(s + more, count) is None,
    decreases count,
{
    if count > 0 {
        match parse_tanks(s, (count - 1) as nat) {
            Some((_, used)) => {
                lemma_tanks_stable(s, more, (count - 1) as nat);
                lemma_parse_tanks_in_bounds(s, (count - 1) as nat);
                assert((s + more).skip(used as int) =~= s.skip(used as int) + more);
                lemma_tank_stays_invalid(s.skip(used as int), more);
            },
            None => {
                lemma_tanks_stay_invalid(s, more, (count - 1) as nat);
            },
        }
    }
}

/// A body that is cut short cannot be decoded as it stands.
pub proof fn lemma_cut_short_is_no_body(s: Seq<u8>)
    requires
        body_is_cut_short(s),
    ensures
        parse_body(s) is None,
{
    reveal(parse_body);
    match parse_field(s) {
        Some((_, n1)) => match parse_field(s.skip(n1 as int)) {
            Some((count, n2)) => {
                lemma_cut_short_are_no_tanks(s.skip((n1 + n2) as int), count as nat);
            },
            None => {},
        },
        None => {},
    }
}

proof fn lemma_cut_short_are_no_tanks(s: Seq<u8>, count: nat)
    requires
        tanks_are_cut_short(s, count),
    ensures
        parse_tanks(s, count) is None,
    decreases count,
{
    reveal(parse_tank);
    if count > 0 {
        match parse_tanks(s, (count - 1) as nat) {
            Some(_) => {},
            None => {
                lemma_cut_short_are_no_tanks(s, (count - 1) as nat);
            },
        }
    }
}

/// A record whose body is invalid does not depend on the bytes that
/// follow: it cannot be decoded whatever is appended, so that a decoder
/// need not wait for more bytes before it fails.
pub proof fn lemma_invalid_is_stable(s: Seq<u8>, more: Seq<u8>)
    requires
        header_of(s) == Header::Marker,
        parse_body(s.skip(2)) is None,
        !body_is_cut_short(s.skip(2)),
    ensures
        header_of(s + more) == Header::Marker,
        parse_body((s + more).skip(2)) is None,
{
    reveal(parse_body);
    assert((s + more)[0] == s[0] && (s + more)[1] == s[1]);
    assert((s + more).skip(2) =~= s.skip(2) + more);
    let body = s.skip(2);
    match parse_field(body) {
        None => {
            lemma_field_stays_invalid(body, more);
        },
        Some((_, n1)) => {
            lemma_field_stable(body, more);
            assert((body + more).skip(n1 as int) =~= body.skip(n1 as int) + more);
            match parse_field(body.skip(n1 as int)) {
                None => {
                    lemma_field_stays_invalid(body.skip(n1 as int), more);
                },
                Some((count, n2)) => {
                    lemma_field_stable(body.skip(n1 as int), more);
                    assert((body + more).skip((n1 + n2) as int) =~= body.skip((n1 + n2) as int)
                        + more);
                    lemma_tanks_stay_invalid(body.skip((n1 + n2) as int), more, count as nat);
                },
            }
        },
    }
}

} // verus!
