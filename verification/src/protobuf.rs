//! Unsigned base-128 varints and the byte cursor they are read from.

use vstd::prelude::*;
use crate::error::DecodeError;

verus! {

/// A forward-only cursor over a buffer of bytes.
///
/// Its view is the sequence of bytes that have not been read yet.
pub struct ByteCursor<'a> {
    data: &'a [u8],
    pos: usize,
}

impl<'a> View for ByteCursor<'a> {
    type V = Seq<u8>;

    closed spec fn view(&self) -> Seq<u8> {
        self.data@.skip(self.pos as int)
    }
}

impl<'a> ByteCursor<'a> {
    #[verifier::type_invariant]
    spec fn in_bounds(self) -> bool {
        self.pos <= self.data.len()
    }

    /// A cursor at the start of `data`.
    pub fn new(data: &'a [u8]) -> (cursor: ByteCursor<'a>)
        ensures
            cursor@ == data@,
    {
        ByteCursor { data, pos: 0 }
    }

    /// The number of bytes left to read.
    pub fn remaining(&self) -> (n: usize)
        ensures
            n == self@.len(),
    {
        proof {
            use_type_invariant(self);
        }
        self.data.len() - self.pos
    }

    /// Reads one byte and steps past it, or returns `None` at the end.
    pub fn next_byte(&mut self) -> (byte: Option<u8>)
        ensures
            match byte {
                Some(b) => old(self)@.len() > 0 && b == old(self)@[0] && final(self)@ == old(self)@.skip(1),
                None => old(self)@.len() == 0 && final(self)@ == old(self)@,
            },
    {
        proof {
            use_type_invariant(&*self);
        }
        if self.pos < self.data.len() {
            let b = self.data[self.pos];
            self.pos = self.pos + 1;
            assert(self.data@.skip(self.pos as int) =~= old(self).data@.skip(old(self).pos as int).skip(1));
            Some(b)
        } else {
            None
        }
    }
}

/// The number of leading bytes of `s` whose continuation bit is set.
pub open spec fn continuation_run(s: Seq<u8>) -> nat
    decreases s.len(),
{
    if s.len() > 0 && s[0] >= 0x80 {
        1 + continuation_run(s.skip(1))
    } else {
        0
    }
}

/// The number that the low seven bits of the bytes of `s` spell, least
/// significant group first.
pub open spec fn payload_value(s: Seq<u8>) -> nat
    decreases s.len(),
{
    if s.len() == 0 {
        0
    } else {
        (s[0] % 128) as nat + 128 * payload_value(s.skip(1))
    }
}

/// What decoding one varint from the front of `s` yields.
///
/// A varint is a run of continuation bytes closed by one terminal byte. A
/// 32-bit value takes at most five bytes, and the fifth may carry four
/// value bits only. A fifth byte that carries more is an overflow, and so
/// is any sixth byte. An empty `s` is the clean end of the stream; a
/// non-empty `s` that ends before the terminal byte, without an overflow
/// on the way, is truncated.
pub open spec fn uvarint_result(s: Seq<u8>) -> Result<Option<u32>, DecodeError> {
    let run = continuation_run(s);
    if s.len() == 0 {
        Ok(None)
    } else if run >= 4 && s.len() >= 5 && s[4] % 128 > 0x0f {
        Err(DecodeError::VarintOverflow)
    } else if run >= 5 && s.len() >= 6 {
        Err(DecodeError::VarintOverflow)
    } else if run == s.len() {
        Err(DecodeError::TruncatedVarint)
    } else {
        Ok(Some(payload_value(s.take(run + 1 as int)) as u32))
    }
}

/// The number of bytes that decoding one varint from the front of `s`
/// reads: the continuation run and the byte after it, but no byte after
/// the one that overflows, and never more than there are.
pub open spec fn uvarint_consumed(s: Seq<u8>) -> nat {
    let run = continuation_run(s);
    let wanted = if run >= 4 && s.len() >= 5 && s[4] % 128 > 0x0f {
        5
    } else if run >= 5 {
        6
    } else {
        run + 1
    };
    if wanted <= s.len() {
        wanted
    } else {
        s.len()
    }
}

/// The canonical varint encoding of `value`.
pub open spec fn uvarint_encoding(value: nat) -> Seq<u8>
    decreases value,
{
    if value < 128 {
        seq![value as u8]
    } else {
        seq![(value % 128 + 128) as u8] + uvarint_encoding(value / 128)
    }
}

spec fn pow128(n: nat) -> nat
    decreases n,
{
    if n == 0 {
        1
    } else {
        128 * pow128((n - 1) as nat)
    }
}

proof fn lemma_continuation_run_bounded(s: Seq<u8>)
    ensures
        continuation_run(s) <= s.len(),
    decreases s.len(),
{
    if s.len() > 0 {
        lemma_continuation_run_bounded(s.skip(1));
    }
}

proof fn lemma_pow128_values()
    ensures
        pow128(0) == 1,
        pow128(1) == 128,
        pow128(2) == 16384,
        pow128(3) == 2097152,
        pow128(4) == 268435456,
{
    reveal_with_fuel(pow128, 5);
}

proof fn lemma_continuation_run_prefix(s: Seq<u8>, i: nat)
    requires
        i <= s.len(),
        forall|j: int| 0 <= j < i ==> s[j] >= 0x80,
    ensures
        continuation_run(s) == i + continuation_run(s.skip(i as int)),
    decreases i,
{
    if i == 0 {
        assert(s.skip(0) =~= s);
    } else {
        let t = s.skip(1);
        assert forall|j: int| 0 <= j < i - 1 implies t[j] >= 0x80 by {
            assert(t[j] == s[j + 1]);
        }
        lemma_continuation_run_prefix(t, (i - 1) as nat);
        assert(t.skip(i - 1) =~= s.skip(i as int));
    }
}

proof fn lemma_payload_value_push(s: Seq<u8>, i: nat)
    requires
        i < s.len(),
    ensures
        payload_value(s.take(i + 1 as int)) == payload_value(s.take(i as int)) + (s[i as int] % 128)
            * pow128(i),
    decreases i,
{
    let group = (s[i as int] % 128) as nat;
    if i == 0 {
        assert(s.take(1).skip(1) =~= Seq::<u8>::empty());
        assert(s.take(0) =~= Seq::<u8>::empty());
        assert(payload_value(s.take(1)) == group + 128 * payload_value(s.take(1).skip(1)));
        assert(group * pow128(0) == group) by (nonlinear_arith)
            requires
                pow128(0) == 1,
        ;
    } else {
        let t = s.skip(1);
        lemma_payload_value_push(t, (i - 1) as nat);
        assert(s.take(i + 1 as int).skip(1) =~= t.take(i as int));
        assert(s.take(i as int).skip(1) =~= t.take(i - 1));
        assert(t[i - 1] == s[i as int]);
        assert(s.take(i + 1 as int)[0] == s[0] && s.take(i as int)[0] == s[0]);
        assert(128 * (group * pow128((i - 1) as nat)) == group * pow128(i)) by (nonlinear_arith)
            requires
                pow128(i) == 128 * pow128((i - 1) as nat),
        ;
    }
}

proof fn lemma_group_shift(value: u64, byte: u8, shift: u32)
    by (bit_vector)
    requires
        shift <= 28,
        value < (1u64 << shift),
    ensures
        value | (((byte & 0x7f) as u64) << shift) == value + ((byte % 128) as u64) * (1u64
            << shift),
        value | (((byte & 0x7f) as u64) << shift) < (1u64 << ((shift + 7) as u32)),
        (1u64 << ((shift + 7) as u32)) == 128 * (1u64 << shift),
        (byte & 0x80 == 0) <==> byte < 0x80,
        byte & 0x7f == byte % 128,
{
}

/// Reads the next varint from `input`.
///
/// `Ok(None)` is the clean end of the stream: there was no byte left to
/// start a value with.
pub fn read_uvarint(input: &mut ByteCursor) -> (result: Result<Option<u32>, DecodeError>)
    ensures
        result == uvarint_result(old(input)@),
        final(input)@ == old(input)@.skip(uvarint_consumed(old(input)@) as int),
{
    let ghost s = input@;
    let mut value: u64 = 0;
    let mut shift: u32 = 0;
    let ghost mut count: nat = 0;
    assert(s.skip(0) =~= s);
    assert(1u64 << 0u32 == 1) by (bit_vector);
    while shift <= 28
        invariant
            s == old(input)@,
            count <= 5,
            count <= s.len(),
            shift == 7 * count,
            input@ == s.skip(count as int),
            forall|j: int| 0 <= j < count ==> s[j] >= 0x80,
            count <= 4 ==> value == payload_value(s.take(count as int)),
            count <= 4 ==> (1u64 << shift) == pow128(count),
            count <= 4 ==> value < pow128(count),
            count == 5 ==> s[4] % 128 <= 0x0f,
        decreases 5 - count,
    {
        proof {
            lemma_continuation_run_prefix(s, count);
            lemma_continuation_run_bounded(s);
            lemma_pow128_values();
        }
        let byte = match input.next_byte() {
            Some(b) => b,
            None => {
                return if shift == 0 {
                    Ok(None)
                } else {
                    Err(DecodeError::TruncatedVarint)
                };
            },
        };
        assert(byte == s[count as int]);
        assert(input@ =~= s.skip(count + 1 as int));
        proof {
            lemma_group_shift(value, byte, shift);
            lemma_payload_value_push(s, count);
            reveal_with_fuel(continuation_run, 2);
        }
        if shift == 28 && byte & 0x7f > 0x0f {
            return Err(DecodeError::VarintOverflow);
        }
        value = value | (((byte & 0x7f) as u64) << shift);
        assert(value == payload_value(s.take(count + 1 as int)));
        if byte & 0x80 == 0 {
            assert(continuation_run(s) == count);
            assert(value <= u32::MAX) by {
                if count == 4 {
                    assert((byte % 128) * pow128(4) <= 15 * 268435456) by (nonlinear_arith)
                        requires
                            byte % 128 <= 15,
                            pow128(4) == 268435456,
                    ;
                }
            }
            return Ok(Some(value as u32));
        }
        shift = shift + 7;
        proof {
            count = count + 1;
        }
    }
    // Five continuation bytes have been read, and the value is full: one
    // more byte is an overflow, the end of the input a truncation.
    proof {
        lemma_continuation_run_prefix(s, 5);
        lemma_continuation_run_bounded(s);
    }
    match input.next_byte() {
        Some(_) => {
            assert(input@ =~= s.skip(6));
            Err(DecodeError::VarintOverflow)
        },
        None => Err(DecodeError::TruncatedVarint),
    }
}

proof fn lemma_low_group(rest: u32)
    by (bit_vector)
    requires
        rest >= 0x80,
    ensures
        ((rest & 0x7f) as u8 | 0x80) == (rest % 128 + 128) as u8,
        rest >> 7 == rest / 128,
        rest % 128 + 128 < 256,
{
}

/// Appends the canonical varint encoding of `value` to `output`.
pub fn write_uvarint(output: &mut Vec<u8>, value: u32)
    ensures
        final(output)@ == old(output)@ + uvarint_encoding(value as nat),
{
    let mut rest = value;
    while rest >= 0x80
        invariant
            old(output)@ + uvarint_encoding(value as nat) == output@ + uvarint_encoding(
                rest as nat,
            ),
        decreases rest,
    {
        proof {
            lemma_low_group(rest);
        }
        let ghost before = output@;
        let byte = (rest & 0x7f) as u8 | 0x80;
        output.push(byte);
        assert(before + uvarint_encoding(rest as nat) =~= before.push(byte) + uvarint_encoding(
            (rest / 128) as nat,
        ));
        rest = rest >> 7;
    }
    let ghost before = output@;
    output.push(rest as u8);
    assert(before + uvarint_encoding(rest as nat) =~= before.push(rest as u8));
}

proof fn lemma_encoding_shape(value: nat)
    ensures
        uvarint_encoding(value).len() >= 1,
        forall|j: int|
            0 <= j < uvarint_encoding(value).len() - 1 ==> uvarint_encoding(value)[j] >= 0x80,
        uvarint_encoding(value).last() < 0x80,
        payload_value(uvarint_encoding(value)) == value,
    decreases value,
{
    let e = uvarint_encoding(value);
    if value < 128 {
        assert(e.skip(1) =~= Seq::<u8>::empty());
        assert(payload_value(e) == (e[0] % 128) as nat + 128 * payload_value(e.skip(1)));
    } else {
        let tail = uvarint_encoding(value / 128);
        lemma_encoding_shape(value / 128);
        assert(e.skip(1) =~= tail);
        assert(e[0] == (value % 128 + 128) as u8);
        assert forall|j: int| 0 <= j < e.len() - 1 implies e[j] >= 0x80 by {
            if j > 0 {
                assert(e[j] == tail[j - 1]);
            }
        }
        assert(e.last() == tail.last());
    }
}

proof fn lemma_encoding_bound(value: nat, k: nat)
    requires
        k >= 1,
        value < pow128(k),
    ensures
        uvarint_encoding(value).len() <= k,
        uvarint_encoding(value).len() == k ==> uvarint_encoding(value)[k - 1] * pow128(
            (k - 1) as nat,
        ) <= value,
    decreases k,
{
    let e = uvarint_encoding(value);
    reveal_with_fuel(pow128, 2);
    if value < 128 {
        if k == 1 {
            assert(e[0] * pow128(0) == value) by (nonlinear_arith)
                requires
                    e[0] == value,
                    pow128(0) == 1,
            ;
        }
    } else {
        let tail = uvarint_encoding(value / 128);
        lemma_encoding_bound(value / 128, (k - 1) as nat);
        if e.len() == k {
            assert(e[k - 1] == tail[k - 2]);
            assert(e[k - 1] * pow128((k - 1) as nat) <= 128 * (value / 128)) by (nonlinear_arith)
                requires
                    e[k - 1] == tail[k - 2],
                    tail[k - 2] * pow128((k - 2) as nat) <= value / 128,
                    pow128((k - 1) as nat) == 128 * pow128((k - 2) as nat),
            ;
        }
    }
}

/// Decoding the encoding of any 32-bit `value` gives `value` back and
/// reads exactly the bytes of the encoding, whatever follows them.
pub proof fn lemma_uvarint_round_trip(value: u32, rest: Seq<u8>)
    ensures
        uvarint_result(uvarint_encoding(value as nat) + rest) == Ok::<Option<u32>, DecodeError>(
            Some(value),
        ),
        uvarint_consumed(uvarint_encoding(value as nat) + rest) == uvarint_encoding(
            value as nat,
        ).len(),
        1 <= uvarint_encoding(value as nat).len() <= 5,
{
    let e = uvarint_encoding(value as nat);
    let s = e + rest;
    let last = (e.len() - 1) as nat;
    lemma_encoding_shape(value as nat);
    reveal_with_fuel(pow128, 6);
    lemma_encoding_bound(value as nat, 5);
    assert forall|j: int| 0 <= j < last implies s[j] >= 0x80 by {
        assert(s[j] == e[j]);
    }
    lemma_continuation_run_prefix(s, last);
    assert(s.skip(last as int)[0] == e.last());
    assert(continuation_run(s) == last);
    assert(s.take(last + 1 as int) =~= e);
    if e.len() == 5 {
        assert(s[4] == e[4]);
        assert(e[4] <= 0x0f) by (nonlinear_arith)
            requires
                e[4] * pow128(4) <= value,
                pow128(4) == 268435456,
                value <= 0xffff_ffff,
        ;
    }
}

proof fn lemma_continuation_run_stable(s: Seq<u8>, more: Seq<u8>)
    requires
        continuation_run(s) < s.len(),
    ensures
        continuation_run(s + more) == continuation_run(s),
    decreases s.len(),
{
    assert((s + more)[0] == s[0]);
    if s[0] >= 0x80 {
        assert((s + more).skip(1) =~= s.skip(1) + more);
        lemma_continuation_run_stable(s.skip(1), more);
    }
}

/// A value that was decoded does not depend on the bytes that follow: it
/// is the same, and takes the same bytes, whatever is appended.
pub proof fn lemma_uvarint_stable(s: Seq<u8>, more: Seq<u8>)
    requires
        uvarint_result(s) matches Ok(Some(_)),
    ensures
        uvarint_result(s + more) == uvarint_result(s),
        uvarint_consumed(s + more) == uvarint_consumed(s),
        uvarint_consumed(s) <= s.len(),
{
    let run = continuation_run(s);
    lemma_continuation_run_bounded(s);
    lemma_continuation_run_stable(s, more);
    if run >= 4 {
        assert((s + more)[4] == s[4]);
    }
    assert((s + more).take(run + 1 as int) =~= s.take(run + 1 as int));
}


proof fn lemma_continuation_bytes(s: Seq<u8>, j: int)
    requires
        0 <= j < continuation_run(s),
    ensures
        j < s.len(),
        s[j] >= 0x80,
    decreases j,
{
    if j > 0 {
        lemma_continuation_bytes(s.skip(1), j - 1);
        assert(s.skip(1)[j - 1] == s[j]);
    }
}

/// An overflow does not depend on the bytes that follow: a number that is
/// too wide stays too wide, whatever is appended.
pub proof fn lemma_overflow_is_stable(s: Seq<u8>, more: Seq<u8>)
    requires
        uvarint_result(s) == Err::<Option<u32>, DecodeError>(DecodeError::VarintOverflow),
    ensures
        uvarint_result(s + more) == uvarint_result(s),
{
    let run = continuation_run(s);
    let long = s + more;
    let k: nat = if run >= 5 {
        5
    } else {
        4
    };
    assert forall|j: int| 0 <= j < k implies long[j] >= 0x80 by {
        lemma_continuation_bytes(s, j);
        assert(long[j] == s[j]);
    }
    lemma_continuation_run_prefix(long, k);
    assert(long[4] == s[4]);
}


/// How the end of the input shows. The end is clean exactly where no byte
/// was left. A value is truncated exactly where every byte that was left
/// carries the continuation bit and none of them overflows: there are five
/// at most, and a fifth carries no more than four value bits.
pub proof fn lemma_end_of_input(s: Seq<u8>)
    ensures
        uvarint_result(s) == Ok::<Option<u32>, DecodeError>(None) <==> s.len() == 0,
        uvarint_result(s) == Err::<Option<u32>, DecodeError>(DecodeError::TruncatedVarint) <==> {
            &&& 0 < s.len() <= 5
            &&& continuation_run(s) == s.len()
            &&& s.len() == 5 ==> s[4] % 128 <= 0x0f
        },
{
    lemma_continuation_run_bounded(s);
}

} // verus!
