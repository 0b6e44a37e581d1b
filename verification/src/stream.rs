//! Decoding a stream of records that arrives in pieces.
//!
//! The decoder holds the bytes that have arrived and have not been
//! decoded yet. A record is handed out as soon as it is complete; until
//! then the decoder asks for more bytes, so that no more than one record
//! and one piece of input need to be in memory at a time.

use vstd::prelude::*;
use vstd::slice::slice_subrange;
use crate::error::DecodeError;
use crate::protobuf::ByteCursor;
use crate::stats::{
    body_is_cut_short, header_consumed, header_of, parse_body, read_body, skip_account_header,
    Account, BodyFault, Header, StreamEnd,
};

verus! {

/// What one call of [`StreamDecoder::next`] found.
#[derive(Debug)]
pub enum Step {
    /// A complete record.
    Record(Account),
    /// The bytes that have arrived so far end before the next record
    /// does.
    NeedMore,
    /// No marker: the stream is over.
    End(StreamEnd),
}

/// A decoder for a stream that arrives in pieces.
///
/// Its view is the sequence of bytes that have arrived and have not been
/// decoded yet.
pub struct StreamDecoder {
    pending: Vec<u8>,
    pos: usize,
}

impl View for StreamDecoder {
    type V = Seq<u8>;

    closed spec fn view(&self) -> Seq<u8> {
        self.pending@.skip(self.pos as int)
    }
}

impl StreamDecoder {
    #[verifier::type_invariant]
    spec fn in_bounds(self) -> bool {
        self.pos <= self.pending.len()
    }

    /// A decoder to which no byte has arrived yet.
    pub fn new() -> (decoder: StreamDecoder)
        ensures
            decoder@ == Seq::<u8>::empty(),
    {
        let decoder = StreamDecoder { pending: Vec::new(), pos: 0 };
        assert(decoder.pending@.skip(0) =~= Seq::<u8>::empty());
        decoder
    }

    /// Takes in the next piece of the stream.
    pub fn push(&mut self, chunk: &[u8])
        ensures
            final(self)@ == old(self)@ + chunk@,
    {
        proof {
            use_type_invariant(&*self);
        }
        let ghost before = self@;
        // What has been decoded is dropped here, so that the buffer does
        // not grow with the stream.
        let mut taken = StreamDecoder::new();
        core::mem::swap(self, &mut taken);
        let StreamDecoder { pending, pos } = taken;
        let mut pending = pending;
        let mut rest = pending.split_off(pos);
        assert(rest@ =~= before);
        let mut i: usize = 0;
        while i < chunk.len()
            invariant
                i <= chunk.len(),
                rest@ == before + chunk@.take(i as int),
            decreases chunk.len() - i,
        {
            rest.push(chunk[i]);
            assert(before + chunk@.take(i + 1) =~= (before + chunk@.take(i as int)).push(
                chunk@[i as int],
            ));
            i = i + 1;
        }
        assert(chunk@.take(chunk.len() as int) =~= chunk@);
        assert(rest@.skip(0) =~= rest@);
        *self = StreamDecoder { pending: rest, pos: 0 };
    }

    /// Decodes the next record, if it has arrived in full.
    ///
    /// `at_end` says that no more bytes will come. While more may come,
    /// bytes that end inside a marker or inside a record are left where
    /// they are and more are asked for; at the end they are what they are
    /// in the stream as a whole: a marker mismatch, or a malformed record.
    /// A record that no further byte can mend, because one of its numbers
    /// is too wide, is a malformed record at once.
    pub fn next(&mut self, at_end: bool) -> (result: Result<Step, DecodeError>)
        ensures
            match header_of(old(self)@) {
                Header::End(StreamEnd::Clean) => {
                    &&& final(self)@ == old(self)@
                    &&& if at_end {
                        result matches Ok(Step::End(StreamEnd::Clean))
                    } else {
                        result matches Ok(Step::NeedMore)
                    }
                },
                Header::End(StreamEnd::MarkerMismatch) => {
                    if old(self)@.len() < 2 && !at_end {
                        result matches Ok(Step::NeedMore) && final(self)@ == old(self)@
                    } else {
                        result matches Ok(Step::End(StreamEnd::MarkerMismatch)) && final(self)@
                            == old(self)@.skip(header_consumed(old(self)@) as int)
                    }
                },
                Header::Marker => match parse_body(old(self)@.skip(2)) {
                    Some((account, used)) => {
                        &&& result matches Ok(Step::Record(read))
                        &&& read@ == account
                        &&& final(self)@ == old(self)@.skip(2 + used as int)
                    },
                    None => {
                        &&& final(self)@ == old(self)@
                        &&& if at_end || !body_is_cut_short(old(self)@.skip(2)) {
                            result matches Err(DecodeError::MalformedRecord)
                        } else {
                            result matches Ok(Step::NeedMore)
                        }
                    },
                },
            },
    {
        proof {
            use_type_invariant(&*self);
        }
        let ghost before = self@;
        let unread = slice_subrange(self.pending.as_slice(), self.pos, self.pending.len());
        assert(unread@ =~= before);
        let mut cursor = ByteCursor::new(unread);
        let available = cursor.remaining();
        match skip_account_header(&mut cursor) {
            Header::End(StreamEnd::Clean) => {
                if at_end {
                    Ok(Step::End(StreamEnd::Clean))
                } else {
                    Ok(Step::NeedMore)
                }
            },
            Header::End(StreamEnd::MarkerMismatch) => {
                if available < 2 && !at_end {
                    Ok(Step::NeedMore)
                } else {
                    let left = cursor.remaining();
                    let ghost used = header_consumed(before);
                    assert(self.pending@.skip(self.pos as int).skip(used as int)
                        =~= self.pending@.skip(self.pos + used));
                    self.pos = self.pos + (available - left);
                    Ok(Step::End(StreamEnd::MarkerMismatch))
                }
            },
            Header::Marker => {
                let outcome = read_body(&mut cursor);
                let left = cursor.remaining();
                match outcome {
                    Ok(account) => {
                        let ghost used = before.len() - cursor@.len();
                        assert(before.skip(2).skip(used - 2) =~= before.skip(used));
                        assert(self.pending@.skip(self.pos as int).skip(used as int)
                            =~= self.pending@.skip(self.pos + used));
                        self.pos = self.pos + (available - left);
                        Ok(Step::Record(account))
                    },
                    Err(BodyFault::CutShort) => {
                        if at_end {
                            Err(DecodeError::MalformedRecord)
                        } else {
                            Ok(Step::NeedMore)
                        }
                    },
                    Err(BodyFault::Invalid) => Err(DecodeError::MalformedRecord),
                }
            },
        }
    }
}

} // verus!
