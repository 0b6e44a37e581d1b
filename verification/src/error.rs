//! Failures of the decoder and faults in the data.

use vstd::prelude::*;

verus! {

/// Why decoding stopped with a failure.
#[derive(Debug, Clone, Copy, PartialEq, Eq, Structural)]
pub enum DecodeError {
    /// The stream ended inside a varint: the last byte read still had its
    /// continuation bit set.
    TruncatedVarint,
    /// The varint does not fit the 32-bit value width.
    VarintOverflow,
    /// A record's marker matched but its body could not be decoded in full.
    MalformedRecord,
    /// The bytes are not those of a similarity model.
    MalformedModel,
}

/// A fault in the ratings table: an item's bucket holds two ratings by one
/// account.
#[derive(Debug, Clone, Copy, PartialEq, Eq, Structural)]
pub struct RepeatedAccount {
    /// The item whose bucket is at fault.
    pub item: u32,
}

} // verus!
