//! Encoding of 64-bit counters as fixed-width little-endian byte strings.
//!
//! Every key of the underlying store, and every stored metadata counter,
//! is a 64-bit integer laid out as eight little-endian bytes.

use vstd::bytes::lemma_auto_spec_u64_to_from_le_bytes;
use vstd::bytes::spec_u64_from_le_bytes;
use vstd::bytes::spec_u64_to_le_bytes;
use vstd::bytes::u64_from_le_bytes;
use vstd::bytes::u64_to_le_bytes;
use vstd::prelude::*;

use crate::ring::U64_BYTE_LEN;

verus! {

/// Reads a 64-bit counter back from its eight little-endian bytes.
pub fn u64_from_byte_vec(v: &[u8]) -> (r: u64)
    requires
        v@.len() == U64_BYTE_LEN,
    ensures
        r == spec_u64_from_le_bytes(v@),
{
    u64_from_le_bytes(v)
}

/// Lays a sequence index out as its eight little-endian key bytes.
pub fn index_to_key(index: u64) -> (r: Vec<u8>)
    ensures
        r@ == spec_u64_to_le_bytes(index),
        r@.len() == U64_BYTE_LEN,
{
    proof {
        lemma_auto_spec_u64_to_from_le_bytes();
    }
    u64_to_le_bytes(index)
}

/// Reads the sequence index back out of its eight key bytes.
pub fn key_to_index(v: &[u8]) -> (r: u64)
    requires
        v@.len() == U64_BYTE_LEN,
    ensures
        r == spec_u64_from_le_bytes(v@),
{
    u64_from_le_bytes(v)
}

/// Encoding and decoding a counter are mutually inverse.
pub proof fn lemma_key_round_trip()
    ensures
        forall|i: u64| #[trigger]
            spec_u64_from_le_bytes(spec_u64_to_le_bytes(i)) == i,
        forall|i: u64| #[trigger] spec_u64_to_le_bytes(i).len() == U64_BYTE_LEN,
        forall|s: Seq<u8>|
            s.len() == U64_BYTE_LEN ==> #[trigger] spec_u64_to_le_bytes(
                spec_u64_from_le_bytes(s),
            ) == s,
{
    lemma_auto_spec_u64_to_from_le_bytes();
}

} // verus!
