//! The persisted cursor record of one consumer label.
//!
//! A reader is stored under its label as a fixed tagged binary record:
//! eight little-endian bytes for the cursor index, one tag byte for the
//! optional catch-up timestamp followed by its eight little-endian bytes,
//! and one byte for the expired flag.  The layout is stable across process
//! restarts.

use vstd::bytes::lemma_auto_spec_u64_to_from_le_bytes;
use vstd::bytes::spec_u64_from_le_bytes;
use vstd::bytes::spec_u64_to_le_bytes;
use vstd::bytes::u64_from_le_bytes;
use vstd::bytes::u64_to_le_bytes;
use vstd::prelude::*;

use crate::err::QueueError;

verus! {

/// Number of bytes in an encoded reader record.
pub const READER_RECORD_LEN: usize = 18;

/// The cursor state of one label: the next unread index, the write
/// timestamp at which the label caught up with the writer (if it did), and
/// whether entries vanished under the cursor since the last read.
#[derive(Clone, Copy, Debug, PartialEq, Eq)]
pub struct Reader {
    pub index: u64,
    pub end_timestamp: Option<u64>,
    pub expired: bool,
}

impl View for Reader {
    type V = Reader;

    open spec fn view(&self) -> Reader {
        *self
    }
}

impl Reader {
    pub fn new(index: u64, end_timestamp: Option<u64>, expired: bool) -> (r: Self)
        ensures
            r == (Reader { index, end_timestamp, expired }),
    {
        Reader { index, end_timestamp, expired }
    }
}

/// The stable byte layout of a reader record.
pub open spec fn spec_encode_reader(r: Reader) -> Seq<u8> {
    spec_u64_to_le_bytes(r.index) + seq![
        if r.end_timestamp is Some {
            1u8
        } else {
            0u8
        },
    ] + spec_u64_to_le_bytes(
        match r.end_timestamp {
            Some(t) => t,
            None => 0,
        },
    ) + seq![
        if r.expired {
            1u8
        } else {
            0u8
        },
    ]
}

/// The reader a byte string denotes, if it is a well-formed record.
pub open spec fn spec_decode_reader(s: Seq<u8>) -> Option<Reader> {
    if s.len() == READER_RECORD_LEN as int && (s[8] == 0u8 || s[8] == 1u8) && (s[17] == 0u8
        || s[17] == 1u8) {
        Some(
            Reader {
                index: spec_u64_from_le_bytes(s.subrange(0, 8)),
                end_timestamp: if s[8] == 1u8 {
                    Some(spec_u64_from_le_bytes(s.subrange(9, 17)))
                } else {
                    None
                },
                expired: s[17] == 1u8,
            },
        )
    } else {
        None
    }
}

/// Serializes a reader into its stable record.
pub fn encode_reader(r: &Reader) -> (out: Vec<u8>)
    ensures
        out@ == spec_encode_reader(*r),
        out@.len() == READER_RECORD_LEN as int,
{
    proof {
        lemma_auto_spec_u64_to_from_le_bytes();
    }
    let mut out = u64_to_le_bytes(r.index);
    match r.end_timestamp {
        Some(t) => {
            out.push(1u8);
            let mut tb = u64_to_le_bytes(t);
            out.append(&mut tb);
        },
        None => {
            out.push(0u8);
            let mut tb = u64_to_le_bytes(0u64);
            out.append(&mut tb);
        },
    }
    out.push(if r.expired { 1u8 } else { 0u8 });
    proof {
        assert(out@ =~= spec_encode_reader(*r));
    }
    out
}

/// Deserializes a reader record; a malformed byte string is a decode
/// failure, never a panic.
pub fn decode_reader(s: &Vec<u8>) -> (r: Result<Reader, QueueError>)
    ensures
        match r {
            Ok(rd) => spec_decode_reader(s@) == Some(rd),
            Err(e) => e == QueueError::Decode && spec_decode_reader(s@) is None,
        },
{
    proof {
        lemma_auto_spec_u64_to_from_le_bytes();
    }
    if s.len() != READER_RECORD_LEN {
        return Err(QueueError::Decode);
    }
    let tag = s[8];
    let flag = s[17];
    if (tag != 0u8 && tag != 1u8) || (flag != 0u8 && flag != 1u8) {
        return Err(QueueError::Decode);
    }
    let index = u64_from_le_bytes(&s.as_slice()[0..8]);
    let ts = u64_from_le_bytes(&s.as_slice()[9..17]);
    let end_timestamp = if tag == 1u8 {
        Some(ts)
    } else {
        None
    };
    Ok(Reader { index, end_timestamp, expired: flag == 1u8 })
}

/// Encoding then decoding a reader gives it back unchanged.
pub proof fn lemma_reader_round_trip(r: Reader)
    ensures
        spec_encode_reader(r).len() == READER_RECORD_LEN as int,
        spec_decode_reader(spec_encode_reader(r)) == Some(r),
{
    lemma_auto_spec_u64_to_from_le_bytes();
    let e = spec_encode_reader(r);
    assert(e.subrange(0, 8) =~= spec_u64_to_le_bytes(r.index));
    assert(e.subrange(9, 17) =~= spec_u64_to_le_bytes(
        match r.end_timestamp {
            Some(t) => t,
            None => 0,
        },
    ));
    assert(e[8] == if r.end_timestamp is Some {
        1u8
    } else {
        0u8
    });
    assert(e[17] == if r.expired {
        1u8
    } else {
        0u8
    });
}

} // verus!
