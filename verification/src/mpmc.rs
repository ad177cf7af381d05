//! The multi-consumer queue with time-to-live expiration.
//!
//! Entries live in a `data` column family under ring-indexed keys and are
//! never deleted by the queue itself: the store ages them out, and the
//! queue reacts by reconciling its start index and every consumer cursor.
//! Each consumer is a label with a persisted [`Reader`] record in the
//! `reader` column family; the `system` column family holds the start
//! index, write index and write timestamp.

use vstd::bytes::spec_u64_from_le_bytes;
use vstd::prelude::*;

use crate::bounded::read_cell;
use crate::clock::current_timestamp;
use crate::codec::index_to_key;
use crate::codec::lemma_key_round_trip;
use crate::codec::u64_from_byte_vec;
use crate::err::QueueError;
use crate::reader::decode_reader;
use crate::reader::encode_reader;
use crate::reader::lemma_reader_round_trip;
use crate::reader::spec_decode_reader;
use crate::reader::Reader;
use crate::ring::lemma_ring_add_compose;
use crate::ring::lemma_ring_add_step;
use crate::ring::lemma_ring_add_of_dist;
use crate::ring::lemma_ring_dist_of_add;
use crate::ring::lemma_ring_len_bounds;
use crate::ring::lemma_ring_dist_shift;
use crate::ring::lemma_ring_write_head;
use crate::ring::ring_add_spec;
use crate::ring::ring_dist_spec;
use crate::ring::ring_len;
use crate::ring::ring_len_spec;
use crate::ring::ring_next;
use crate::ring::ring_next_spec;
use crate::ring::ring_prev;
use crate::ring::ring_prev_spec;
use crate::ring::MAX_INDEX;
use crate::ring::U64_BYTE_LEN;
use crate::store::assoc_distinct_keys;
use crate::store::assoc_map_of;
use crate::store::cell_u64_or;
use crate::store::clone_bytes;
use crate::store::lemma_assoc_dom;
use crate::store::lemma_assoc_index;
use crate::store::lemma_assoc_push;
use crate::store::lemma_assoc_remove;
use crate::store::lemma_assoc_update;
use crate::store::CellMap;

verus! {

/// System cell holding the oldest live index.
pub const START_INDEX_KEY: u64 = u64::MAX;

/// System cell holding the next index to be written.
pub const WRITE_INDEX_KEY: u64 = u64::MAX - 1;

/// System cell holding the nanosecond timestamp of the last add.
pub const WRITE_TIMESTAMP_KEY: u64 = u64::MAX - 2;

/// Where a label new to the queue starts reading.
#[derive(Clone, Copy, Debug)]
pub enum StartPosition {
    Oldest,
    Newest,
}

/// The three column families of a multi-consumer queue, as the store
/// keeps them on disk: ring-indexed payloads, system counters, and one
/// serialized reader record per label.
pub struct MpmcStore {
    data: CellMap,
    system: CellMap,
    readers: Vec<(String, Vec<u8>)>,
}

impl MpmcStore {
    pub closed spec fn spec_data(self) -> Map<u64, Seq<u8>> {
        self.data@
    }

    pub closed spec fn spec_system(self) -> Map<u64, Seq<u8>> {
        self.system@
    }

    pub closed spec fn spec_readers(self) -> Map<Seq<char>, Seq<u8>> {
        assoc_map_of(self.readers@)
    }

    pub closed spec fn inv(self) -> bool {
        &&& self.data.inv()
        &&& self.system.inv()
        &&& assoc_distinct_keys(self.readers@)
    }

    /// A fresh store with no entries, no counters and no readers.
    pub fn new() -> (s: Self)
        ensures
            s.inv(),
            s.spec_data() =~= Map::<u64, Seq<u8>>::empty(),
            s.spec_system() =~= Map::<u64, Seq<u8>>::empty(),
            s.spec_readers() =~= Map::<Seq<char>, Seq<u8>>::empty(),
    {
        MpmcStore { data: CellMap::new(), system: CellMap::new(), readers: Vec::new() }
    }
}

/// The abstract state of a multi-consumer queue: the live entries, the
/// cursors, and the emptiness flag the queue believes.
pub struct MpmcState {
    pub data: Map<u64, Seq<u8>>,
    pub start_index: u64,
    pub write_index: u64,
    pub write_timestamp: u64,
    pub readers: Map<Seq<char>, Reader>,
    pub empty: bool,
}

/// `k` is the smallest live key that is at least `lo`.
pub open spec fn is_min_at_or_after(d: Map<u64, Seq<u8>>, lo: u64, k: u64) -> bool {
    &&& d.dom().contains(k)
    &&& k >= lo
    &&& forall|j: u64| d.dom().contains(j) && j >= lo ==> k <= j
}

/// The smallest live key at or after `lo`, or the smallest live key
/// overall when every live key lies before `lo`: the two-probe forward
/// scan of reconciliation.
pub open spec fn spec_min_live(d: Map<u64, Seq<u8>>, lo: u64) -> u64 {
    if exists|k: u64| d.dom().contains(k) && k >= lo {
        choose|k: u64| is_min_at_or_after(d, lo, k)
    } else {
        choose|k: u64| is_min_at_or_after(d, 0, k)
    }
}

/// How reconciliation rewrites a reader when every entry has expired:
/// the cursor jumps to the write head, the label is marked caught-up, and
/// it is flagged expired unless it had already caught up.
pub open spec fn reconcile_all_expired_reader(write: u64, wts: u64, rd: Reader) -> Reader {
    Reader {
        index: write,
        end_timestamp: Some(wts),
        expired: rd.end_timestamp != Some(wts),
    }
}

/// The ring-aware cursor adjustment when some entries expired and the
/// oldest live key moved to `start`: a reader at the write head stays; one
/// whose arc was swallowed jumps to `start`; one still on the live arc is
/// clamped forward to `start` at most.
pub open spec fn adjust_reader_spec(start: u64, write: u64, rd: Reader) -> Reader {
    let index = if rd.index == write {
        rd.index
    } else if rd.index > write {
        if start > write {
            if start > rd.index {
                start
            } else {
                rd.index
            }
        } else {
            start
        }
    } else {
        if start > write {
            rd.index
        } else {
            if start > rd.index {
                start
            } else {
                rd.index
            }
        }
    };
    Reader { index, end_timestamp: rd.end_timestamp, expired: index != rd.index }
}

/// The single reconciliation rule for one reader: the all-expired jump or
/// the ring-aware clamp.
pub open spec fn reconcile_reader(
    all_expired: bool,
    start: u64,
    write: u64,
    wts: u64,
    rd: Reader,
) -> Reader {
    if all_expired {
        reconcile_all_expired_reader(write, wts, rd)
    } else {
        adjust_reader_spec(start, write, rd)
    }
}

/// Applies the reconciliation rule to one reader.
fn reconcile_reader_exec(all_expired: bool, start: u64, write: u64, wts: u64, rd: Reader) -> (r:
    Reader)
    ensures
        r == reconcile_reader(all_expired, start, write, wts, rd),
{
    if all_expired {
        let expired = match rd.end_timestamp {
            Some(t) => t != wts,
            None => true,
        };
        Reader { index: write, end_timestamp: Some(wts), expired }
    } else {
        let index = if rd.index == write {
            rd.index
        } else if rd.index > write {
            if start > write {
                if start > rd.index {
                    start
                } else {
                    rd.index
                }
            } else {
                start
            }
        } else {
            if start > write {
                rd.index
            } else {
                if start > rd.index {
                    start
                } else {
                    rd.index
                }
            }
        };
        Reader { index, end_timestamp: rd.end_timestamp, expired: index != rd.index }
    }
}

/// The data map after appending `vs` in order at the write head `w`.
pub open spec fn data_app(d: Map<u64, Seq<u8>>, w: u64, vs: Seq<Seq<u8>>, m: u64) -> Map<
    u64,
    Seq<u8>,
>
    decreases vs.len(),
{
    if vs.len() == 0 {
        d
    } else {
        data_app(d, w, vs.drop_last(), m).insert(
            ring_add_spec(w, vs.len() - 1, m),
            vs.last(),
        )
    }
}

/// What the appended data map holds: the old records plus the new batch
/// at consecutive ring slots.
pub proof fn lemma_data_app_facts(d: Map<u64, Seq<u8>>, w: u64, vs: Seq<Seq<u8>>, m: u64)
    requires
        w < m,
        vs.len() <= m,
    ensures
        forall|k: u64| #[trigger]
            data_app(d, w, vs, m).dom().contains(k) <==> d.dom().contains(k) || (exists|j: int|
                0 <= j < vs.len() && k == ring_add_spec(w, j, m)),
        forall|j: int|
            0 <= j < vs.len() ==> data_app(d, w, vs, m)[ring_add_spec(w, j, m)] == vs[j],
    decreases vs.len(),
{
    if vs.len() == 0 {
    } else {
        lemma_data_app_facts(d, w, vs.drop_last(), m);
        let n = vs.len() as int;
        lemma_ring_dist_of_add(w, n - 1, m);
        assert forall|j: int|
            0 <= j < n implies data_app(d, w, vs, m)[ring_add_spec(w, j, m)] == vs[j] by {
            lemma_ring_dist_of_add(w, j, m);
            if j < n - 1 {
                assert(ring_add_spec(w, j, m) != ring_add_spec(w, n - 1, m));
                assert(vs.drop_last()[j] == vs[j]);
            }
        }
        assert forall|k: u64| #[trigger]
            data_app(d, w, vs, m).dom().contains(k) implies d.dom().contains(k) || (exists|
            j: int,
        |
            0 <= j < n && k == ring_add_spec(w, j, m)) by {
            if k == ring_add_spec(w, n - 1, m) {
            } else {
                assert(data_app(d, w, vs.drop_last(), m).dom().contains(k));
                if !d.dom().contains(k) {
                    let j = choose|j: int|
                        0 <= j < n - 1 && k == ring_add_spec(w, j, m);
                    assert(0 <= j < n && k == ring_add_spec(w, j, m));
                }
            }
        }
        assert forall|k: u64|
            d.dom().contains(k) || (exists|j: int|
                0 <= j < n && k == ring_add_spec(w, j, m)) implies #[trigger] data_app(
            d,
            w,
            vs,
            m,
        ).dom().contains(k) by {
            if d.dom().contains(k) {
                assert(data_app(d, w, vs.drop_last(), m).dom().contains(k));
            } else {
                let j = choose|j: int| 0 <= j < n && k == ring_add_spec(w, j, m);
                if j < n - 1 {
                    assert(data_app(d, w, vs.drop_last(), m).dom().contains(k));
                }
            }
        }
    }
}

/// Reconciliation: how the queue state reacts to entries having silently
/// expired since the last operation.
pub open spec fn reconcile_spec(st: MpmcState, m: u64) -> MpmcState {
    if st.empty {
        st
    } else if !(exists|k: u64| st.data.dom().contains(k)) {
        MpmcState {
            data: st.data,
            start_index: st.write_index,
            write_index: st.write_index,
            write_timestamp: st.write_timestamp,
            readers: Map::new(
                |l: Seq<char>| st.readers.dom().contains(l),
                |l: Seq<char>|
                    reconcile_all_expired_reader(
                        st.write_index,
                        st.write_timestamp,
                        st.readers[l],
                    ),
            ),
            empty: true,
        }
    } else {
        let kstar = spec_min_live(st.data, st.start_index);
        if kstar == st.start_index {
            st
        } else {
            MpmcState {
                data: st.data,
                start_index: kstar,
                write_index: st.write_index,
                write_timestamp: st.write_timestamp,
                readers: Map::new(
                    |l: Seq<char>| st.readers.dom().contains(l),
                    |l: Seq<char>| adjust_reader_spec(kstar, st.write_index, st.readers[l]),
                ),
                empty: false,
            }
        }
    }
}

/// The cursor a label new to the queue starts from: the oldest live
/// entry, or one step before the write head (the newest live entry) when
/// any entry is live.
pub open spec fn fresh_reader(st: MpmcState, pos: StartPosition, m: u64) -> Reader {
    let index = match pos {
        StartPosition::Oldest => st.start_index,
        StartPosition::Newest => if st.empty {
            st.write_index
        } else {
            ring_prev_spec(st.write_index, m)
        },
    };
    Reader { index, end_timestamp: None, expired: false }
}

/// The reader a call works on: the stored one, or a fresh one for an
/// unknown label.
pub open spec fn initial_reader(st: MpmcState, label: Seq<char>, pos: StartPosition, m: u64) -> Reader {
    if st.readers.dom().contains(label) {
        st.readers[label]
    } else {
        fresh_reader(st, pos, m)
    }
}

/// Whether a reader has caught up with the writer: either its recorded
/// catch-up timestamp still matches the write timestamp, or it sits at
/// the write head of an empty queue.
pub open spec fn at_tail(st: MpmcState, rd: Reader) -> bool {
    match rd.end_timestamp {
        None => rd.index == st.write_index && st.empty,
        Some(ts) => ts == st.write_timestamp,
    }
}

/// How far the drain loop still has to walk before reaching the write
/// head.
pub open spec fn drain_measure(idx: u64, write: u64, end: bool, m: u64) -> int {
    if end {
        0
    } else if idx == write {
        m as int
    } else {
        ring_dist_spec(idx, write, m)
    }
}

/// The drain loop of a read: walk the cursor toward the write head,
/// collecting live payloads; a missing entry discards everything
/// collected so far and marks the reader expired, but the walk goes on.
/// Returns the items, the final cursor, the expired flag and whether the
/// cursor reached the write head.
pub open spec fn drain_spec(
    data: Map<u64, Seq<u8>>,
    write: u64,
    m: u64,
    max: int,
    items: Seq<Seq<u8>>,
    idx: u64,
    expired: bool,
    end: bool,
) -> (Seq<Seq<u8>>, u64, bool, bool)
    decreases drain_measure(idx, write, end, m),
    when idx < m && write < m && 1 <= m
{
    if end || items.len() >= max {
        (items, idx, expired, end)
    } else {
        let items2 = if data.dom().contains(idx) {
            items.push(data[idx])
        } else {
            Seq::empty()
        };
        let expired2 = if data.dom().contains(idx) {
            expired
        } else {
            true
        };
        let idx2 = ring_next_spec(idx, m);
        drain_spec(data, write, m, max, items2, idx2, expired2, idx2 == write)
    }
}

/// One whole read: reconcile, fetch or create the reader, drain, record
/// whether the tail was reached, and persist the reader.  Returns the new
/// state, the items handed out, and the expired flag reported to the
/// caller.
pub open spec fn next_spec(
    st: MpmcState,
    label: Seq<char>,
    pos: StartPosition,
    max: int,
    m: u64,
) -> (MpmcState, Seq<Seq<u8>>, bool) {
    let rec = reconcile_spec(st, m);
    let rd0 = initial_reader(rec, label, pos, m);
    let end0 = at_tail(rec, rd0);
    let (items, idx, exp, end) = drain_spec(
        rec.data,
        rec.write_index,
        m,
        max,
        Seq::empty(),
        rd0.index,
        rd0.expired,
        end0,
    );
    let rd1 = Reader {
        index: idx,
        end_timestamp: if end {
            Some(rec.write_timestamp)
        } else {
            None
        },
        expired: false,
    };
    let st2 = MpmcState {
        data: rec.data,
        start_index: rec.start_index,
        write_index: rec.write_index,
        write_timestamp: rec.write_timestamp,
        readers: rec.readers.insert(label, rd1),
        empty: rec.empty,
    };
    (st2, items, exp)
}

/// Whether two reader records hold the same cursor state.
fn reader_eq(a: &Reader, b: &Reader) -> (r: bool)
    ensures
        r == (*a == *b),
{
    a.index == b.index && a.expired == b.expired && (match (a.end_timestamp, b.end_timestamp) {
        (None, None) => true,
        (Some(x), Some(y)) => x == y,
        _ => false,
    })
}

/// A well-formed queue state: cursors on the ring, live keys confined to
/// the arc between start and write, and an empty queue agreeing with its
/// cursors.
pub open spec fn state_wf(st: MpmcState, m: u64) -> bool {
    &&& 1 <= m <= MAX_INDEX
    &&& st.start_index < m
    &&& st.write_index < m
    &&& (st.empty ==> st.start_index == st.write_index)
    &&& (st.empty ==> st.data.dom() =~= Set::<u64>::empty())
    &&& (forall|k: u64| #[trigger]
        st.data.dom().contains(k) ==> k < m && ring_dist_spec(st.start_index, k, m)
            < ring_len_spec(st.start_index, st.write_index, st.empty, m))
    &&& (forall|l: Seq<char>| #[trigger]
        st.readers.dom().contains(l) ==> st.readers[l].index < m)
}

/// A store that holds a well-formed multi-consumer queue for the ring
/// bound `m`.
pub open spec fn mpmc_store_wf(
    data: Map<u64, Seq<u8>>,
    system: Map<u64, Seq<u8>>,
    readers: Map<Seq<char>, Seq<u8>>,
    m: u64,
) -> bool {
    let s0 = cell_u64_or(system, START_INDEX_KEY, 0);
    let w = cell_u64_or(system, WRITE_INDEX_KEY, 0);
    let probe_empty = data.dom() =~= Set::<u64>::empty();
    let s = if probe_empty {
        w
    } else {
        s0
    };
    &&& 1 <= m <= MAX_INDEX
    &&& (system.dom().contains(START_INDEX_KEY) ==> system[START_INDEX_KEY].len()
        == U64_BYTE_LEN as int)
    &&& (system.dom().contains(WRITE_INDEX_KEY) ==> system[WRITE_INDEX_KEY].len()
        == U64_BYTE_LEN as int)
    &&& (system.dom().contains(WRITE_TIMESTAMP_KEY) ==> system[WRITE_TIMESTAMP_KEY].len()
        == U64_BYTE_LEN as int)
    &&& s0 < m
    &&& w < m
    &&& (forall|k: u64| #[trigger]
        data.dom().contains(k) ==> k < m && ring_dist_spec(s, k, m) < ring_len_spec(
            s,
            w,
            probe_empty,
            m,
        ))
    &&& (forall|l: Seq<char>| #[trigger]
        readers.dom().contains(l) ==> (spec_decode_reader(readers[l]) matches Some(rd)
            ==> rd.index < m))
}

/// The payloads at ring slots `a` (inclusive) to `b` (exclusive) past
/// `s`.
pub open spec fn arc_vals(data: Map<u64, Seq<u8>>, s: u64, a: int, b: int, m: u64) -> Seq<
    Seq<u8>,
> {
    Seq::new((b - a) as nat, |j: int| data[ring_add_spec(s, a + j, m)])
}

/// A finite nonempty set of keys with a member at or past `lo` has a
/// smallest member at or past `lo`.
pub proof fn lemma_finite_min(s: Set<u64>, lo: u64)
    requires
        s.finite(),
        exists|k: u64| s.contains(k) && k >= lo,
    ensures
        exists|k: u64|
            s.contains(k) && k >= lo && (forall|j: u64| s.contains(j) && j >= lo ==> k <= j),
    decreases s.len(),
{
    let x = choose|k: u64| s.contains(k) && k >= lo;
    let rest = s.remove(x);
    if exists|k: u64| rest.contains(k) && k >= lo {
        lemma_finite_min(rest, lo);
        let y = choose|k: u64|
            rest.contains(k) && k >= lo && (forall|j: u64| rest.contains(j) && j >= lo ==> k
                <= j);
        if y <= x {
            assert(s.contains(y) && y >= lo && (forall|j: u64|
                s.contains(j) && j >= lo ==> y <= j)) by {
                assert forall|j: u64| s.contains(j) && j >= lo implies y <= j by {
                    if j != x {
                        assert(rest.contains(j));
                    }
                }
            }
        } else {
            assert(s.contains(x) && x >= lo && (forall|j: u64|
                s.contains(j) && j >= lo ==> x <= j)) by {
                assert forall|j: u64| s.contains(j) && j >= lo implies x <= j by {
                    if j != x {
                        assert(rest.contains(j));
                        assert(y <= j);
                    }
                }
            }
        }
    } else {
        assert(s.contains(x) && x >= lo && (forall|j: u64| s.contains(j) && j >= lo ==> x
            <= j)) by {
            assert forall|j: u64| s.contains(j) && j >= lo implies x <= j by {
                if j != x {
                    assert(rest.contains(j));
                }
            }
        }
    }
}

/// A finite nonempty data map has a ring-minimal live key for any probe
/// point.
pub proof fn lemma_map_min_exists(d: Map<u64, Seq<u8>>, lo: u64)
    requires
        d.dom().finite(),
        exists|k: u64| d.dom().contains(k) && k >= lo,
    ensures
        exists|k: u64| is_min_at_or_after(d, lo, k),
{
    lemma_finite_min(d.dom(), lo);
    let wmin = choose|k: u64|
        d.dom().contains(k) && k >= lo && (forall|j: u64|
            d.dom().contains(j) && j >= lo ==> k <= j);
    assert(is_min_at_or_after(d, lo, wmin));
}

/// Reconciliation keeps the state well formed, and its start cursor is a
/// live key whenever one exists.
pub proof fn lemma_reconcile_wf(st: MpmcState, m: u64)
    requires
        state_wf(st, m),
        st.data.dom().finite(),
    ensures
        state_wf(reconcile_spec(st, m), m),
{
    let rec = reconcile_spec(st, m);
    if st.empty {
    } else if !(exists|k: u64| st.data.dom().contains(k)) {
        assert(rec.data.dom() =~= Set::<u64>::empty());
        assert forall|l: Seq<char>|
            rec.readers.dom().contains(l) implies rec.readers[l].index < m by {
            assert(st.readers.dom().contains(l));
        }
    } else {
        let s0 = st.start_index;
        let w = st.write_index;
        let len0 = ring_len_spec(s0, w, false, m);
        let kstar = spec_min_live(st.data, s0);
        if exists|k: u64| st.data.dom().contains(k) && k >= s0 {
            lemma_map_min_exists(st.data, s0);
            assert(is_min_at_or_after(st.data, s0, kstar));
        } else {
            let wit = choose|k: u64| st.data.dom().contains(k);
            assert(st.data.dom().contains(wit) && wit >= 0);
            lemma_map_min_exists(st.data, 0);
            assert(is_min_at_or_after(st.data, 0, kstar));
        }
        assert(st.data.dom().contains(kstar));
        assert(kstar < m);
        if kstar == s0 {
        } else {
            let dk = ring_dist_spec(s0, kstar, m);
            lemma_ring_add_of_dist(s0, kstar, m);
            assert(dk < len0);
            assert(dk > 0);
            let lenf = ring_len_spec(kstar, w, false, m);
            lemma_ring_write_head(s0, w, false, m);
            assert(lenf == len0 - dk) by {
                if len0 < m {
                    lemma_ring_dist_shift(s0, dk, len0, m);
                    assert(ring_dist_spec(kstar, w, m) == len0 - dk);
                    assert(w != kstar);
                } else {
                    assert(w == s0);
                    assert(ring_dist_spec(kstar, s0, m) == len0 - dk);
                }
            }
            assert forall|k: u64| rec.data.dom().contains(k) implies k < m && ring_dist_spec(
                kstar,
                k,
                m,
            ) < lenf by {
                assert(st.data.dom().contains(k));
                let d = ring_dist_spec(s0, k, m);
                lemma_ring_add_of_dist(s0, k, m);
                assert(d < len0);
                assert(dk <= d) by {
                    if k >= s0 {
                        assert(kstar <= k);
                    } else {
                        if exists|kk: u64| st.data.dom().contains(kk) && kk >= s0 {
                            assert(kstar >= s0);
                        } else {
                            assert(kstar <= k);
                        }
                    }
                }
                lemma_ring_dist_shift(s0, dk, d, m);
            }
            assert forall|l: Seq<char>|
                rec.readers.dom().contains(l) implies rec.readers[l].index < m by {
                assert(st.readers.dom().contains(l));
            }
        }
    }
}

/// The strings `ls` name exactly the labels of `readers`.
pub open spec fn labels_of(ls: Seq<String>, readers: Map<Seq<char>, Reader>) -> bool {
    forall|l: Seq<char>|
        (exists|i: int| 0 <= i < ls.len() && ls[i]@ == l) <==> readers.dom().contains(l)
}

/// A store with no records holds a valid, empty queue for any ring bound.
pub proof fn lemma_empty_mpmc_store_wf(m: u64)
    requires
        1 <= m <= MAX_INDEX,
    ensures
        mpmc_store_wf(
            Map::<u64, Seq<u8>>::empty(),
            Map::<u64, Seq<u8>>::empty(),
            Map::<Seq<char>, Seq<u8>>::empty(),
            m,
        ),
{
    assert(Map::<u64, Seq<u8>>::empty().dom() =~= Set::<u64>::empty());
}

/// Position of the pair under `label`, if the association vector has one.
fn find_label<V>(v: &Vec<(String, V)>, label: &String) -> (r: Option<usize>)
    ensures
        match r {
            Some(i) => i < v@.len() && v@[i as int].0@ == label@,
            None => forall|j: int| 0 <= j < v@.len() ==> v@[j].0@ != label@,
        },
{
    let n = v.len();
    let mut i: usize = 0;
    while i < n
        invariant
            i <= n,
            n == v@.len(),
            forall|j: int| 0 <= j < i ==> v@[j].0@ != label@,
        decreases n - i,
    {
        if v[i].0 == *label {
            return Some(i);
        }
        i += 1;
    }
    None
}

/// Writes `value` under `label`, replacing any previous pair.
fn put_label<V: View>(v: &mut Vec<(String, V)>, label: &String, value: V)
    requires
        assoc_distinct_keys(old(v)@),
    ensures
        assoc_distinct_keys(final(v)@),
        assoc_map_of(final(v)@) == assoc_map_of(old(v)@).insert(label@, value@),
{
    let key = label.clone();
    match find_label(v, label) {
        Some(i) => {
            proof {
                lemma_assoc_update(v@, i as int, (key, value));
            }
            v.set(i, (key, value));
        },
        None => {
            proof {
                lemma_assoc_push(v@, (key, value));
            }
            v.push((key, value));
        },
    }
}

/// Deletes the pair under `label`; reports whether one existed.
fn remove_label_entry<V: View>(v: &mut Vec<(String, V)>, label: &String) -> (r: bool)
    requires
        assoc_distinct_keys(old(v)@),
    ensures
        assoc_distinct_keys(final(v)@),
        r == assoc_map_of(old(v)@).dom().contains(label@),
        assoc_map_of(final(v)@) == assoc_map_of(old(v)@).remove(label@),
{
    match find_label(v, label) {
        Some(i) => {
            proof {
                lemma_assoc_index(v@, i as int);
                lemma_assoc_remove(v@, i as int);
            }
            let _ = v.remove(i);
            true
        },
        None => {
            proof {
                lemma_assoc_dom(v@);
                assert(assoc_map_of(v@).remove(label@) =~= assoc_map_of(v@));
            }
            false
        },
    }
}

/// The reader stored under `label`, if the queue knows the label.
fn get_label_reader(v: &Vec<(String, Reader)>, label: &String) -> (r: Option<Reader>)
    requires
        assoc_distinct_keys(v@),
    ensures
        match r {
            Some(rd) => assoc_map_of(v@).dom().contains(label@) && assoc_map_of(v@)[label@]
                == rd,
            None => !assoc_map_of(v@).dom().contains(label@),
        },
{
    match find_label(v, label) {
        Some(i) => {
            proof {
                lemma_assoc_index(v@, i as int);
            }
            Some(v[i].1)
        },
        None => {
            proof {
                lemma_assoc_dom(v@);
            }
            None
        },
    }
}

/// A durable queue of opaque byte payloads in which entries age out by
/// time-to-live and independently labelled readers keep their own
/// cursors; reads do not remove entries.
pub struct MpmcQueue {
    store: MpmcStore,
    empty: bool,
    start_index: u64,
    write_index: u64,
    write_timestamp: u64,
    read_indices: Vec<(String, Reader)>,
    max_index: u64,
}

impl MpmcQueue {
    pub closed spec fn spec_data(self) -> Map<u64, Seq<u8>> {
        self.store.spec_data()
    }

    pub closed spec fn spec_start_index(self) -> u64 {
        self.start_index
    }

    pub closed spec fn spec_write_index(self) -> u64 {
        self.write_index
    }

    pub closed spec fn spec_write_timestamp(self) -> u64 {
        self.write_timestamp
    }

    pub closed spec fn spec_empty(self) -> bool {
        self.empty
    }

    pub closed spec fn spec_max_index(self) -> u64 {
        self.max_index
    }

    pub closed spec fn spec_readers(self) -> Map<Seq<char>, Reader> {
        assoc_map_of(self.read_indices@)
    }

    /// The whole abstract state at once.
    pub open spec fn spec_state(self) -> MpmcState {
        MpmcState {
            data: self.spec_data(),
            start_index: self.spec_start_index(),
            write_index: self.spec_write_index(),
            write_timestamp: self.spec_write_timestamp(),
            readers: self.spec_readers(),
            empty: self.spec_empty(),
        }
    }

    pub open spec fn spec_len(self) -> int {
        ring_len_spec(
            self.spec_start_index(),
            self.spec_write_index(),
            self.spec_empty(),
            self.spec_max_index(),
        )
    }

    /// The in-memory cursors mirror the system cells, each in-memory
    /// reader is the decoding of its persisted record, and the state is
    /// well formed.
    pub closed spec fn inv(self) -> bool {
        &&& self.store.inv()
        &&& assoc_distinct_keys(self.read_indices@)
        &&& state_wf(self.spec_state(), self.max_index)
        &&& self.start_index == cell_u64_or(self.store.spec_system(), START_INDEX_KEY, 0)
        &&& self.write_index == cell_u64_or(self.store.spec_system(), WRITE_INDEX_KEY, 0)
        &&& (self.store.spec_system().dom().contains(START_INDEX_KEY)
            ==> self.store.spec_system()[START_INDEX_KEY].len() == U64_BYTE_LEN as int)
        &&& (self.store.spec_system().dom().contains(WRITE_INDEX_KEY)
            ==> self.store.spec_system()[WRITE_INDEX_KEY].len() == U64_BYTE_LEN as int)
        &&& (self.store.spec_system().dom().contains(WRITE_TIMESTAMP_KEY)
            ==> self.store.spec_system()[WRITE_TIMESTAMP_KEY].len() == U64_BYTE_LEN as int
                && spec_u64_from_le_bytes(self.store.spec_system()[WRITE_TIMESTAMP_KEY])
                == self.write_timestamp)
        &&& (forall|l: Seq<char>|
            self.spec_readers().dom().contains(l) <==> self.store.spec_readers().dom().contains(
                l,
            ))
        &&& (forall|l: Seq<char>|
            self.spec_readers().dom().contains(l) ==> spec_decode_reader(
                self.store.spec_readers()[l],
            ) == Some(self.spec_readers()[l]))
    }

    /// Opens a queue over `store` on the full index ring.
    pub fn new(store: MpmcStore) -> (r: Result<Self, QueueError>)
        requires
            store.inv(),
            mpmc_store_wf(
                store.spec_data(),
                store.spec_system(),
                store.spec_readers(),
                MAX_INDEX,
            ),
        ensures
            (exists|l: Seq<char>|
                store.spec_readers().dom().contains(l) && spec_decode_reader(
                    store.spec_readers()[l],
                ) is None) <==> r is Err,
            r matches Err(e) ==> e == QueueError::Decode,
            r matches Ok(q) ==> Self::opened_from(q, store, MAX_INDEX),
    {
        Self::new_with_ring(store, MAX_INDEX)
    }

    /// What an opened queue recovers from its store.
    pub open spec fn opened_from(q: Self, store: MpmcStore, m: u64) -> bool {
        &&& q.inv()
        &&& q.spec_max_index() == m
        &&& q.spec_data() == store.spec_data()
        &&& q.spec_write_index() == cell_u64_or(store.spec_system(), WRITE_INDEX_KEY, 0)
        &&& q.spec_empty() == (store.spec_data().dom() =~= Set::<u64>::empty())
        &&& q.spec_start_index() == (if q.spec_empty() {
            q.spec_write_index()
        } else {
            cell_u64_or(store.spec_system(), START_INDEX_KEY, 0)
        })
        &&& (store.spec_system().dom().contains(WRITE_TIMESTAMP_KEY)
            ==> q.spec_write_timestamp() == spec_u64_from_le_bytes(
                store.spec_system()[WRITE_TIMESTAMP_KEY],
            ))
        &&& (forall|l: Seq<char>|
            q.spec_readers().dom().contains(l) <==> store.spec_readers().dom().contains(l))
        &&& (forall|l: Seq<char>|
            q.spec_readers().dom().contains(l) ==> spec_decode_reader(store.spec_readers()[l])
                == Some(q.spec_readers()[l]))
    }

    /// Opens a queue over `store` on the ring `[0, max_index)`; small
    /// bounds let tests exercise wrap-around.
    pub fn new_with_ring(store: MpmcStore, max_index: u64) -> (r: Result<Self, QueueError>)
        requires
            store.inv(),
            mpmc_store_wf(
                store.spec_data(),
                store.spec_system(),
                store.spec_readers(),
                max_index,
            ),
        ensures
            (exists|l: Seq<char>|
                store.spec_readers().dom().contains(l) && spec_decode_reader(
                    store.spec_readers()[l],
                ) is None) <==> r is Err,
            r matches Err(e) ==> e == QueueError::Decode,
            r matches Ok(q) ==> Self::opened_from(q, store, max_index),
    {
        let ghost store0 = store;
        let MpmcStore { data, mut system, readers } = store;
        proof {
            assert(store0.spec_readers() == assoc_map_of(readers@));
            assert(store0.spec_data() == data@);
            assert(store0.spec_system() == system@);
        }
        let mut start_index = read_cell(&system, START_INDEX_KEY);
        let write_index = read_cell(&system, WRITE_INDEX_KEY);
        let write_timestamp = match system.get(WRITE_TIMESTAMP_KEY) {
            Some(v) => u64_from_byte_vec(v.as_slice()),
            None => current_timestamp(),
        };
        let empty = data.is_empty();
        if empty && start_index != write_index {
            // the cells were written before the last entries aged out;
            // fold the start cursor onto the write head, as the first
            // reconciliation of a running queue would
            start_index = write_index;
            let sbytes = index_to_key(start_index);
            system.put(START_INDEX_KEY, sbytes);
            proof {
                lemma_key_round_trip();
            }
        }
        let mut read_indices: Vec<(String, Reader)> = Vec::new();
        let mut i: usize = 0;
        while i < readers.len()
            invariant
                i <= readers@.len(),
                assoc_distinct_keys(readers@),
                store0 == store,
                store0.spec_readers() == assoc_map_of(readers@),
                read_indices@.len() == i,
                forall|j: int| 0 <= j < i ==> read_indices@[j].0@ == readers@[j].0@,
                forall|j: int|
                    0 <= j < i ==> spec_decode_reader(readers@[j].1@) == Some(
                        read_indices@[j].1,
                    ),
            decreases readers@.len() - i,
        {
            let bytes_ref = &readers[i].1;
            match decode_reader(bytes_ref) {
                Ok(rd) => {
                    let key = readers[i].0.clone();
                    read_indices.push((key, rd));
                },
                Err(e) => {
                    proof {
                        lemma_assoc_index(readers@, i as int);
                        let l = readers@[i as int].0@;
                        assert(store0.spec_readers().dom().contains(l) && spec_decode_reader(
                            store0.spec_readers()[l],
                        ) is None);
                    }
                    return Err(e);
                },
            }
            i += 1;
        }
        let q = MpmcQueue {
            store: MpmcStore { data, system, readers },
            empty,
            start_index,
            write_index,
            write_timestamp,
            read_indices,
            max_index,
        };
        proof {
            assert(assoc_distinct_keys(q.read_indices@)) by {
                assert forall|x: int, y: int|
                    0 <= x < y < q.read_indices@.len() implies q.read_indices@[x].0@
                    != q.read_indices@[y].0@ by {
                    assert(readers@[x].0@ != readers@[y].0@);
                }
            }
            lemma_assoc_dom(q.read_indices@);
            lemma_assoc_dom(readers@);
            assert forall|l: Seq<char>|
                q.spec_readers().dom().contains(l) implies q.store.spec_readers().dom().contains(
                l,
            ) && spec_decode_reader(q.store.spec_readers()[l]) == Some(q.spec_readers()[l]) by {
                let j = choose|j: int| 0 <= j < q.read_indices@.len() && q.read_indices@[j].0@ == l;
                lemma_assoc_index(q.read_indices@, j);
                lemma_assoc_index(readers@, j);
            }
            assert forall|l: Seq<char>|
                q.store.spec_readers().dom().contains(l) implies q.spec_readers().dom().contains(
                l,
            ) by {
                let j = choose|j: int| 0 <= j < readers@.len() && readers@[j].0@ == l;
                assert(q.read_indices@[j].0@ == l);
            }
            assert forall|l: Seq<char>|
                q.spec_readers().dom().contains(l) implies q.spec_readers()[l].index
                < max_index by {
                let j = choose|j: int| 0 <= j < q.read_indices@.len() && q.read_indices@[j].0@ == l;
                lemma_assoc_index(q.read_indices@, j);
                lemma_assoc_index(readers@, j);
            }
            assert(q.inv());
            assert forall|l: Seq<char>|
                store0.spec_readers().dom().contains(l) implies !(spec_decode_reader(
                store0.spec_readers()[l],
            ) is None) by {
                let j = choose|j: int| 0 <= j < readers@.len() && readers@[j].0@ == l;
                lemma_assoc_index(readers@, j);
            }
        }
        Ok(q)
    }

    /// Closes the queue and hands its store back for a later reopen.
    pub fn close(self) -> (s: MpmcStore)
        requires
            self.inv(),
        ensures
            s.inv(),
            mpmc_store_wf(s.spec_data(), s.spec_system(), s.spec_readers(), self.spec_max_index()),
            s.spec_data() == self.spec_data(),
            cell_u64_or(s.spec_system(), START_INDEX_KEY, 0) == self.spec_start_index(),
            cell_u64_or(s.spec_system(), WRITE_INDEX_KEY, 0) == self.spec_write_index(),
            s.spec_system().dom().contains(WRITE_TIMESTAMP_KEY) ==> spec_u64_from_le_bytes(
                s.spec_system()[WRITE_TIMESTAMP_KEY],
            ) == self.spec_write_timestamp(),
            forall|l: Seq<char>|
                s.spec_readers().dom().contains(l) <==> self.spec_readers().dom().contains(l),
            forall|l: Seq<char>|
                s.spec_readers().dom().contains(l) ==> spec_decode_reader(s.spec_readers()[l])
                    == Some(self.spec_readers()[l]),
    {
        proof {
            if !(self.spec_data().dom() =~= Set::<u64>::empty()) {
                assert(!self.empty);
            }
            assert forall|l: Seq<char>|
                self.store.spec_readers().dom().contains(l) implies spec_decode_reader(
                self.store.spec_readers()[l],
            ) == Some(self.spec_readers()[l]) && self.spec_readers()[l].index
                < self.max_index by {
                assert(self.spec_readers().dom().contains(l));
            }
            assert forall|k: u64| self.spec_data().dom().contains(k) implies k < self.max_index
                && ring_dist_spec(self.start_index, k, self.max_index) < self.spec_len() by {
            }
        }
        self.store
    }

    /// Number of live slots between the start and write cursors.
    pub fn len(&self) -> (r: u64)
        requires
            self.inv(),
        ensures
            r as int == self.spec_len(),
    {
        ring_len(self.start_index, self.write_index, self.empty, self.max_index)
    }

    /// Whether the queue believes it holds no entry.
    pub fn is_empty(&self) -> (r: bool)
        requires
            self.inv(),
        ensures
            r == self.spec_empty(),
            r == (self.spec_len() == 0),
    {
        self.empty
    }

    /// The oldest live index the queue believes.
    pub fn start_index(&self) -> (r: u64)
        requires
            self.inv(),
        ensures
            r == self.spec_start_index(),
    {
        self.start_index
    }

    /// The next index to be written.
    pub fn write_index(&self) -> (r: u64)
        requires
            self.inv(),
        ensures
            r == self.spec_write_index(),
    {
        self.write_index
    }

    /// The timestamp of the last add.
    pub fn write_timestamp(&self) -> (r: u64)
        requires
            self.inv(),
        ensures
            r == self.spec_write_timestamp(),
    {
        self.write_timestamp
    }

    /// The cursor record of `label`, if the queue knows the label.
    pub fn reader_for(&self, label: &str) -> (r: Option<Reader>)
        requires
            self.inv(),
        ensures
            match r {
                Some(rd) => self.spec_readers().dom().contains(label@)
                    && self.spec_readers()[label@] == rd,
                None => !self.spec_readers().dom().contains(label@),
            },
    {
        let key = label.to_owned();
        get_label_reader(&self.read_indices, &key)
    }

    /// All known consumer labels, in no particular order.
    pub fn get_labels(&self) -> (r: Vec<String>)
        requires
            self.inv(),
        ensures
            labels_of(r@, self.spec_readers()),
            forall|i: int, j: int| 0 <= i < j < r@.len() ==> r@[i]@ != r@[j]@,
    {
        let mut out: Vec<String> = Vec::new();
        let mut i: usize = 0;
        while i < self.read_indices.len()
            invariant
                i <= self.read_indices@.len(),
                out@.len() == i,
                forall|j: int| 0 <= j < i ==> out@[j]@ == self.read_indices@[j].0@,
            decreases self.read_indices@.len() - i,
        {
            out.push(self.read_indices[i].0.clone());
            i += 1;
        }
        proof {
            lemma_assoc_dom(self.read_indices@);
            assert forall|l: Seq<char>|
                self.spec_readers().dom().contains(l) implies (exists|i: int|
                0 <= i < out@.len() && out@[i]@ == l) by {
                let j = choose|j: int|
                    0 <= j < self.read_indices@.len() && self.read_indices@[j].0@ == l;
                assert(out@[j]@ == l);
            }
        }
        out
    }

    /// Forgets the cursor of `label`, in memory and in the store; reports
    /// whether the label existed.  A later read under the label starts as
    /// a new consumer.
    pub fn remove_label(&mut self, label: &str) -> (r: Result<bool, QueueError>)
        requires
            old(self).inv(),
        ensures
            final(self).inv(),
            r matches Ok(b) && b == old(self).spec_readers().dom().contains(label@),
            final(self).spec_readers() == old(self).spec_readers().remove(label@),
            final(self).spec_data() == old(self).spec_data(),
            final(self).spec_start_index() == old(self).spec_start_index(),
            final(self).spec_write_index() == old(self).spec_write_index(),
            final(self).spec_write_timestamp() == old(self).spec_write_timestamp(),
            final(self).spec_empty() == old(self).spec_empty(),
            final(self).spec_max_index() == old(self).spec_max_index(),
    {
        let key = label.to_owned();
        let existed = remove_label_entry(&mut self.read_indices, &key);
        let _ = remove_label_entry(&mut self.store.readers, &key);
        proof {
            let st0 = old(self).spec_state();
            assert(state_wf(st0, old(self).max_index));
            if self.empty {
                assert(st0.data.dom() =~= Set::<u64>::empty());
                assert(self.spec_data().dom() =~= Set::<u64>::empty());
            }
            assert forall|k: u64| self.spec_data().dom().contains(k) implies k
                < self.max_index && ring_dist_spec(self.start_index, k, self.max_index)
                < self.spec_len() by {
                assert(st0.data.dom().contains(k));
                assert(ring_dist_spec(st0.start_index, k, old(self).max_index) < ring_len_spec(
                    st0.start_index,
                    st0.write_index,
                    st0.empty,
                    old(self).max_index,
                ));
            }
            assert forall|l: Seq<char>|
                self.spec_readers().dom().contains(l) implies self.store.spec_readers(
            ).dom().contains(l) && spec_decode_reader(self.store.spec_readers()[l]) == Some(
                self.spec_readers()[l],
            ) && self.spec_readers()[l].index < self.max_index by {
                assert(old(self).spec_readers().dom().contains(l));
                assert(old(self).store.spec_readers().dom().contains(l));
            }
            assert forall|l: Seq<char>|
                self.store.spec_readers().dom().contains(l) implies self.spec_readers(
            ).dom().contains(l) by {
                assert(old(self).store.spec_readers().dom().contains(l));
            }
        }
        Ok(existed)
    }

    /// Rewrites every reader through the reconciliation rule, in memory
    /// and in the store, leaving all other components untouched.
    fn rewrite_readers(&mut self, all_expired: bool, new_start: u64)
        requires
            old(self).inv(),
            new_start < old(self).spec_max_index(),
        ensures
            final(self).inv(),
            final(self).spec_readers() == Map::new(
                |l: Seq<char>| old(self).spec_readers().dom().contains(l),
                |l: Seq<char>|
                    reconcile_reader(
                        all_expired,
                        new_start,
                        old(self).spec_write_index(),
                        old(self).spec_write_timestamp(),
                        old(self).spec_readers()[l],
                    ),
            ),
            final(self).spec_data() == old(self).spec_data(),
            final(self).store.spec_system() == old(self).store.spec_system(),
            final(self).spec_start_index() == old(self).spec_start_index(),
            final(self).spec_write_index() == old(self).spec_write_index(),
            final(self).spec_write_timestamp() == old(self).spec_write_timestamp(),
            final(self).spec_empty() == old(self).spec_empty(),
            final(self).spec_max_index() == old(self).spec_max_index(),
    {
        let ghost q0 = *self;
        let w = self.write_index;
        let wts = self.write_timestamp;
        let n = self.read_indices.len();
        proof {
            assert forall|j: int| 0 <= j < n implies assoc_map_of(
                self.store.readers@,
            ).dom().contains(self.read_indices@[j].0@) && spec_decode_reader(
                assoc_map_of(self.store.readers@)[self.read_indices@[j].0@],
            ) == Some(self.read_indices@[j].1) by {
                lemma_assoc_index(self.read_indices@, j);
            }
        }
        let mut i: usize = 0;
        while i < n
            invariant
                i <= n,
                q0.inv(),
                n == self.read_indices@.len(),
                n == q0.read_indices@.len(),
                new_start < q0.max_index,
                w == q0.write_index,
                wts == q0.write_timestamp,
                self.store.data == q0.store.data,
                self.store.system == q0.store.system,
                self.empty == q0.empty,
                self.start_index == q0.start_index,
                self.write_index == q0.write_index,
                self.write_timestamp == q0.write_timestamp,
                self.max_index == q0.max_index,
                forall|j: int|
                    0 <= j < n ==> self.read_indices@[j].0@ == q0.read_indices@[j].0@,
                forall|j: int|
                    0 <= j < i ==> self.read_indices@[j].1 == reconcile_reader(
                        all_expired,
                        new_start,
                        w,
                        wts,
                        q0.read_indices@[j].1,
                    ),
                forall|j: int| i <= j < n ==> self.read_indices@[j].1 == q0.read_indices@[j].1,
                assoc_distinct_keys(self.read_indices@),
                assoc_distinct_keys(self.store.readers@),
                forall|l: Seq<char>| #[trigger]
                    assoc_map_of(self.store.readers@).dom().contains(l) <==> assoc_map_of(
                        q0.store.readers@,
                    ).dom().contains(l),
                forall|j: int|
                    0 <= j < n ==> assoc_map_of(self.store.readers@).dom().contains(
                        self.read_indices@[j].0@,
                    ),
                forall|j: int|
                    0 <= j < n ==> spec_decode_reader(
                        assoc_map_of(self.store.readers@)[self.read_indices@[j].0@],
                    ) == Some(self.read_indices@[j].1),
            decreases n - i,
        {
            let rd = self.read_indices[i].1;
            let new_rd = reconcile_reader_exec(
                all_expired,
                new_start,
                self.write_index,
                self.write_timestamp,
                rd,
            );
            let key = self.read_indices[i].0.clone();
            let key_for_store = key.clone();
            let bytes = encode_reader(&new_rd);
            proof {
                lemma_reader_round_trip(new_rd);
            }
            put_label(&mut self.store.readers, &key_for_store, bytes);
            proof {
                lemma_assoc_update(self.read_indices@, i as int, (key, new_rd));
            }
            self.read_indices.set(i, (key, new_rd));
            i += 1;
        }
        proof {
            lemma_assoc_dom(q0.read_indices@);
            lemma_assoc_dom(self.read_indices@);
            let target = Map::new(
                |l: Seq<char>| q0.spec_readers().dom().contains(l),
                |l: Seq<char>|
                    reconcile_reader(all_expired, new_start, w, wts, q0.spec_readers()[l]),
            );
            assert forall|l: Seq<char>|
                self.spec_readers().dom().contains(l) implies target.dom().contains(l)
                && self.spec_readers()[l] == target[l] by {
                let j = choose|j: int|
                    0 <= j < self.read_indices@.len() && self.read_indices@[j].0@ == l;
                assert(q0.read_indices@[j].0@ == l);
                lemma_assoc_index(self.read_indices@, j);
                lemma_assoc_index(q0.read_indices@, j);
            }
            assert forall|l: Seq<char>|
                target.dom().contains(l) implies self.spec_readers().dom().contains(l) by {
                let j = choose|j: int|
                    0 <= j < q0.read_indices@.len() && q0.read_indices@[j].0@ == l;
                assert(self.read_indices@[j].0@ == l);
            }
            assert(self.spec_readers() =~= target);
            // the queue invariant survives the rewrite
            let st0 = q0.spec_state();
            assert(state_wf(st0, q0.max_index));
            if self.empty {
                assert(self.spec_data().dom() =~= Set::<u64>::empty());
            }
            assert forall|k: u64| self.spec_data().dom().contains(k) implies k < self.max_index
                && ring_dist_spec(self.start_index, k, self.max_index) < self.spec_len() by {
                assert(st0.data.dom().contains(k));
                assert(ring_dist_spec(st0.start_index, k, q0.max_index) < ring_len_spec(
                    st0.start_index,
                    st0.write_index,
                    st0.empty,
                    q0.max_index,
                ));
            }
            assert forall|l: Seq<char>|
                self.spec_readers().dom().contains(l) implies self.spec_readers()[l].index
                < self.max_index by {
                assert(target.dom().contains(l));
                assert(st0.readers.dom().contains(l));
            }
            assert forall|l: Seq<char>|
                self.spec_readers().dom().contains(l) implies self.store.spec_readers(
            ).dom().contains(l) && spec_decode_reader(self.store.spec_readers()[l]) == Some(
                self.spec_readers()[l],
            ) by {
                let j = choose|j: int|
                    0 <= j < self.read_indices@.len() && self.read_indices@[j].0@ == l;
                lemma_assoc_index(self.read_indices@, j);
            }
            assert forall|l: Seq<char>|
                self.store.spec_readers().dom().contains(l) implies self.spec_readers(
            ).dom().contains(l) by {
                assert(assoc_map_of(q0.store.readers@).dom().contains(l));
                assert(q0.spec_readers().dom().contains(l));
            }
            assert(self.inv());
        }
    }

    /// Reconciles the in-memory cursors with the entries that are still
    /// live: pulls the start index and every reader forward over expired
    /// entries, and persists what moved.  Performed at the beginning of
    /// every add and every read.
    fn actualize_indices(&mut self) -> (r: Result<(), QueueError>)
        requires
            old(self).inv(),
        ensures
            final(self).inv(),
            r is Ok,
            final(self).spec_state() == reconcile_spec(
                old(self).spec_state(),
                old(self).spec_max_index(),
            ),
            final(self).spec_max_index() == old(self).spec_max_index(),
    {
        let ghost st0 = old(self).spec_state();
        let ghost m = self.max_index;
        if self.empty {
            return Ok(());
        }
        let first = self.store.data.min_key_at_or_after(self.start_index);
        let kstar_opt = match first {
            Some(k) => Some(k),
            None => self.store.data.min_key(),
        };
        match kstar_opt {
            None => {
                // every entry expired: all cursors fold onto the write head
                proof {
                    assert(!(exists|k: u64| st0.data.dom().contains(k)));
                }
                let w = self.write_index;
                self.rewrite_readers(true, w);
                let sbytes = index_to_key(w);
                self.store.system.put(START_INDEX_KEY, sbytes);
                self.start_index = w;
                self.empty = true;
                proof {
                    lemma_key_round_trip();
                    self.lemma_reestablish_after_reconcile(st0, m, true, w);
                }
                Ok(())
            },
            Some(kstar) => {
                if kstar == self.start_index {
                    // nothing expired
                    proof {
                        assert(is_min_at_or_after(st0.data, st0.start_index, kstar));
                        assert(spec_min_live(st0.data, st0.start_index) == kstar);
                    }
                    return Ok(());
                }
                proof {
                    assert(is_min_at_or_after(st0.data, st0.start_index, kstar) || (
                    is_min_at_or_after(st0.data, 0, kstar) && forall|j: u64|
                        st0.data.dom().contains(j) ==> j < st0.start_index));
                }
                self.rewrite_readers(false, kstar);
                let sbytes = index_to_key(kstar);
                self.store.system.put(START_INDEX_KEY, sbytes);
                self.start_index = kstar;
                proof {
                    lemma_key_round_trip();
                    self.lemma_reestablish_after_reconcile(st0, m, false, kstar);
                }
                Ok(())
            },
        }
    }

    /// After a reconciliation pass has rewritten the readers and the start
    /// cursor, the invariant holds again and the state is exactly what the
    /// reconciliation rule prescribes.
    proof fn lemma_reestablish_after_reconcile(
        self,
        st0: MpmcState,
        m: u64,
        all_expired: bool,
        kstar: u64,
    )
        requires
            state_wf(st0, m),
            !st0.empty,
            self.max_index == m,
            self.spec_data() == st0.data,
            self.spec_write_index() == st0.write_index,
            self.spec_write_timestamp() == st0.write_timestamp,
            self.spec_readers() == Map::new(
                |l: Seq<char>| st0.readers.dom().contains(l),
                |l: Seq<char>|
                    reconcile_reader(
                        all_expired,
                        kstar,
                        st0.write_index,
                        st0.write_timestamp,
                        st0.readers[l],
                    ),
            ),
            all_expired ==> {
                &&& !(exists|k: u64| st0.data.dom().contains(k))
                &&& self.spec_start_index() == st0.write_index
                &&& self.spec_empty()
                &&& kstar == st0.write_index
            },
            !all_expired ==> {
                &&& (is_min_at_or_after(st0.data, st0.start_index, kstar) || (
                is_min_at_or_after(st0.data, 0, kstar) && forall|j: u64|
                    st0.data.dom().contains(j) ==> j < st0.start_index))
                &&& kstar != st0.start_index
                &&& self.spec_start_index() == kstar
                &&& !self.spec_empty()
            },
        ensures
            self.spec_state() == reconcile_spec(st0, m),
            state_wf(self.spec_state(), m),
    {
        if all_expired {
            assert(self.spec_readers() =~= reconcile_spec(st0, m).readers);
            assert(self.spec_state() == reconcile_spec(st0, m));
            assert(self.spec_data().dom() =~= Set::<u64>::empty());
        } else {
            let s0 = st0.start_index;
            let w = st0.write_index;
            let len0 = ring_len_spec(s0, w, false, m);
            assert(exists|k: u64| st0.data.dom().contains(k));
            // the exec scan found the ring-minimal live key
            if exists|k: u64| st0.data.dom().contains(k) && k >= s0 {
                assert(is_min_at_or_after(st0.data, s0, kstar)) by {
                    if !(is_min_at_or_after(st0.data, s0, kstar)) {
                        let wit = choose|k: u64| st0.data.dom().contains(k) && k >= s0;
                        assert(st0.data.dom().contains(wit) && wit >= s0);
                        assert(wit < s0);
                    }
                }
                let y = choose|k: u64| is_min_at_or_after(st0.data, s0, k);
                assert(is_min_at_or_after(st0.data, s0, kstar));
                assert(y == kstar);
            } else {
                assert(is_min_at_or_after(st0.data, 0, kstar));
                let y = choose|k: u64| is_min_at_or_after(st0.data, 0, k);
                assert(y == kstar);
            }
            assert(spec_min_live(st0.data, s0) == kstar);
            assert(self.spec_readers() =~= reconcile_spec(st0, m).readers);
            assert(self.spec_state() == reconcile_spec(st0, m));
            // every live key stays on the shortened arc
            assert(st0.data.dom().contains(kstar));
            let dk = ring_dist_spec(s0, kstar, m);
            lemma_ring_add_of_dist(s0, kstar, m);
            assert(dk < len0);
            assert(dk > 0);
            let lenf = ring_len_spec(kstar, w, false, m);
            lemma_ring_write_head(s0, w, false, m);
            assert(lenf == len0 - dk) by {
                if len0 < m {
                    lemma_ring_dist_shift(s0, dk, len0, m);
                    assert(ring_dist_spec(kstar, w, m) == len0 - dk);
                    assert(w != kstar);
                } else {
                    assert(w == s0);
                    assert(ring_dist_spec(kstar, s0, m) == len0 - dk);
                }
            }
            assert forall|k: u64| self.spec_data().dom().contains(k) implies k < m
                && ring_dist_spec(kstar, k, m) < lenf by {
                assert(st0.data.dom().contains(k));
                let d = ring_dist_spec(s0, k, m);
                lemma_ring_add_of_dist(s0, k, m);
                assert(d < len0);
                assert(dk <= d) by {
                    if k >= s0 {
                        assert(kstar <= k);
                    } else {
                        if exists|kk: u64| st0.data.dom().contains(kk) && kk >= s0 {
                            assert(kstar >= s0);
                        } else {
                            assert(kstar <= k);
                        }
                    }
                }
                lemma_ring_dist_shift(s0, dk, d, m);
            }
        }
    }

    /// Appends `values` in order at the write head and stamps the batch
    /// with the current wall-clock time, after reconciling with whatever
    /// expired; rejects a batch that would not fit on the ring.
    pub fn add(&mut self, values: &Vec<Vec<u8>>) -> (r: Result<(), QueueError>)
        requires
            old(self).inv(),
        ensures
            final(self).inv(),
            final(self).spec_max_index() == old(self).spec_max_index(),
            ({
                let vs = values@.map_values(|v: Vec<u8>| v@);
                let m = old(self).spec_max_index();
                let rec = reconcile_spec(old(self).spec_state(), m);
                if vs.len() == 0 {
                    r is Ok && *final(self) == *old(self)
                } else if ring_len_spec(rec.start_index, rec.write_index, rec.empty, m)
                    + vs.len() > m {
                    &&& r matches Err(e) && e == QueueError::QueueFull
                    &&& final(self).spec_state() == rec
                } else {
                    &&& r is Ok
                    &&& final(self).spec_data() == data_app(rec.data, rec.write_index, vs, m)
                    &&& final(self).spec_start_index() == rec.start_index
                    &&& final(self).spec_write_index() == ring_add_spec(
                        rec.write_index,
                        vs.len() as int,
                        m,
                    )
                    &&& final(self).spec_readers() == rec.readers
                    &&& final(self).spec_empty() == false
                }
            }),
    {
        let ghost vs = values@.map_values(|v: Vec<u8>| v@);
        if values.len() == 0 {
            proof {
                assert(vs.len() == 0);
            }
            return Ok(());
        }
        let _ = self.actualize_indices();
        let ghost rec = self.spec_state();
        let ghost m = self.max_index;
        let ghost s0 = self.start_index;
        let ghost w0 = self.write_index;
        let ghost len0 = self.spec_len();
        proof {
            lemma_ring_len_bounds(s0, w0, self.empty, m);
            lemma_ring_write_head(s0, w0, self.empty, m);
        }
        let n: u64 = values.len() as u64;
        let cur = ring_len(self.start_index, self.write_index, self.empty, self.max_index);
        if n > self.max_index || cur > self.max_index - n {
            return Err(QueueError::QueueFull);
        }
        let ghost q1 = *self;
        let mut w = self.write_index;
        let mut i: usize = 0;
        while i < values.len()
            invariant
                i <= values@.len(),
                values@.len() == n as int,
                1 <= n,
                vs == values@.map_values(|v: Vec<u8>| v@),
                q1.inv(),
                rec == q1.spec_state(),
                len0 == q1.spec_len(),
                len0 + n <= m,
                m == q1.max_index,
                w0 == q1.write_index,
                s0 == q1.start_index,
                w0 == ring_add_spec(s0, len0, m),
                self.store.system == q1.store.system,
                self.store.readers == q1.store.readers,
                self.read_indices == q1.read_indices,
                self.empty == q1.empty,
                self.start_index == s0,
                self.write_index == w0,
                self.write_timestamp == q1.write_timestamp,
                self.max_index == m,
                self.store.data.inv(),
                w == ring_add_spec(w0, i as int, m),
                w < m,
                self.store.data@ == data_app(rec.data, w0, vs.subrange(0, i as int), m),
            decreases values@.len() - i,
        {
            let v = clone_bytes(&values[i]);
            self.store.data.put(w, v);
            w = ring_next(w, self.max_index);
            proof {
                lemma_ring_add_step(w0, i as int, m);
                assert(vs.subrange(0, i as int + 1).drop_last() =~= vs.subrange(0, i as int));
                assert(vs.subrange(0, i as int + 1).last() == vs[i as int]);
            }
            i += 1;
        }
        let wbytes = index_to_key(w);
        self.store.system.put(WRITE_INDEX_KEY, wbytes);
        let ts = current_timestamp();
        let tbytes = index_to_key(ts);
        self.store.system.put(WRITE_TIMESTAMP_KEY, tbytes);
        self.write_index = w;
        self.write_timestamp = ts;
        self.empty = false;
        proof {
            lemma_key_round_trip();
            assert(vs.subrange(0, n as int) =~= vs);
            lemma_data_app_facts(rec.data, w0, vs, m);
            let lenf = len0 + n;
            lemma_ring_add_compose(s0, len0, n as int, m);
            assert(w == ring_add_spec(s0, lenf, m));
            if lenf == m {
                assert(w == s0);
            } else {
                lemma_ring_dist_of_add(s0, lenf, m);
            }
            assert(ring_len_spec(s0, w, false, m) == lenf);
            assert forall|k: u64| self.spec_data().dom().contains(k) implies k < m
                && ring_dist_spec(s0, k, m) < lenf by {
                if rec.data.dom().contains(k) {
                    assert(ring_dist_spec(s0, k, m) < len0);
                } else {
                    let j = choose|j: int| 0 <= j < n && k == ring_add_spec(w0, j, m);
                    lemma_ring_add_compose(s0, len0, j, m);
                    lemma_ring_dist_of_add(s0, len0 + j, m);
                }
            }
            assert forall|l: Seq<char>|
                self.spec_readers().dom().contains(l) implies self.store.spec_readers(
            ).dom().contains(l) && spec_decode_reader(self.store.spec_readers()[l]) == Some(
                self.spec_readers()[l],
            ) && self.spec_readers()[l].index < m by {
                assert(q1.spec_readers().dom().contains(l));
            }
            assert forall|l: Seq<char>|
                self.store.spec_readers().dom().contains(l) implies self.spec_readers(
            ).dom().contains(l) by {
                assert(q1.store.spec_readers().dom().contains(l));
            }
            assert(self.inv());
        }
        Ok(())
    }

    /// Reads up to `max_elts` entries for `label`, starting a new label at
    /// `start_position`.  Returns the payloads in order and a flag that is
    /// true exactly when entries vanished under the label's cursor since
    /// its previous read; a read that runs into a hole discards its
    /// partial batch rather than hand out a torn prefix.
    #[verifier::rlimit(100)]
    pub fn next(&mut self, max_elts: usize, label: &str, start_position: StartPosition) -> (r:
        Result<(Vec<Vec<u8>>, bool), QueueError>)
        requires
            old(self).inv(),
        ensures
            final(self).inv(),
            final(self).spec_max_index() == old(self).spec_max_index(),
            ({
                let (st2, items, exp) = next_spec(
                    old(self).spec_state(),
                    label@,
                    start_position,
                    max_elts as int,
                    old(self).spec_max_index(),
                );
                &&& final(self).spec_state() == st2
                &&& (r matches Ok(p) && p.0@.map_values(|v: Vec<u8>| v@) == items && p.1 == exp)
            }),
    {
        let _ = self.actualize_indices();
        let ghost rec = self.spec_state();
        let ghost m = self.max_index;
        let ghost q1 = *self;
        let key = label.to_owned();
        let mut reader = match get_label_reader(&self.read_indices, &key) {
            Some(e) => e,
            None => {
                let index = match start_position {
                    StartPosition::Oldest => self.start_index,
                    StartPosition::Newest => {
                        if self.empty {
                            self.write_index
                        } else {
                            ring_prev(self.write_index, self.max_index)
                        }
                    },
                };
                Reader { index, end_timestamp: None, expired: false }
            },
        };
        proof {
            assert(reader == initial_reader(rec, label@, start_position, m));
            if rec.readers.dom().contains(label@) {
                assert(reader.index < m);
            }
        }
        let mut end = match reader.end_timestamp {
            None => reader.index == self.write_index && self.empty,
            Some(ts) => ts == self.write_timestamp,
        };
        proof {
            assert(end == at_tail(rec, reader));
        }
        let mut res: Vec<Vec<u8>> = Vec::new();
        let ghost idx0 = reader.index;
        let ghost exp0 = reader.expired;
        let ghost end0 = end;
        proof {
            assert(res@.map_values(|v: Vec<u8>| v@) =~= Seq::<Seq<u8>>::empty());
        }
        while !end && res.len() < max_elts
            invariant
                q1.inv(),
                *self == q1,
                rec == q1.spec_state(),
                m == q1.max_index,
                idx0 < m,
                reader.index < m,
                drain_spec(
                    rec.data,
                    rec.write_index,
                    m,
                    max_elts as int,
                    res@.map_values(|v: Vec<u8>| v@),
                    reader.index,
                    reader.expired,
                    end,
                ) == drain_spec(
                    rec.data,
                    rec.write_index,
                    m,
                    max_elts as int,
                    Seq::empty(),
                    idx0,
                    exp0,
                    end0,
                ),
            decreases drain_measure(reader.index, q1.write_index, end, m),
        {
            let ghost items_g = res@.map_values(|v: Vec<u8>| v@);
            let ghost i_g = reader.index;
            let ghost e_g = reader.expired;
            let value = self.store.data.get(reader.index);
            match value {
                Some(v) => {
                    res.push(v);
                    proof {
                        assert(res@.map_values(|v2: Vec<u8>| v2@) =~= items_g.push(
                            rec.data[i_g],
                        ));
                    }
                },
                None => {
                    res.clear();
                    reader.expired = true;
                    proof {
                        assert(res@.map_values(|v2: Vec<u8>| v2@) =~= Seq::<Seq<u8>>::empty());
                    }
                },
            }
            reader.index = ring_next(reader.index, self.max_index);
            end = reader.index == self.write_index;
            proof {
                assert(drain_spec(
                    rec.data,
                    rec.write_index,
                    m,
                    max_elts as int,
                    items_g,
                    i_g,
                    e_g,
                    false,
                ) == drain_spec(
                    rec.data,
                    rec.write_index,
                    m,
                    max_elts as int,
                    res@.map_values(|v2: Vec<u8>| v2@),
                    reader.index,
                    reader.expired,
                    end,
                ));
                // the walk strictly approaches the write head
                if !end {
                    lemma_ring_len_bounds(reader.index, q1.write_index, false, m);
                }
            }
        }
        proof {
            let dr = drain_spec(
                rec.data,
                rec.write_index,
                m,
                max_elts as int,
                Seq::empty(),
                idx0,
                exp0,
                end0,
            );
            assert(dr == (res@.map_values(|v: Vec<u8>| v@), reader.index, reader.expired, end));
        }
        reader.end_timestamp = if end {
            Some(self.write_timestamp)
        } else {
            None
        };
        let expired = reader.expired;
        reader.expired = false;
        let ghost rd1 = reader;
        let changed = match get_label_reader(&self.read_indices, &key) {
            Some(e) => !reader_eq(&e, &reader),
            None => true,
        };
        if changed {
            let bytes = encode_reader(&reader);
            proof {
                lemma_reader_round_trip(reader);
            }
            put_label(&mut self.store.readers, &key, bytes);
            put_label(&mut self.read_indices, &key, reader);
        } else {
            proof {
                assert(rec.readers.insert(label@, rd1) =~= rec.readers);
            }
        }
        proof {
            assert(self.spec_readers() == rec.readers.insert(label@, rd1));
            // the invariant survives the persisted cursor
            let st0 = q1.spec_state();
            assert(state_wf(st0, m));
            if self.empty {
                assert(self.spec_data().dom() =~= Set::<u64>::empty());
            }
            assert forall|k: u64| self.spec_data().dom().contains(k) implies k < self.max_index
                && ring_dist_spec(self.start_index, k, self.max_index) < self.spec_len() by {
                assert(st0.data.dom().contains(k));
                assert(ring_dist_spec(st0.start_index, k, q1.max_index) < ring_len_spec(
                    st0.start_index,
                    st0.write_index,
                    st0.empty,
                    q1.max_index,
                ));
            }
            assert forall|l: Seq<char>|
                self.spec_readers().dom().contains(l) implies self.spec_readers()[l].index < m by {
                if l != label@ {
                    assert(st0.readers.dom().contains(l));
                }
            }
            assert forall|l: Seq<char>|
                self.spec_readers().dom().contains(l) implies self.store.spec_readers(
            ).dom().contains(l) && spec_decode_reader(self.store.spec_readers()[l]) == Some(
                self.spec_readers()[l],
            ) by {
                if l != label@ {
                    assert(q1.spec_readers().dom().contains(l));
                    assert(q1.store.spec_readers().dom().contains(l));
                }
            }
            assert forall|l: Seq<char>|
                self.store.spec_readers().dom().contains(l) implies self.spec_readers(
            ).dom().contains(l) by {
                if l != label@ {
                    assert(q1.store.spec_readers().dom().contains(l));
                }
            }
            assert(self.inv());
            let (st2, items, exp) = next_spec(
                old(self).spec_state(),
                label@,
                start_position,
                max_elts as int,
                m,
            );
            assert(self.spec_state().readers =~= st2.readers);
            assert(self.spec_state() == st2);
        }
        Ok((res, expired))
    }

    /// A valid queue holds finitely many live entries, so the
    /// reconciliation laws apply to its state.
    pub proof fn lemma_data_finite(self)
        requires
            self.inv(),
        ensures
            self.spec_data().dom().finite(),
    {
        self.store.data.lemma_view_finite();
    }

    /// Removes the data entry at `index`, exactly as the store's
    /// background time-to-live maintenance would: the queue's cursors do
    /// not move until the next reconciliation.
    pub fn expire_entry(&mut self, index: u64)
        requires
            old(self).inv(),
        ensures
            final(self).inv(),
            final(self).spec_data() == old(self).spec_data().remove(index),
            final(self).spec_readers() == old(self).spec_readers(),
            final(self).spec_start_index() == old(self).spec_start_index(),
            final(self).spec_write_index() == old(self).spec_write_index(),
            final(self).spec_write_timestamp() == old(self).spec_write_timestamp(),
            final(self).spec_empty() == old(self).spec_empty(),
            final(self).spec_max_index() == old(self).spec_max_index(),
    {
        self.store.data.del(index);
        proof {
            let st0 = old(self).spec_state();
            assert(state_wf(st0, old(self).max_index));
            assert(self.start_index == old(self).start_index);
            assert(self.spec_data() == old(self).spec_data().remove(index));
            if self.empty {
                assert(self.spec_data().dom() =~= Set::<u64>::empty());
            }
            assert forall|k: u64| self.spec_data().dom().contains(k) implies k
                < self.max_index && ring_dist_spec(self.start_index, k, self.max_index)
                < self.spec_len() by {
                assert(st0.data.dom().contains(k));
                assert(k < old(self).max_index);
                assert(ring_dist_spec(st0.start_index, k, old(self).max_index) < ring_len_spec(
                    st0.start_index,
                    st0.write_index,
                    st0.empty,
                    old(self).max_index,
                ));
            }
        }
    }
}

/// Draining over a fully live arc collects exactly the consecutive
/// payloads from the cursor on, bounded by the budget.
pub proof fn lemma_drain_exact(
    data: Map<u64, Seq<u8>>,
    s: u64,
    len: int,
    w: u64,
    m: u64,
    max: int,
    c0: int,
    c: int,
    acc: Seq<Seq<u8>>,
)
    requires
        1 <= m,
        s < m,
        w < m,
        0 <= len <= m,
        w == ring_add_spec(s, len, m),
        forall|j: int| 0 <= j < len ==> data.dom().contains(ring_add_spec(s, j, m)),
        0 <= c0 <= c <= len,
        c0 < len,
        max >= 0,
        c - c0 <= max,
        acc == arc_vals(data, s, c0, c, m),
    ensures
        ({
            let cf = if c0 + max <= len {
                c0 + max
            } else {
                len
            };
            drain_spec(data, w, m, max, acc, ring_add_spec(s, c, m), false, c == len) == (
                arc_vals(data, s, c0, cf, m),
                ring_add_spec(s, cf, m),
                false,
                cf == len,
            )
        }),
    decreases len - c,
{
    let cf = if c0 + max <= len {
        c0 + max
    } else {
        len
    };
    let idx = ring_add_spec(s, c, m);
    if c < m {
        lemma_ring_dist_of_add(s, c, m);
    } else {
        assert(c == m && len == m);
        assert(idx == s);
    }
    assert(idx < m);
    assert(acc.len() == c - c0);
    if c == len {
        assert(cf == len);
    } else if c - c0 == max {
        assert(cf == c);
    } else {
        assert(data.dom().contains(idx));
        let acc2 = acc.push(data[idx]);
        assert(acc2 =~= arc_vals(data, s, c0, c + 1, m));
        let idx2 = ring_next_spec(idx, m);
        lemma_ring_add_step(s, c, m);
        assert(idx2 == ring_add_spec(s, c + 1, m));
        if c + 1 == len {
            assert(idx2 == w);
        } else {
            if len < m {
                lemma_ring_dist_of_add(s, c + 1, m);
                lemma_ring_dist_of_add(s, len, m);
                assert(idx2 != w);
            } else {
                assert(w == s);
                lemma_ring_dist_of_add(s, c + 1, m);
                assert(ring_dist_spec(s, idx2, m) == c + 1);
                assert(idx2 != w);
            }
        }
        lemma_drain_exact(data, s, len, w, m, max, c0, c + 1, acc2);
        assert(drain_spec(data, w, m, max, acc, idx, false, false) == drain_spec(
            data,
            w,
            m,
            max,
            acc2,
            idx2,
            false,
            idx2 == w,
        ));
    }
}

/// One read without expiration: reconciliation is a no-op, the batch is
/// exactly the next slice of the live arc at the label's cursor, the
/// expired flag stays clear, and the cursor advances by the batch size.
pub proof fn lemma_next_no_expiration(
    st: MpmcState,
    label: Seq<char>,
    pos: StartPosition,
    max: int,
    m: u64,
    c: int,
)
    requires
        state_wf(st, m),
        !st.empty,
        forall|j: int|
            0 <= j < ring_len_spec(st.start_index, st.write_index, false, m)
                ==> st.data.dom().contains(ring_add_spec(st.start_index, j, m)),
        st.readers.dom().contains(label),
        st.readers[label] == (Reader {
            index: ring_add_spec(st.start_index, c, m),
            end_timestamp: None,
            expired: false,
        }),
        0 <= c < ring_len_spec(st.start_index, st.write_index, false, m),
        max >= 0,
    ensures
        ({
            let len = ring_len_spec(st.start_index, st.write_index, false, m);
            let cf = if c + max <= len {
                c + max
            } else {
                len
            };
            let (st2, items, exp) = next_spec(st, label, pos, max, m);
            &&& reconcile_spec(st, m) == st
            &&& exp == false
            &&& items == arc_vals(st.data, st.start_index, c, cf, m)
            &&& st2.readers[label] == (Reader {
                index: ring_add_spec(st.start_index, cf, m),
                end_timestamp: if cf == len {
                    Some(st.write_timestamp)
                } else {
                    None
                },
                expired: false,
            })
            &&& st2.data == st.data
            &&& st2.start_index == st.start_index
            &&& st2.write_index == st.write_index
            &&& st2.write_timestamp == st.write_timestamp
            &&& st2.empty == st.empty
            &&& (forall|l: Seq<char>|
                l != label && st.readers.dom().contains(l) ==> st2.readers.dom().contains(l)
                    && st2.readers[l] == st.readers[l])
            &&& (forall|l: Seq<char>|
                st2.readers.dom().contains(l) ==> l == label || st.readers.dom().contains(l))
            &&& state_wf(st2, m)
        }),
{
    let s0 = st.start_index;
    let w = st.write_index;
    let len = ring_len_spec(s0, w, false, m);
    lemma_ring_len_bounds(s0, w, false, m);
    lemma_ring_write_head(s0, w, false, m);
    // the start cursor is itself live, so reconciliation does nothing
    assert(st.data.dom().contains(ring_add_spec(s0, 0, m)));
    assert(ring_add_spec(s0, 0, m) == s0);
    assert(exists|k: u64| st.data.dom().contains(k));
    assert(is_min_at_or_after(st.data, s0, s0));
    assert(exists|k: u64| st.data.dom().contains(k) && k >= s0);
    let y = choose|k: u64| is_min_at_or_after(st.data, s0, k);
    assert(is_min_at_or_after(st.data, s0, y));
    assert(y == s0);
    assert(spec_min_live(st.data, s0) == s0);
    assert(reconcile_spec(st, m) == st);
    let rd0 = initial_reader(st, label, pos, m);
    assert(rd0 == st.readers[label]);
    assert(!at_tail(st, rd0));
    lemma_ring_dist_of_add(s0, c, m);
    assert(Seq::<Seq<u8>>::empty() =~= arc_vals(st.data, s0, c, c, m));
    lemma_drain_exact(st.data, s0, len, w, m, max, c, c, Seq::empty());
    let cf = if c + max <= len {
        c + max
    } else {
        len
    };
    if cf < m {
        lemma_ring_dist_of_add(s0, cf, m);
    } else {
        assert(cf == m && len == m);
    }
    let st2 = next_spec(st, label, pos, max, m).0;
    assert forall|l: Seq<char>|
        st2.readers.dom().contains(l) implies st2.readers[l].index < m by {
        if l != label {
            assert(st.readers.dom().contains(l));
        }
    }
}

/// A read by a label that has caught up with the writer returns nothing,
/// reports no expiration, and leaves the whole state unchanged.
pub proof fn lemma_next_at_tail(
    st: MpmcState,
    label: Seq<char>,
    pos: StartPosition,
    max: int,
    m: u64,
)
    requires
        state_wf(st, m),
        !st.empty,
        forall|j: int|
            0 <= j < ring_len_spec(st.start_index, st.write_index, false, m)
                ==> st.data.dom().contains(ring_add_spec(st.start_index, j, m)),
        st.readers.dom().contains(label),
        st.readers[label].end_timestamp == Some(st.write_timestamp),
        st.readers[label].expired == false,
        max >= 0,
    ensures
        next_spec(st, label, pos, max, m).0 == st,
        next_spec(st, label, pos, max, m).1 == Seq::<Seq<u8>>::empty(),
        next_spec(st, label, pos, max, m).2 == false,
{
    let s0 = st.start_index;
    let w = st.write_index;
    let len = ring_len_spec(s0, w, false, m);
    lemma_ring_len_bounds(s0, w, false, m);
    assert(len >= 1);
    assert(st.data.dom().contains(ring_add_spec(s0, 0, m)));
    assert(ring_add_spec(s0, 0, m) == s0);
    assert(is_min_at_or_after(st.data, s0, s0));
    assert(exists|k: u64| st.data.dom().contains(k) && k >= s0);
    let y = choose|k: u64| is_min_at_or_after(st.data, s0, k);
    assert(is_min_at_or_after(st.data, s0, y));
    assert(y == s0);
    assert(reconcile_spec(st, m) == st);
    let rd0 = initial_reader(st, label, pos, m);
    assert(at_tail(st, rd0));
    let st2 = next_spec(st, label, pos, max, m).0;
    assert(st2.readers =~= st.readers);
    assert(st2 == st);
}

/// Total budget of a sequence of reads.
pub open spec fn sum_budgets(s: Seq<int>) -> int
    decreases s.len(),
{
    if s.len() == 0 {
        0
    } else {
        sum_budgets(s.drop_last()) + s.last()
    }
}

/// The state and the concatenation of all batches after a sequence of
/// reads by one label.
pub open spec fn next_stream(
    st: MpmcState,
    label: Seq<char>,
    pos: StartPosition,
    budgets: Seq<int>,
    m: u64,
) -> (MpmcState, Seq<Seq<u8>>)
    decreases budgets.len(),
{
    if budgets.len() == 0 {
        (st, Seq::empty())
    } else {
        let prev = next_stream(st, label, pos, budgets.drop_last(), m);
        let step = next_spec(prev.0, label, pos, budgets.last(), m);
        (step.0, prev.1 + step.1)
    }
}

/// For one label and any sequence of reads with no expiration in between,
/// the concatenation of the returned batches is exactly the prefix of the
/// live entries from the label's cursor, in order.
pub proof fn lemma_next_stream_prefix(
    st: MpmcState,
    label: Seq<char>,
    pos: StartPosition,
    budgets: Seq<int>,
    m: u64,
    c: int,
)
    requires
        state_wf(st, m),
        !st.empty,
        forall|j: int|
            0 <= j < ring_len_spec(st.start_index, st.write_index, false, m)
                ==> st.data.dom().contains(ring_add_spec(st.start_index, j, m)),
        st.readers.dom().contains(label),
        st.readers[label] == (Reader {
            index: ring_add_spec(st.start_index, c, m),
            end_timestamp: None,
            expired: false,
        }),
        0 <= c < ring_len_spec(st.start_index, st.write_index, false, m),
        forall|i: int| 0 <= i < budgets.len() ==> budgets[i] >= 0,
    ensures
        ({
            let len = ring_len_spec(st.start_index, st.write_index, false, m);
            let total = sum_budgets(budgets);
            let cf = if c + total <= len {
                c + total
            } else {
                len
            };
            let (stf, items) = next_stream(st, label, pos, budgets, m);
            &&& items == arc_vals(st.data, st.start_index, c, cf, m)
            &&& stf.data == st.data
            &&& stf.start_index == st.start_index
            &&& stf.write_index == st.write_index
            &&& stf.write_timestamp == st.write_timestamp
            &&& stf.empty == st.empty
            &&& stf.readers.dom().contains(label)
            &&& stf.readers[label] == (Reader {
                index: ring_add_spec(st.start_index, cf, m),
                end_timestamp: if cf == len {
                    Some(st.write_timestamp)
                } else {
                    None
                },
                expired: false,
            })
            &&& state_wf(stf, m)
        }),
    decreases budgets.len(),
{
    let s0 = st.start_index;
    let len = ring_len_spec(s0, st.write_index, false, m);
    let total = sum_budgets(budgets);
    let cf = if c + total <= len {
        c + total
    } else {
        len
    };
    if budgets.len() == 0 {
        assert(arc_vals(st.data, s0, c, c, m) =~= Seq::<Seq<u8>>::empty());
    } else {
        let front = budgets.drop_last();
        let b = budgets.last();
        assert(forall|i: int| 0 <= i < front.len() ==> front[i] >= 0) by {
            assert(forall|i: int| 0 <= i < front.len() ==> front[i] == budgets[i]);
        }
        assert(b >= 0);
        assert(sum_budgets(front) >= 0) by {
            lemma_sum_budgets_nonneg(front);
        }
        lemma_next_stream_prefix(st, label, pos, front, m, c);
        let (st1, acc) = next_stream(st, label, pos, front, m);
        let total1 = sum_budgets(front);
        let c1 = if c + total1 <= len {
            c + total1
        } else {
            len
        };
        assert(ring_len_spec(st1.start_index, st1.write_index, false, m) == len);
        if c1 < len {
            lemma_next_no_expiration(st1, label, pos, b, m, c1);
            let c2 = if c1 + b <= len {
                c1 + b
            } else {
                len
            };
            assert(c2 == cf);
            let step = next_spec(st1, label, pos, b, m);
            assert(acc + step.1 =~= arc_vals(st.data, s0, c, cf, m));
        } else {
            assert(c1 == len);
            assert(cf == len);
            lemma_next_at_tail(st1, label, pos, b, m);
            let step = next_spec(st1, label, pos, b, m);
            assert(acc + step.1 =~= arc_vals(st.data, s0, c, cf, m));
        }
    }
}

pub proof fn lemma_sum_budgets_nonneg(s: Seq<int>)
    requires
        forall|i: int| 0 <= i < s.len() ==> s[i] >= 0,
    ensures
        sum_budgets(s) >= 0,
    decreases s.len(),
{
    if s.len() > 0 {
        assert(forall|i: int| 0 <= i < s.drop_last().len() ==> s.drop_last()[i] == s[i]);
        lemma_sum_budgets_nonneg(s.drop_last());
    }
}

/// Reconciliation is idempotent: running it twice over an unchanged
/// store is the same as running it once.
pub proof fn lemma_reconcile_idempotent(st: MpmcState, m: u64)
    requires
        st.data.dom().finite(),
    ensures
        reconcile_spec(reconcile_spec(st, m), m) == reconcile_spec(st, m),
{
    let r1 = reconcile_spec(st, m);
    if st.empty {
    } else if !(exists|k: u64| st.data.dom().contains(k)) {
        assert(r1.empty);
    } else {
        let kstar = spec_min_live(st.data, st.start_index);
        if kstar == st.start_index {
        } else {
            if exists|k: u64| st.data.dom().contains(k) && k >= st.start_index {
                lemma_map_min_exists(st.data, st.start_index);
                assert(is_min_at_or_after(st.data, st.start_index, kstar));
            } else {
                let wit = choose|k: u64| st.data.dom().contains(k);
                assert(st.data.dom().contains(wit) && wit >= 0);
                lemma_map_min_exists(st.data, 0);
                assert(is_min_at_or_after(st.data, 0, kstar));
            }
            assert(st.data.dom().contains(kstar));
            assert(!r1.empty);
            assert(r1.data == st.data);
            assert(r1.data.dom().contains(kstar));
            assert(exists|k: u64| r1.data.dom().contains(k));
            assert(is_min_at_or_after(r1.data, kstar, kstar));
            assert(exists|k: u64| r1.data.dom().contains(k) && k >= kstar);
            let y = choose|k: u64| is_min_at_or_after(r1.data, kstar, k);
            assert(is_min_at_or_after(r1.data, kstar, y));
            assert(y == kstar);
            assert(spec_min_live(r1.data, kstar) == kstar);
            assert(reconcile_spec(r1, m) == r1);
        }
    }
}

/// A read with a zero budget hands out nothing and leaves the cursor
/// exactly where reconciliation put it.
pub proof fn lemma_next_zero_budget(st: MpmcState, label: Seq<char>, pos: StartPosition, m: u64)
    requires
        state_wf(st, m),
        st.data.dom().finite(),
    ensures
        ({
            let rec = reconcile_spec(st, m);
            let rd0 = initial_reader(rec, label, pos, m);
            let (st2, items, exp) = next_spec(st, label, pos, 0, m);
            &&& items == Seq::<Seq<u8>>::empty()
            &&& st2.readers[label].index == rd0.index
            &&& exp == rd0.expired
        }),
{
    lemma_reconcile_wf(st, m);
    let rec = reconcile_spec(st, m);
    let rd0 = initial_reader(rec, label, pos, m);
    assert(rd0.index < m) by {
        if rec.readers.dom().contains(label) {
        } else {
            match pos {
                StartPosition::Oldest => {},
                StartPosition::Newest => {},
            }
        }
    }
    assert(drain_spec(
        rec.data,
        rec.write_index,
        m,
        0,
        Seq::empty(),
        rd0.index,
        rd0.expired,
        at_tail(rec, rd0),
    ) == (Seq::<Seq<u8>>::empty(), rd0.index, rd0.expired, at_tail(rec, rd0)));
}

/// A removed or unknown label reads as a brand-new consumer: its first
/// read starts from its chosen start position.
pub proof fn lemma_removed_label_starts_fresh(
    st: MpmcState,
    label: Seq<char>,
    pos: StartPosition,
    m: u64,
)
    requires
        !st.readers.dom().contains(label),
    ensures
        initial_reader(reconcile_spec(st, m), label, pos, m) == fresh_reader(
            reconcile_spec(st, m),
            pos,
            m,
        ),
{
    assert(!reconcile_spec(st, m).readers.dom().contains(label));
}

/// When every entry expired since a label's previous read, the next read
/// returns an empty batch with the expired flag set, and the cursor lands
/// on the start index, which has folded onto the write head.
pub proof fn lemma_next_after_all_expired(
    st: MpmcState,
    label: Seq<char>,
    pos: StartPosition,
    max: int,
    m: u64,
)
    requires
        state_wf(st, m),
        !st.empty,
        st.data.dom() =~= Set::<u64>::empty(),
        st.readers.dom().contains(label),
        st.readers[label].end_timestamp != Some(st.write_timestamp),
        max >= 0,
    ensures
        ({
            let (st2, items, exp) = next_spec(st, label, pos, max, m);
            &&& items == Seq::<Seq<u8>>::empty()
            &&& exp == true
            &&& st2.start_index == st.write_index
            &&& st2.empty
            &&& st2.readers[label] == (Reader {
                index: st.write_index,
                end_timestamp: Some(st.write_timestamp),
                expired: false,
            })
        }),
{
    assert(!(exists|k: u64| st.data.dom().contains(k)));
    let rec = reconcile_spec(st, m);
    assert(rec.readers.dom().contains(label));
    let rd0 = rec.readers[label];
    assert(rd0.expired);
    assert(at_tail(rec, rd0));
}

} // verus!
