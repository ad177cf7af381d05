//! The bounded single-consumer FIFO queue.
//!
//! Entries are pushed at the write head and consumed destructively from the
//! read head, both 64-bit ring indices persisted in reserved metadata cells
//! of the store together with the running payload byte count.  The view of
//! a queue is the sequence of live payloads in push order.

use vstd::prelude::*;

use crate::codec::index_to_key;
use crate::codec::lemma_key_round_trip;
use crate::codec::u64_from_byte_vec;
use crate::err::QueueError;
use crate::ring::lemma_ring_add_step;
use crate::ring::lemma_ring_dist_of_add;
use crate::ring::lemma_ring_add_compose;
use crate::ring::lemma_ring_len_bounds;
use crate::ring::lemma_ring_dist_shift;
use crate::ring::lemma_ring_write_head;
use crate::ring::ring_add_spec;
use crate::ring::ring_dist_spec;
use crate::ring::ring_len;
use crate::ring::ring_len_spec;
use crate::ring::ring_next;
use crate::ring::MAX_INDEX;
use crate::ring::U64_BYTE_LEN;
use crate::store::arc_entries;
use crate::store::cell_u64_or;
use crate::store::clone_bytes;
use crate::store::lemma_sum_len_append;
use crate::store::lemma_sum_len_prefix;
use crate::store::lemma_sum_len_step;
use crate::store::sum_len;
use crate::store::CellMap;

verus! {

/// Metadata cell holding the next index to be written.
pub const WRITE_INDEX_CELL: u64 = u64::MAX;

/// Metadata cell holding the next index to be read.
pub const READ_INDEX_CELL: u64 = u64::MAX - 1;

/// Metadata cell holding the cumulative live payload byte count.
pub const SPACE_STAT_CELL: u64 = u64::MAX - 2;

/// The next index to be written, as the store records it.
pub open spec fn store_derived_write(s: Map<u64, Seq<u8>>) -> u64 {
    cell_u64_or(s, WRITE_INDEX_CELL, 0)
}

/// The next index to be read, as the store records it.
pub open spec fn store_derived_read(s: Map<u64, Seq<u8>>) -> u64 {
    cell_u64_or(s, READ_INDEX_CELL, 0)
}

/// Number of live entries the store holds, probed the way `new` recovers
/// it: the queue is empty exactly when no entry sits at the read head.
pub open spec fn store_derived_len(s: Map<u64, Seq<u8>>, m: u64) -> int {
    ring_len_spec(
        store_derived_read(s),
        store_derived_write(s),
        !s.dom().contains(store_derived_read(s)),
        m,
    )
}

/// The live payloads of a store, in push order.
pub open spec fn store_entries(s: Map<u64, Seq<u8>>, m: u64) -> Seq<Seq<u8>> {
    arc_entries(s, store_derived_read(s), store_derived_len(s, m), m)
}

/// A store that holds a well-formed bounded queue for the ring bound `m`:
/// the metadata cells decode to in-range indices, the data keys are exactly
/// the live arc between the read and write heads, and the byte counter
/// equals the bytes actually stored.
pub open spec fn store_wf(s: Map<u64, Seq<u8>>, m: u64) -> bool {
    let w = store_derived_write(s);
    let r = store_derived_read(s);
    let empty = !s.dom().contains(r);
    let len = ring_len_spec(r, w, empty, m);
    &&& 1 <= m <= MAX_INDEX
    &&& (s.dom().contains(WRITE_INDEX_CELL) ==> s[WRITE_INDEX_CELL].len() == U64_BYTE_LEN as int)
    &&& (s.dom().contains(READ_INDEX_CELL) ==> s[READ_INDEX_CELL].len() == U64_BYTE_LEN as int)
    &&& (s.dom().contains(SPACE_STAT_CELL) ==> s[SPACE_STAT_CELL].len() == U64_BYTE_LEN as int)
    &&& w < m
    &&& r < m
    &&& (empty ==> w == r)
    &&& (forall|k: u64|
        s.dom().contains(k) ==> k < m || k == WRITE_INDEX_CELL || k == READ_INDEX_CELL || k
            == SPACE_STAT_CELL)
    &&& (forall|k: u64| s.dom().contains(k) && k < m ==> ring_dist_spec(r, k, m) < len)
    &&& (forall|j: int| 0 <= j < len ==> s.dom().contains(ring_add_spec(r, j, m)))
    &&& cell_u64_or(s, SPACE_STAT_CELL, 0) as int == sum_len(arc_entries(s, r, len, m))
}

/// A store with no records holds a valid, empty queue for any ring bound.
pub proof fn lemma_empty_store_wf(m: u64)
    requires
        1 <= m <= MAX_INDEX,
    ensures
        store_wf(Map::<u64, Seq<u8>>::empty(), m),
{
    let s = Map::<u64, Seq<u8>>::empty();
    assert(ring_len_spec(0, 0, true, m) == 0);
    assert(arc_entries(s, 0, 0, m) =~= Seq::<Seq<u8>>::empty());
}

/// Reads the counter stored under `key`, defaulting to zero where the cell
/// is absent.
pub(crate) fn read_cell(store: &CellMap, key: u64) -> (r: u64)
    requires
        store.inv(),
        store@.dom().contains(key) ==> store@[key].len() == U64_BYTE_LEN as int,
    ensures
        r == cell_u64_or(store@, key, 0),
{
    match store.get(key) {
        Some(v) => u64_from_byte_vec(v.as_slice()),
        None => 0,
    }
}

/// A durable fixed-capacity FIFO of opaque byte payloads.
pub struct PersistentQueueWithCapacity {
    store: CellMap,
    space_stat: u64,
    write_index: u64,
    read_index: u64,
    max_elements: u64,
    max_index: u64,
    empty: bool,
}

impl View for PersistentQueueWithCapacity {
    type V = Seq<Seq<u8>>;

    closed spec fn view(&self) -> Seq<Seq<u8>> {
        arc_entries(self.store@, self.read_index, self.spec_len(), self.max_index)
    }
}

impl PersistentQueueWithCapacity {
    pub closed spec fn spec_store(self) -> Map<u64, Seq<u8>> {
        self.store@
    }

    pub closed spec fn spec_write_index(self) -> u64 {
        self.write_index
    }

    pub closed spec fn spec_read_index(self) -> u64 {
        self.read_index
    }

    pub closed spec fn spec_space(self) -> u64 {
        self.space_stat
    }

    pub closed spec fn spec_max_elements(self) -> u64 {
        self.max_elements
    }

    pub closed spec fn spec_max_index(self) -> u64 {
        self.max_index
    }

    pub closed spec fn spec_empty(self) -> bool {
        self.empty
    }

    pub open spec fn spec_len(self) -> int {
        ring_len_spec(
            self.spec_read_index(),
            self.spec_write_index(),
            self.spec_empty(),
            self.spec_max_index(),
        )
    }

    /// The in-memory cursors mirror the metadata cells and the data keys
    /// form exactly the live arc.
    pub closed spec fn inv(self) -> bool {
        &&& self.store.inv()
        &&& store_wf(self.store@, self.max_index)
        &&& self.write_index == store_derived_write(self.store@)
        &&& self.read_index == store_derived_read(self.store@)
        &&& self.space_stat == cell_u64_or(self.store@, SPACE_STAT_CELL, 0)
        &&& self.empty == !self.store@.dom().contains(self.read_index)
        &&& self.max_elements <= self.max_index
    }

    /// Opens a queue over `store` with capacity `max_elements` on the full
    /// index ring.
    pub fn new(store: CellMap, max_elements: usize) -> (r: Result<Self, QueueError>)
        requires
            store.inv(),
            store_wf(store@, MAX_INDEX),
        ensures
            max_elements as u64 > MAX_INDEX <==> r is Err,
            r matches Err(e) ==> e == QueueError::InvalidConfig,
            r matches Ok(q) ==> {
                &&& q.inv()
                &&& q.spec_max_index() == MAX_INDEX
                &&& q.spec_max_elements() == max_elements as u64
                &&& q.spec_store() == store@
                &&& q@ == store_entries(store@, MAX_INDEX)
                &&& q.spec_read_index() == store_derived_read(store@)
                &&& q.spec_write_index() == store_derived_write(store@)
                &&& q.spec_space() == cell_u64_or(store@, SPACE_STAT_CELL, 0)
            },
    {
        Self::new_with_ring(store, max_elements, MAX_INDEX)
    }

    /// Opens a queue over `store` with capacity `max_elements` on the ring
    /// `[0, max_index)`; small bounds let tests exercise wrap-around.
    pub fn new_with_ring(store: CellMap, max_elements: usize, max_index: u64) -> (r: Result<
        Self,
        QueueError,
    >)
        requires
            store.inv(),
            store_wf(store@, max_index),
        ensures
            max_elements as u64 > max_index <==> r is Err,
            r matches Err(e) ==> e == QueueError::InvalidConfig,
            r matches Ok(q) ==> {
                &&& q.inv()
                &&& q.spec_max_index() == max_index
                &&& q.spec_max_elements() == max_elements as u64
                &&& q.spec_store() == store@
                &&& q@ == store_entries(store@, max_index)
                &&& q.spec_read_index() == store_derived_read(store@)
                &&& q.spec_write_index() == store_derived_write(store@)
                &&& q.spec_space() == cell_u64_or(store@, SPACE_STAT_CELL, 0)
            },
    {
        if max_elements as u64 > max_index {
            return Err(QueueError::InvalidConfig);
        }
        let write_index = read_cell(&store, WRITE_INDEX_CELL);
        let read_index = read_cell(&store, READ_INDEX_CELL);
        let space_stat = read_cell(&store, SPACE_STAT_CELL);
        let empty = !store.contains(read_index);
        Ok(
            PersistentQueueWithCapacity {
                store,
                space_stat,
                write_index,
                read_index,
                max_elements: max_elements as u64,
                max_index,
                empty,
            },
        )
    }

    /// Closes the queue and hands its store back for a later reopen.
    /// Reopening the returned store recovers the same entries, length,
    /// payload byte count, and next entry to pop.
    pub fn close(self) -> (s: CellMap)
        requires
            self.inv(),
        ensures
            s.inv(),
            store_wf(s@, self.spec_max_index()),
            s@ == self.spec_store(),
            store_entries(s@, self.spec_max_index()) == self@,
            store_derived_read(s@) == self.spec_read_index(),
            store_derived_write(s@) == self.spec_write_index(),
            cell_u64_or(s@, SPACE_STAT_CELL, 0) == self.spec_space(),
    {
        self.store
    }

    /// Number of live entries.
    pub fn len(&self) -> (r: u64)
        requires
            self.inv(),
        ensures
            r as int == self@.len(),
    {
        proof {
            lemma_ring_len_bounds(self.read_index, self.write_index, self.empty, self.max_index);
        }
        ring_len(self.read_index, self.write_index, self.empty, self.max_index)
    }

    /// Whether no entry is live.
    pub fn is_empty(&self) -> (r: bool)
        requires
            self.inv(),
        ensures
            r == (self@.len() == 0),
    {
        proof {
            lemma_ring_len_bounds(self.read_index, self.write_index, self.empty, self.max_index);
        }
        self.empty
    }

    /// Total bytes of payload currently live.
    pub fn payload_size(&self) -> (r: u64)
        requires
            self.inv(),
        ensures
            r as int == sum_len(self@),
    {
        self.space_stat
    }

    /// The read cursor: next index to be consumed.
    pub fn read_index(&self) -> (r: u64)
        requires
            self.inv(),
        ensures
            r == self.spec_read_index(),
    {
        self.read_index
    }

    /// The write cursor: next index to be filled.
    pub fn write_index(&self) -> (r: u64)
        requires
            self.inv(),
        ensures
            r == self.spec_write_index(),
    {
        self.write_index
    }

    /// Appends `values` in order, or rejects the whole batch when it would
    /// not fit; a full rejection leaves every observable unchanged.
    pub fn push(&mut self, values: &Vec<Vec<u8>>) -> (r: Result<(), QueueError>)
        requires
            old(self).inv(),
            old(self).spec_space() + sum_len(values@.map_values(|v: Vec<u8>| v@)) <= u64::MAX,
        ensures
            final(self).inv(),
            final(self).spec_max_index() == old(self).spec_max_index(),
            final(self).spec_max_elements() == old(self).spec_max_elements(),
            ({
                let vs = values@.map_values(|v: Vec<u8>| v@);
                if vs.len() == 0 {
                    r is Ok && *final(self) == *old(self)
                } else if old(self)@.len() + vs.len() > old(self).spec_max_elements() {
                    &&& r matches Err(e) && e == QueueError::QueueFull
                    &&& *final(self) == *old(self)
                } else {
                    &&& r is Ok
                    &&& final(self)@ == old(self)@ + vs
                    &&& final(self).spec_read_index() == old(self).spec_read_index()
                    &&& final(self).spec_write_index() == ring_add_spec(
                        old(self).spec_write_index(),
                        vs.len() as int,
                        old(self).spec_max_index(),
                    )
                    &&& final(self).spec_space() == old(self).spec_space() + sum_len(vs)
                }
            }),
    {
        let ghost vs = values@.map_values(|v: Vec<u8>| v@);
        if values.len() == 0 {
            proof {
                assert(vs.len() == 0);
            }
            return Ok(());
        }
        let ghost q0 = *self;
        let ghost m = self.max_index;
        let ghost w0 = self.write_index;
        let ghost r0 = self.read_index;
        let ghost len0 = q0.spec_len();
        proof {
            lemma_ring_len_bounds(r0, w0, self.empty, m);
            lemma_ring_write_head(r0, w0, self.empty, m);
            assert(len0 == q0@.len());
        }
        let n: u64 = values.len() as u64;
        let cur = ring_len(self.read_index, self.write_index, self.empty, self.max_index);
        if n > self.max_elements || cur > self.max_elements - n {
            proof {
                assert(q0@.len() + vs.len() > q0.max_elements);
            }
            return Err(QueueError::QueueFull);
        }
        proof {
            assert(len0 + n <= q0.max_elements <= m);
        }
        let mut w = self.write_index;
        let mut i: usize = 0;
        while i < values.len()
            invariant
                i <= values@.len(),
                values@.len() == n as int,
                1 <= n,
                vs == values@.map_values(|v: Vec<u8>| v@),
                q0.inv(),
                len0 == q0.spec_len(),
                len0 + n <= q0.max_elements <= m,
                m == q0.max_index,
                w0 == q0.write_index,
                r0 == q0.read_index,
                w0 == ring_add_spec(r0, len0, m),
                self.write_index == w0,
                self.read_index == r0,
                self.max_index == m,
                self.max_elements == q0.max_elements,
                self.space_stat == q0.space_stat,
                self.empty == q0.empty,
                self.store.inv(),
                w == ring_add_spec(w0, i as int, m),
                w < m,
                forall|k: u64| #[trigger]
                    self.store@.dom().contains(k) <==> q0.store@.dom().contains(k) || (exists|
                        j: int,
                    |
                        0 <= j < i && k == ring_add_spec(w0, j, m)),
                forall|k: u64|
                    q0.store@.dom().contains(k) ==> #[trigger] self.store@[k] == q0.store@[k],
                forall|j: int|
                    0 <= j < i ==> #[trigger] self.store@[ring_add_spec(w0, j, m)] == vs[j],
            decreases values@.len() - i,
        {
            let v = clone_bytes(&values[i]);
            proof {
                lemma_ring_add_compose(r0, len0, i as int, m);
                lemma_ring_dist_of_add(r0, len0 + i, m);
                assert(w == ring_add_spec(r0, len0 + i, m));
                assert(!q0.store@.dom().contains(w));
                assert forall|j: int| 0 <= j < i implies ring_add_spec(w0, j, m) != w by {
                    lemma_ring_add_compose(r0, len0, j, m);
                    lemma_ring_dist_of_add(r0, len0 + j, m);
                }
            }
            self.store.put(w, v);
            w = ring_next(w, self.max_index);
            proof {
                lemma_ring_add_step(w0, i as int, m);
            }
            i += 1;
        }
        let wbytes = index_to_key(w);
        self.store.put(WRITE_INDEX_CELL, wbytes);
        let sp = sum_values(values, self.space_stat);
        let sbytes = index_to_key(sp);
        self.store.put(SPACE_STAT_CELL, sbytes);
        self.write_index = w;
        self.space_stat = sp;
        self.empty = false;
        proof {
            lemma_key_round_trip();
            let s2 = self.store@;
            let lenf = len0 + n;
            // the new write head is the old one advanced by the batch
            lemma_ring_add_compose(r0, len0, n as int, m);
            assert(w == ring_add_spec(r0, lenf, m));
            // cells other than the two rewritten ones kept their bytes
            assert(cell_u64_or(s2, READ_INDEX_CELL, 0) == r0);
            assert(store_derived_write(s2) == w);
            // the read head is live again
            if len0 == 0 {
                assert(r0 == w0);
                assert(s2.dom().contains(ring_add_spec(w0, 0, m)));
                assert(ring_add_spec(w0, 0, m) == r0);
            } else {
                assert(q0.store@.dom().contains(ring_add_spec(r0, 0, m)));
                assert(ring_add_spec(r0, 0, m) == r0);
            }
            assert(s2.dom().contains(r0));
            // the new length reads back as len0 + n
            if lenf == m {
                assert(w == r0);
            } else {
                lemma_ring_dist_of_add(r0, lenf, m);
                assert(w != r0 || lenf == 0);
            }
            assert(ring_len_spec(r0, w, false, m) == lenf);
            // data keys: exactly the extended arc
            assert forall|k: u64| s2.dom().contains(k) && k < m implies ring_dist_spec(
                r0,
                k,
                m,
            ) < lenf by {
                if q0.store@.dom().contains(k) {
                    assert(ring_dist_spec(r0, k, m) < len0);
                } else {
                    let j = choose|j: int| 0 <= j < n && k == ring_add_spec(w0, j, m);
                    lemma_ring_add_compose(r0, len0, j, m);
                    lemma_ring_dist_of_add(r0, len0 + j, m);
                }
            }
            assert forall|j: int| 0 <= j < lenf implies s2.dom().contains(
                ring_add_spec(r0, j, m),
            ) by {
                if j < len0 {
                    assert(q0.store@.dom().contains(ring_add_spec(r0, j, m)));
                } else {
                    lemma_ring_add_compose(r0, len0, j - len0, m);
                    assert(ring_add_spec(r0, j, m) == ring_add_spec(w0, j - len0, m));
                }
            }
            // the view grew by exactly the pushed payloads
            assert forall|j: int| 0 <= j < lenf implies arc_entries(s2, r0, lenf, m)[j] == (q0@
                + vs)[j] by {
                lemma_ring_dist_of_add(r0, j, m);
                let k = ring_add_spec(r0, j, m);
                if j < len0 {
                    assert(q0.store@.dom().contains(k));
                    assert(s2[k] == q0.store@[k]);
                } else {
                    lemma_ring_add_compose(r0, len0, j - len0, m);
                    assert(k == ring_add_spec(w0, j - len0, m));
                    assert(s2[k] == vs[j - len0]);
                }
            }
            assert(arc_entries(s2, r0, lenf, m) =~= q0@ + vs);
            lemma_sum_len_append(q0@, vs);
            assert(self@ == q0@ + vs);
        }
        Ok(())
    }

    /// Removes and returns up to `max_elts` entries from the front, in
    /// push order; an empty queue yields an empty batch, not an error.
    #[verifier::rlimit(60)]
    pub fn pop(&mut self, max_elts: usize) -> (r: Result<Vec<Vec<u8>>, QueueError>)
        requires
            old(self).inv(),
        ensures
            final(self).inv(),
            final(self).spec_max_index() == old(self).spec_max_index(),
            final(self).spec_max_elements() == old(self).spec_max_elements(),
            r is Ok,
            ({
                let k = if max_elts as int <= old(self)@.len() {
                    max_elts as int
                } else {
                    old(self)@.len() as int
                };
                &&& (r matches Ok(v) && v@.map_values(|x: Vec<u8>| x@) == old(self)@.subrange(
                    0,
                    k,
                ))
                &&& final(self)@ == old(self)@.subrange(k, old(self)@.len() as int)
                &&& final(self).spec_read_index() == ring_add_spec(
                    old(self).spec_read_index(),
                    k,
                    old(self).spec_max_index(),
                )
                &&& final(self).spec_write_index() == old(self).spec_write_index()
                &&& final(self).spec_space() == old(self).spec_space() - sum_len(
                    old(self)@.subrange(0, k),
                )
            }),
    {
        let ghost q0 = *self;
        let ghost m = self.max_index;
        let ghost w0 = self.write_index;
        let ghost r0 = self.read_index;
        let ghost len0 = q0.spec_len();
        proof {
            lemma_ring_len_bounds(r0, w0, self.empty, m);
            lemma_ring_write_head(r0, w0, self.empty, m);
            assert(len0 == q0@.len());
        }
        let cur = ring_len(self.read_index, self.write_index, self.empty, self.max_index);
        let target: u64 = if (max_elts as u64) < cur {
            max_elts as u64
        } else {
            cur
        };
        let ghost k = target as int;
        let mut collected: Vec<Vec<u8>> = Vec::new();
        let mut rd = self.read_index;
        let mut freed: u64 = 0;
        let mut j: u64 = 0;
        while j < target
            invariant
                j <= target,
                k == target as int,
                k <= len0,
                q0.inv(),
                len0 == q0.spec_len(),
                len0 == q0@.len(),
                len0 <= m,
                m == q0.max_index,
                w0 == q0.write_index,
                r0 == q0.read_index,
                w0 == ring_add_spec(r0, len0, m),
                self.write_index == w0,
                self.read_index == r0,
                self.max_index == m,
                self.max_elements == q0.max_elements,
                self.space_stat == q0.space_stat,
                self.empty == q0.empty,
                self.store.inv(),
                rd == ring_add_spec(r0, j as int, m),
                rd < m,
                collected@.map_values(|x: Vec<u8>| x@) == q0@.subrange(0, j as int),
                freed as int == sum_len(q0@.subrange(0, j as int)),
                forall|kk: u64| #[trigger]
                    self.store@.dom().contains(kk) <==> q0.store@.dom().contains(kk) && !(exists|
                        t: int,
                    |
                        0 <= t < j && kk == ring_add_spec(r0, t, m)),
                forall|kk: u64|
                    self.store@.dom().contains(kk) ==> #[trigger] self.store@[kk]
                        == q0.store@[kk],
            decreases target - j,
        {
            proof {
                lemma_ring_dist_of_add(r0, j as int, m);
                assert(q0.store@.dom().contains(rd));
                assert forall|t: int| 0 <= t < j implies ring_add_spec(r0, t, m) != rd by {
                    lemma_ring_dist_of_add(r0, t, m);
                }
                assert(self.store@.dom().contains(rd));
            }
            let got = self.store.get(rd);
            match got {
                Some(v) => {
                    self.store.del(rd);
                    proof {
                        assert(v@ == q0@[j as int]);
                        lemma_sum_len_step(q0@, j as int);
                        lemma_sum_len_prefix(q0@, j as int + 1);
                        assert(sum_len(q0@) == q0.space_stat as int);
                    }
                    freed = freed + v.len() as u64;
                    collected.push(v);
                    rd = ring_next(rd, self.max_index);
                    proof {
                        lemma_ring_add_step(r0, j as int, m);
                        assert(collected@.map_values(|x: Vec<u8>| x@) =~= q0@.subrange(
                            0,
                            j as int + 1,
                        ));
                    }
                    j = j + 1;
                },
                None => {
                    // the live arc has no gap, so this branch cannot run
                    proof {
                        assert(false);
                    }
                },
            }
        }
        if collected.len() > 0 {
            proof {
                lemma_sum_len_prefix(q0@, k);
                assert(freed <= q0.space_stat);
            }
            let sp = self.space_stat - freed;
            let rbytes = index_to_key(rd);
            self.store.put(READ_INDEX_CELL, rbytes);
            let sbytes = index_to_key(sp);
            self.store.put(SPACE_STAT_CELL, sbytes);
            let now_empty = rd == self.write_index;
            self.read_index = rd;
            self.space_stat = sp;
            self.empty = now_empty;
            proof {
                lemma_key_round_trip();
                let s2 = self.store@;
                let lenf = len0 - k;
                if k < m {
                    lemma_ring_dist_of_add(r0, k, m);
                }
                // the new read head coincides with the write head exactly
                // when everything live was drained
                if k < len0 {
                    if len0 < m {
                        lemma_ring_dist_of_add(r0, len0, m);
                        assert(rd != w0);
                    } else {
                        assert(w0 == r0);
                        assert(rd != w0);
                    }
                    // the new read head is still live
                    lemma_ring_dist_shift(r0, k, k, m);
                    assert(q0.store@.dom().contains(ring_add_spec(r0, k, m)));
                    assert(s2.dom().contains(rd));
                } else {
                    assert(rd == w0);
                    if len0 < m {
                        assert(!q0.store@.dom().contains(rd));
                    } else {
                        assert(ring_add_spec(r0, 0, m) == rd);
                    }
                    assert(!s2.dom().contains(rd));
                }
                assert(store_derived_read(s2) == rd);
                assert(store_derived_write(s2) == w0);
                assert(ring_len_spec(rd, w0, now_empty, m) == lenf);
                // data keys: exactly the shortened arc
                assert forall|kk: u64| s2.dom().contains(kk) && kk < m implies ring_dist_spec(
                    rd,
                    kk,
                    m,
                ) < lenf by {
                    let d = ring_dist_spec(r0, kk, m);
                    crate::ring::lemma_ring_add_of_dist(r0, kk, m);
                    assert(d < len0);
                    assert forall|t: int| 0 <= t < k implies ring_add_spec(r0, t, m) != kk by {
                        lemma_ring_dist_of_add(r0, t, m);
                    }
                    assert(d >= k);
                    lemma_ring_dist_shift(r0, k, d, m);
                }
                assert forall|jj: int| 0 <= jj < lenf implies s2.dom().contains(
                    ring_add_spec(rd, jj, m),
                ) by {
                    lemma_ring_dist_shift(r0, k, k + jj, m);
                    let kk = ring_add_spec(rd, jj, m);
                    assert(kk == ring_add_spec(r0, k + jj, m));
                    assert(q0.store@.dom().contains(kk));
                    assert forall|t: int| 0 <= t < k implies ring_add_spec(r0, t, m) != kk by {
                        lemma_ring_dist_of_add(r0, t, m);
                        lemma_ring_dist_of_add(r0, k + jj, m);
                    }
                }
                // the view lost exactly its popped prefix
                assert forall|jj: int| 0 <= jj < lenf implies arc_entries(s2, rd, lenf, m)[jj]
                    == q0@.subrange(k, len0 as int)[jj] by {
                    lemma_ring_dist_shift(r0, k, k + jj, m);
                    let kk = ring_add_spec(rd, jj, m);
                    assert(kk == ring_add_spec(r0, k + jj, m));
                    lemma_ring_dist_of_add(r0, k + jj, m);
                    assert(s2.dom().contains(kk));
                    assert(s2[kk] == q0.store@[kk]);
                }
                assert(arc_entries(s2, rd, lenf, m) =~= q0@.subrange(k, len0 as int));
                // byte accounting
                assert(q0@ =~= q0@.subrange(0, k) + q0@.subrange(k, len0 as int));
                lemma_sum_len_append(q0@.subrange(0, k), q0@.subrange(k, len0 as int));
                assert(sp as int == sum_len(q0@.subrange(k, len0 as int)));
                assert(self@ == q0@.subrange(k, len0 as int));
            }
        } else {
            proof {
                assert(k == 0);
                assert(q0@.subrange(0, 0) =~= Seq::<Seq<u8>>::empty());
                assert(q0@.subrange(0, len0 as int) =~= q0@);
                assert(self.store@ =~= q0.store@);
                assert(self@ == q0@);
            }
        }
        Ok(collected)
    }
}

/// One observable operation on a bounded queue, at the level of its view:
/// the cases mirror the contracts of `push` and `pop`.
pub enum QueueOp {
    Push(Seq<Seq<u8>>),
    Pop(int),
}

/// The run of a bounded queue at the level of its view: the live entries,
/// everything popped so far, and every entry a push has accepted so far.
pub struct FifoTrace {
    pub live: Seq<Seq<u8>>,
    pub popped: Seq<Seq<u8>>,
    pub accepted: Seq<Seq<u8>>,
}

/// How one operation moves the trace, exactly as the contracts of `push`
/// and `pop` move the queue's view: a push that fits appends its batch, a
/// push that does not fit changes nothing, and a pop takes a prefix of the
/// live entries.
pub open spec fn fifo_step(t: FifoTrace, op: QueueOp, max: int) -> FifoTrace {
    match op {
        QueueOp::Push(vs) => {
            if t.live.len() + vs.len() <= max {
                FifoTrace { live: t.live + vs, popped: t.popped, accepted: t.accepted + vs }
            } else {
                t
            }
        },
        QueueOp::Pop(n) => {
            let k = if n < 0 {
                0
            } else if n <= t.live.len() {
                n
            } else {
                t.live.len() as int
            };
            FifoTrace {
                live: t.live.subrange(k, t.live.len() as int),
                popped: t.popped + t.live.subrange(0, k),
                accepted: t.accepted,
            }
        },
    }
}

/// The trace after a sequence of operations on a freshly opened queue.
pub open spec fn fifo_run(ops: Seq<QueueOp>, max: int) -> FifoTrace
    decreases ops.len(),
{
    if ops.len() == 0 {
        FifoTrace {
            live: Seq::empty(),
            popped: Seq::empty(),
            accepted: Seq::empty(),
        }
    } else {
        fifo_step(fifo_run(ops.drop_last(), max), ops.last(), max)
    }
}

/// After any sequence of pushes and pops on a freshly opened queue, the
/// entries popped so far followed by the entries still live are exactly
/// the accepted pushes in push order: pops return a prefix of the pushed
/// sequence, and their order matches push order.
pub proof fn lemma_fifo_order(ops: Seq<QueueOp>, max: int)
    ensures
        fifo_run(ops, max).accepted == fifo_run(ops, max).popped + fifo_run(ops, max).live,
    decreases ops.len(),
{
    if ops.len() == 0 {
        assert(fifo_run(ops, max).accepted =~= fifo_run(ops, max).popped + fifo_run(
            ops,
            max,
        ).live);
    } else {
        lemma_fifo_order(ops.drop_last(), max);
        let t = fifo_run(ops.drop_last(), max);
        match ops.last() {
            QueueOp::Push(vs) => {
                if t.live.len() + vs.len() <= max {
                    assert(t.accepted + vs =~= t.popped + (t.live + vs));
                }
            },
            QueueOp::Pop(n) => {
                let k = if n < 0 {
                    0
                } else if n <= t.live.len() {
                    n
                } else {
                    t.live.len() as int
                };
                assert(t.live =~= t.live.subrange(0, k) + t.live.subrange(
                    k,
                    t.live.len() as int,
                ));
                assert(t.accepted =~= (t.popped + t.live.subrange(0, k)) + t.live.subrange(
                    k,
                    t.live.len() as int,
                ));
            },
        }
    }
}

/// Closing a queue and reopening its store preserves every observable:
/// what `new` derives from the closed store is exactly what the queue
/// held, so length, payload bytes and the next entry to pop carry over.
pub proof fn lemma_reopen_preserves(q: PersistentQueueWithCapacity)
    requires
        q.inv(),
    ensures
        store_entries(q.spec_store(), q.spec_max_index()) == q@,
        store_derived_read(q.spec_store()) == q.spec_read_index(),
        store_derived_write(q.spec_store()) == q.spec_write_index(),
        cell_u64_or(q.spec_store(), SPACE_STAT_CELL, 0) == q.spec_space(),
{
}

/// Adds the byte lengths of `values` onto `base`.
fn sum_values(values: &Vec<Vec<u8>>, base: u64) -> (r: u64)
    requires
        base + sum_len(values@.map_values(|v: Vec<u8>| v@)) <= u64::MAX,
    ensures
        r as int == base + sum_len(values@.map_values(|v: Vec<u8>| v@)),
{
    let ghost vs = values@.map_values(|v: Vec<u8>| v@);
    let mut acc = base;
    let mut i: usize = 0;
    while i < values.len()
        invariant
            i <= values@.len(),
            vs == values@.map_values(|v: Vec<u8>| v@),
            acc as int == base + sum_len(vs.subrange(0, i as int)),
            base + sum_len(vs) <= u64::MAX,
        decreases values@.len() - i,
    {
        proof {
            lemma_sum_len_step(vs, i as int);
            lemma_sum_len_prefix(vs, i as int + 1);
        }
        acc = acc + values[i].len() as u64;
        i += 1;
    }
    proof {
        assert(vs.subrange(0, values@.len() as int) =~= vs);
    }
    acc
}

} // verus!
