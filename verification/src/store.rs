//! A verified model of the ordered key-value collaborator.
//!
//! The engine keeps every queue in a durable ordered map from encoded
//! 64-bit keys to byte payloads.  [`CellMap`] is that map, held as an
//! association vector with distinct keys and specified entirely through its
//! [`Map`] view.  The generic association-sequence lemmas below also serve
//! the label-keyed reader tables of the multi-consumer queue.

use vstd::prelude::*;

verus! {

/// The map denoted by an association sequence of key/value pairs; a later
/// pair with the same key shadows an earlier one.
pub open spec fn assoc_map_of<K: View, V: View>(s: Seq<(K, V)>) -> Map<K::V, V::V>
    decreases s.len(),
{
    if s.len() == 0 {
        Map::empty()
    } else {
        assoc_map_of(s.drop_last()).insert(s.last().0@, s.last().1@)
    }
}

/// No two pairs of the sequence share a key.
pub open spec fn assoc_distinct_keys<K: View, V>(s: Seq<(K, V)>) -> bool {
    forall|i: int, j: int| 0 <= i < j < s.len() ==> s[i].0@ != s[j].0@
}

pub proof fn lemma_assoc_distinct_drop_last<K: View, V>(s: Seq<(K, V)>)
    requires
        assoc_distinct_keys(s),
        s.len() > 0,
    ensures
        assoc_distinct_keys(s.drop_last()),
{
    assert forall|i: int, j: int|
        0 <= i < j < s.drop_last().len() implies s.drop_last()[i].0@ != s.drop_last()[j].0@ by {
        assert(s.drop_last()[i] == s[i]);
        assert(s.drop_last()[j] == s[j]);
    }
}

/// Every pair of a duplicate-free association sequence is visible in its map.
pub proof fn lemma_assoc_index<K: View, V: View>(s: Seq<(K, V)>, i: int)
    requires
        assoc_distinct_keys(s),
        0 <= i < s.len(),
    ensures
        assoc_map_of(s).dom().contains(s[i].0@),
        assoc_map_of(s)[s[i].0@] == s[i].1@,
    decreases s.len(),
{
    if i + 1 == s.len() {
    } else {
        lemma_assoc_distinct_drop_last(s);
        lemma_assoc_index(s.drop_last(), i);
        assert(s.drop_last()[i] == s[i]);
        assert(s[i].0@ != s.last().0@);
    }
}

/// The domain of the map is exactly the set of keys of the sequence.
pub proof fn lemma_assoc_dom<K: View, V: View>(s: Seq<(K, V)>)
    ensures
        forall|k: K::V|
            assoc_map_of(s).dom().contains(k) <==> exists|i: int|
                0 <= i < s.len() && s[i].0@ == k,
    decreases s.len(),
{
    if s.len() == 0 {
    } else {
        lemma_assoc_dom(s.drop_last());
        assert forall|k: K::V| assoc_map_of(s).dom().contains(k) implies exists|i: int|
            0 <= i < s.len() && s[i].0@ == k by {
            if k == s.last().0@ {
                assert(s[s.len() - 1].0@ == k);
            } else {
                assert(assoc_map_of(s.drop_last()).dom().contains(k));
                let i = choose|i: int|
                    0 <= i < s.drop_last().len() && s.drop_last()[i].0@ == k;
                assert(s.drop_last()[i] == s[i]);
                assert(s[i].0@ == k);
            }
        }
        assert forall|k: K::V| (exists|i: int| 0 <= i < s.len() && s[i].0@ == k)
            implies assoc_map_of(s).dom().contains(k) by {
            let i = choose|i: int| 0 <= i < s.len() && s[i].0@ == k;
            if i == s.len() - 1 {
            } else {
                assert(s.drop_last()[i] == s[i]);
                assert(exists|j: int|
                    0 <= j < s.drop_last().len() && s.drop_last()[j].0@ == k);
                assert(assoc_map_of(s.drop_last()).dom().contains(k));
            }
        }
    }
}

/// Overwriting the pair at `i` with one that carries the same key updates
/// the map at that key.
pub proof fn lemma_assoc_update<K: View, V: View>(s: Seq<(K, V)>, i: int, p: (K, V))
    requires
        assoc_distinct_keys(s),
        0 <= i < s.len(),
        p.0@ == s[i].0@,
    ensures
        assoc_map_of(s.update(i, p)) =~= assoc_map_of(s).insert(p.0@, p.1@),
        assoc_distinct_keys(s.update(i, p)),
    decreases s.len(),
{
    let t = s.update(i, p);
    assert forall|x: int, y: int| 0 <= x < y < t.len() implies t[x].0@ != t[y].0@ by {
        assert(s[x].0@ != s[y].0@);
    }
    if i == s.len() - 1 {
        assert(t.drop_last() =~= s.drop_last());
        assert(t.last() == p);
        assert(assoc_map_of(s.drop_last()).insert(s[i].0@, s[i].1@).insert(p.0@, p.1@)
            =~= assoc_map_of(s.drop_last()).insert(p.0@, p.1@));
    } else {
        lemma_assoc_distinct_drop_last(s);
        assert(t.drop_last() =~= s.drop_last().update(i, p));
        lemma_assoc_update(s.drop_last(), i, p);
        assert(t.last() == s.last());
        assert(s[i].0@ != s.last().0@);
        assert(assoc_map_of(s.drop_last()).insert(p.0@, p.1@).insert(s.last().0@, s.last().1@)
            =~= assoc_map_of(s.drop_last()).insert(s.last().0@, s.last().1@).insert(
            p.0@,
            p.1@,
        ));
    }
}

/// Appending a pair whose key is fresh inserts it into the map.
pub proof fn lemma_assoc_push<K: View, V: View>(s: Seq<(K, V)>, p: (K, V))
    requires
        assoc_distinct_keys(s),
        forall|i: int| 0 <= i < s.len() ==> s[i].0@ != p.0@,
    ensures
        assoc_map_of(s.push(p)) =~= assoc_map_of(s).insert(p.0@, p.1@),
        assoc_distinct_keys(s.push(p)),
{
    assert(s.push(p).drop_last() =~= s);
    assert(s.push(p).last() == p);
    assert forall|x: int, y: int|
        0 <= x < y < s.push(p).len() implies s.push(p)[x].0@ != s.push(p)[y].0@ by {
        if y == s.len() {
            assert(s.push(p)[x] == s[x]);
        } else {
            assert(s.push(p)[x] == s[x]);
            assert(s.push(p)[y] == s[y]);
        }
    }
}

/// Removing the pair at `i` removes its key from the map.
pub proof fn lemma_assoc_remove<K: View, V: View>(s: Seq<(K, V)>, i: int)
    requires
        assoc_distinct_keys(s),
        0 <= i < s.len(),
    ensures
        assoc_map_of(s.remove(i)) =~= assoc_map_of(s).remove(s[i].0@),
        assoc_distinct_keys(s.remove(i)),
    decreases s.len(),
{
    let t = s.remove(i);
    assert forall|x: int, y: int| 0 <= x < y < t.len() implies t[x].0@ != t[y].0@ by {
        if x < i && y < i {
            assert(t[x] == s[x] && t[y] == s[y]);
        } else if x < i {
            assert(t[x] == s[x] && t[y] == s[y + 1]);
        } else {
            assert(t[x] == s[x + 1] && t[y] == s[y + 1]);
        }
    }
    lemma_assoc_distinct_drop_last(s);
    lemma_assoc_dom(s.drop_last());
    if i == s.len() - 1 {
        assert(t =~= s.drop_last());
        assert(!assoc_map_of(s.drop_last()).dom().contains(s[i].0@));
        assert(assoc_map_of(s.drop_last()).insert(s[i].0@, s[i].1@).remove(s[i].0@)
            =~= assoc_map_of(s.drop_last()));
    } else {
        assert(t.drop_last() =~= s.drop_last().remove(i));
        assert(t.last() == s.last());
        lemma_assoc_remove(s.drop_last(), i);
        assert(s.drop_last()[i] == s[i]);
        assert(s[i].0@ != s.last().0@);
        assert(assoc_map_of(s.drop_last()).remove(s[i].0@).insert(s.last().0@, s.last().1@)
            =~= assoc_map_of(s.drop_last()).insert(s.last().0@, s.last().1@).remove(s[i].0@));
    }
}

/// The map of an association sequence is finite.
pub proof fn lemma_assoc_finite<K: View, V: View>(s: Seq<(K, V)>)
    ensures
        assoc_map_of(s).dom().finite(),
    decreases s.len(),
{
    if s.len() == 0 {
    } else {
        lemma_assoc_finite(s.drop_last());
    }
}

/// The 64-bit counter stored under `key`, or `d` where no record exists.
pub open spec fn cell_u64_or(s: Map<u64, Seq<u8>>, key: u64, d: u64) -> u64 {
    if s.dom().contains(key) {
        vstd::bytes::spec_u64_from_le_bytes(s[key])
    } else {
        d
    }
}

/// The payloads of the `len` records that follow `start` on the ring
/// `[0, m)`, in ring order.
pub open spec fn arc_entries(s: Map<u64, Seq<u8>>, start: u64, len: int, m: u64) -> Seq<Seq<u8>> {
    Seq::new(len as nat, |j: int| s[crate::ring::ring_add_spec(start, j, m)])
}

/// Total number of payload bytes across a sequence of entries.
pub open spec fn sum_len(s: Seq<Seq<u8>>) -> int
    decreases s.len(),
{
    if s.len() == 0 {
        0
    } else {
        sum_len(s.drop_last()) + s.last().len()
    }
}

/// Concatenation adds the byte totals.
pub proof fn lemma_sum_len_append(a: Seq<Seq<u8>>, b: Seq<Seq<u8>>)
    ensures
        sum_len(a + b) == sum_len(a) + sum_len(b),
    decreases b.len(),
{
    if b.len() == 0 {
        assert(a + b =~= a);
    } else {
        lemma_sum_len_append(a, b.drop_last());
        assert((a + b).drop_last() =~= a + b.drop_last());
        assert((a + b).last() == b.last());
    }
}

/// A prefix never holds more bytes than the whole.
pub proof fn lemma_sum_len_prefix(s: Seq<Seq<u8>>, k: int)
    requires
        0 <= k <= s.len(),
    ensures
        sum_len(s.subrange(0, k)) <= sum_len(s),
        sum_len(s.subrange(0, k)) >= 0,
    decreases s.len() - k,
{
    lemma_sum_len_nonneg(s.subrange(0, k));
    if k == s.len() {
        assert(s.subrange(0, k) =~= s);
    } else {
        assert(s.subrange(0, k + 1).drop_last() =~= s.subrange(0, k));
        assert(s.subrange(0, k + 1).last() == s[k]);
        lemma_sum_len_prefix(s, k + 1);
    }
}

/// Byte totals are never negative.
pub proof fn lemma_sum_len_nonneg(s: Seq<Seq<u8>>)
    ensures
        sum_len(s) >= 0,
    decreases s.len(),
{
    if s.len() > 0 {
        lemma_sum_len_nonneg(s.drop_last());
    }
}

/// Stepping a prefix forward by one entry adds that entry's length.
pub proof fn lemma_sum_len_step(s: Seq<Seq<u8>>, k: int)
    requires
        0 <= k < s.len(),
    ensures
        sum_len(s.subrange(0, k + 1)) == sum_len(s.subrange(0, k)) + s[k].len(),
{
    assert(s.subrange(0, k + 1).drop_last() =~= s.subrange(0, k));
    assert(s.subrange(0, k + 1).last() == s[k]);
}

/// Copies a byte payload into a fresh owned buffer.
pub fn clone_bytes(v: &Vec<u8>) -> (r: Vec<u8>)
    ensures
        r@ == v@,
{
    let mut r: Vec<u8> = Vec::new();
    let mut i: usize = 0;
    while i < v.len()
        invariant
            i <= v@.len(),
            r@ == v@.subrange(0, i as int),
        decreases v@.len() - i,
    {
        r.push(v[i]);
        i += 1;
    }
    proof {
        assert(r@ =~= v@);
    }
    r
}

/// The single-namespace store of one queue: an ordered map from 64-bit
/// keys to byte payloads, as the key-value collaborator keeps it on disk.
pub struct CellMap {
    entries: Vec<(u64, Vec<u8>)>,
}

impl View for CellMap {
    type V = Map<u64, Seq<u8>>;

    closed spec fn view(&self) -> Map<u64, Seq<u8>> {
        assoc_map_of(self.entries@)
    }
}

impl CellMap {
    /// The store never holds two records under one key.
    pub closed spec fn inv(self) -> bool {
        assoc_distinct_keys(self.entries@)
    }

    /// The store holds finitely many records.
    pub proof fn lemma_view_finite(self)
        ensures
            self@.dom().finite(),
    {
        lemma_assoc_finite(self.entries@);
    }

    /// A fresh store with no records.
    pub fn new() -> (s: Self)
        ensures
            s.inv(),
            s@ =~= Map::<u64, Seq<u8>>::empty(),
    {
        CellMap { entries: Vec::new() }
    }

    /// Position of the record under `key`, if one exists.
    fn find(&self, key: u64) -> (r: Option<usize>)
        requires
            self.inv(),
        ensures
            match r {
                Some(i) => i < self.entries@.len() && self.entries@[i as int].0 == key,
                None => forall|j: int|
                    0 <= j < self.entries@.len() ==> self.entries@[j].0 != key,
            },
    {
        let n = self.entries.len();
        let mut i: usize = 0;
        while i < n
            invariant
                i <= n,
                n == self.entries@.len(),
                forall|j: int| 0 <= j < i ==> self.entries@[j].0 != key,
            decreases n - i,
        {
            if self.entries[i].0 == key {
                return Some(i);
            }
            i += 1;
        }
        None
    }

    /// Point lookup; hands back a copy of the payload under `key`.
    pub fn get(&self, key: u64) -> (r: Option<Vec<u8>>)
        requires
            self.inv(),
        ensures
            match r {
                Some(v) => self@.dom().contains(key) && v@ == self@[key],
                None => !self@.dom().contains(key),
            },
    {
        match self.find(key) {
            Some(i) => {
                proof {
                    lemma_assoc_index(self.entries@, i as int);
                }
                Some(clone_bytes(&self.entries[i].1))
            },
            None => {
                proof {
                    lemma_assoc_dom(self.entries@);
                }
                None
            },
        }
    }

    /// Whether a record exists under `key`.
    pub fn contains(&self, key: u64) -> (r: bool)
        requires
            self.inv(),
        ensures
            r == self@.dom().contains(key),
    {
        match self.find(key) {
            Some(i) => {
                proof {
                    lemma_assoc_index(self.entries@, i as int);
                }
                true
            },
            None => {
                proof {
                    lemma_assoc_dom(self.entries@);
                }
                false
            },
        }
    }

    /// Writes `value` under `key`, replacing any previous record.
    pub fn put(&mut self, key: u64, value: Vec<u8>)
        requires
            old(self).inv(),
        ensures
            final(self).inv(),
            final(self)@ == old(self)@.insert(key, value@),
    {
        match self.find(key) {
            Some(i) => {
                proof {
                    lemma_assoc_update(self.entries@, i as int, (key, value));
                }
                self.entries.set(i, (key, value));
            },
            None => {
                proof {
                    lemma_assoc_push(self.entries@, (key, value));
                }
                self.entries.push((key, value));
            },
        }
    }

    /// Deletes the record under `key`, if one exists.
    pub fn del(&mut self, key: u64)
        requires
            old(self).inv(),
        ensures
            final(self).inv(),
            final(self)@ == old(self)@.remove(key),
    {
        match self.find(key) {
            Some(i) => {
                proof {
                    lemma_assoc_remove(self.entries@, i as int);
                }
                let _ = self.entries.remove(i);
            },
            None => {
                proof {
                    lemma_assoc_dom(self.entries@);
                    assert(self@.remove(key) =~= self@);
                }
            },
        }
    }

    /// Whether the store holds no record at all.
    pub fn is_empty(&self) -> (r: bool)
        requires
            self.inv(),
        ensures
            r == (self@.dom() =~= Set::<u64>::empty()),
    {
        proof {
            lemma_assoc_dom(self.entries@);
            if self.entries@.len() > 0 {
                assert(self@.dom().contains(self.entries@[0].0));
            }
        }
        self.entries.len() == 0
    }

    /// The smallest key of the store, if any record exists.
    pub fn min_key(&self) -> (r: Option<u64>)
        requires
            self.inv(),
        ensures
            match r {
                Some(k) => self@.dom().contains(k) && forall|j: u64|
                    self@.dom().contains(j) ==> k <= j,
                None => self@.dom() =~= Set::<u64>::empty(),
            },
    {
        proof {
            lemma_assoc_dom(self.entries@);
        }
        let n = self.entries.len();
        if n == 0 {
            return None;
        }
        let mut best: u64 = self.entries[0].0;
        let mut i: usize = 1;
        while i < n
            invariant
                1 <= i <= n,
                n == self.entries@.len(),
                exists|j: int| 0 <= j < i && self.entries@[j].0 == best,
                forall|j: int| 0 <= j < i ==> best <= self.entries@[j].0,
            decreases n - i,
        {
            if self.entries[i].0 < best {
                best = self.entries[i].0;
            }
            i += 1;
        }
        proof {
            assert forall|k: u64| self@.dom().contains(k) implies best <= k by {
                let jj = choose|jj: int| 0 <= jj < n && self.entries@[jj].0 == k;
                assert(best <= self.entries@[jj].0);
            }
        }
        Some(best)
    }

    /// The smallest key that is at least `lo`, if any such record exists.
    pub fn min_key_at_or_after(&self, lo: u64) -> (r: Option<u64>)
        requires
            self.inv(),
        ensures
            match r {
                Some(k) => self@.dom().contains(k) && lo <= k && forall|j: u64|
                    self@.dom().contains(j) && j >= lo ==> k <= j,
                None => forall|j: u64| self@.dom().contains(j) ==> j < lo,
            },
    {
        proof {
            lemma_assoc_dom(self.entries@);
        }
        let n = self.entries.len();
        let mut found: bool = false;
        let mut best: u64 = 0;
        let mut i: usize = 0;
        while i < n
            invariant
                i <= n,
                n == self.entries@.len(),
                found ==> lo <= best && exists|j: int| 0 <= j < i && self.entries@[j].0 == best,
                found ==> forall|j: int|
                    0 <= j < i && self.entries@[j].0 >= lo ==> best <= self.entries@[j].0,
                !found ==> forall|j: int| 0 <= j < i ==> self.entries@[j].0 < lo,
            decreases n - i,
        {
            let k = self.entries[i].0;
            if k >= lo && (!found || k < best) {
                found = true;
                best = k;
            }
            i += 1;
        }
        if found {
            proof {
                assert forall|j: u64| self@.dom().contains(j) && j >= lo implies best <= j by {
                    let jj = choose|jj: int| 0 <= jj < n && self.entries@[jj].0 == j;
                    assert(best <= self.entries@[jj].0);
                }
            }
            Some(best)
        } else {
            proof {
                assert forall|j: u64| self@.dom().contains(j) implies j < lo by {
                    let jj = choose|jj: int| 0 <= jj < n && self.entries@[jj].0 == j;
                    assert(self.entries@[jj].0 < lo);
                }
            }
            None
        }
    }
}

} // verus!
