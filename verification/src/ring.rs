//! Arithmetic on the wrapping ring of sequence indices.
//!
//! Entry keys are drawn from the half-open ring `[0, m)` for a ring bound `m`
//! that is at most [`MAX_INDEX`]; the key values above `MAX_INDEX` are
//! reserved for metadata cells.  Advancing an index increments it by one and
//! wraps to zero at the bound.

use vstd::prelude::*;

verus! {

/// Number of bytes in an encoded cell key or stored 64-bit counter.
pub const U64_BYTE_LEN: usize = 8;

/// One past the largest usable sequence index; the key values from
/// `MAX_INDEX` up to `u64::MAX` are reserved for metadata cells.
pub const MAX_INDEX: u64 = u64::MAX - 100;

/// Successor of `i` on the ring `[0, m)`.
pub open spec fn ring_next_spec(i: u64, m: u64) -> u64
    recommends
        i < m,
{
    if i + 1 == m {
        0
    } else {
        (i + 1) as u64
    }
}

/// Predecessor of `i` on the ring `[0, m)`.
pub open spec fn ring_prev_spec(i: u64, m: u64) -> u64
    recommends
        i < m,
        1 <= m,
{
    if i == 0 {
        (m - 1) as u64
    } else {
        (i - 1) as u64
    }
}

/// `i` advanced `n` steps forward on the ring `[0, m)`.
pub open spec fn ring_add_spec(i: u64, n: int, m: u64) -> u64
    recommends
        i < m,
        0 <= n <= m,
{
    if i + n < m {
        (i + n) as u64
    } else {
        (i + n - m) as u64
    }
}

/// Number of forward steps from `s` to `k` on the ring `[0, m)`,
/// exclusive of `k`; zero when the two coincide.
pub open spec fn ring_dist_spec(s: u64, k: u64, m: u64) -> int
    recommends
        s < m,
        k < m,
{
    if k >= s {
        k - s
    } else {
        m - s + k
    }
}

/// Number of live slots from `start` to `write`: zero when `empty`, the
/// whole ring when the two coincide without `empty`, the forward distance
/// otherwise.
pub open spec fn ring_len_spec(start: u64, write: u64, empty: bool, m: u64) -> int
    recommends
        start < m,
        write < m,
{
    if empty {
        0
    } else if write == start {
        m as int
    } else {
        ring_dist_spec(start, write, m)
    }
}

pub proof fn lemma_ring_add_step(i: u64, n: int, m: u64)
    requires
        i < m,
        0 <= n < m,
    ensures
        ring_add_spec(i, n + 1, m) == ring_next_spec(ring_add_spec(i, n, m), m),
{
}

pub proof fn lemma_ring_dist_of_add(i: u64, n: int, m: u64)
    requires
        i < m,
        0 <= n < m,
    ensures
        ring_add_spec(i, n, m) < m,
        ring_dist_spec(i, ring_add_spec(i, n, m), m) == n,
{
}

pub proof fn lemma_ring_add_of_dist(s: u64, k: u64, m: u64)
    requires
        s < m,
        k < m,
    ensures
        0 <= ring_dist_spec(s, k, m) < m,
        ring_add_spec(s, ring_dist_spec(s, k, m), m) == k,
{
}

pub proof fn lemma_ring_add_compose(i: u64, a: int, b: int, m: u64)
    requires
        i < m,
        0 <= a,
        0 <= b,
        a + b <= m,
    ensures
        ring_add_spec(ring_add_spec(i, a, m), b, m) == ring_add_spec(i, a + b, m),
{
}

pub proof fn lemma_ring_len_bounds(start: u64, write: u64, empty: bool, m: u64)
    requires
        start < m,
        write < m,
    ensures
        0 <= ring_len_spec(start, write, empty, m) <= m,
{
}

/// The write head sits exactly the queue length past the read head.
pub proof fn lemma_ring_write_head(start: u64, write: u64, empty: bool, m: u64)
    requires
        start < m,
        write < m,
        empty ==> write == start,
    ensures
        write == ring_add_spec(start, ring_len_spec(start, write, empty, m), m),
{
}

/// Advancing the base by `k` steps shortens the distance to a point `d`
/// steps out by exactly `k`.
pub proof fn lemma_ring_dist_shift(s: u64, k: int, d: int, m: u64)
    requires
        s < m,
        0 <= k <= d < m,
    ensures
        ring_add_spec(s, d, m) == ring_add_spec(ring_add_spec(s, k, m), d - k, m),
        ring_dist_spec(ring_add_spec(s, k, m), ring_add_spec(s, d, m), m) == d - k,
{
    lemma_ring_dist_of_add(s, k, m);
    lemma_ring_add_compose(s, k, d - k, m);
    lemma_ring_dist_of_add(ring_add_spec(s, k, m), d - k, m);
}

/// Successor on the ring whose bound is `MAX_INDEX`.
pub fn next_index(index: u64) -> (r: u64)
    requires
        index < MAX_INDEX,
    ensures
        r == ring_next_spec(index, MAX_INDEX),
        r < MAX_INDEX,
{
    let next: u64 = index + 1;
    if next == MAX_INDEX {
        0
    } else {
        next
    }
}

/// Predecessor on the ring whose bound is `MAX_INDEX`.
pub fn previous_index(index: u64) -> (r: u64)
    requires
        index < MAX_INDEX,
    ensures
        r == ring_prev_spec(index, MAX_INDEX),
        r < MAX_INDEX,
{
    if index == 0 {
        MAX_INDEX - 1
    } else {
        index - 1
    }
}

/// Successor on the ring `[0, m)`.
pub fn ring_next(i: u64, m: u64) -> (r: u64)
    requires
        i < m,
    ensures
        r == ring_next_spec(i, m),
        r < m,
{
    let next: u64 = i + 1;
    if next == m {
        0
    } else {
        next
    }
}

/// Predecessor on the ring `[0, m)`.
pub fn ring_prev(i: u64, m: u64) -> (r: u64)
    requires
        i < m,
    ensures
        r == ring_prev_spec(i, m),
        r < m,
{
    if i == 0 {
        m - 1
    } else {
        i - 1
    }
}

/// Number of live slots from `start` to `write` on the ring `[0, m)`.
pub fn ring_len(start: u64, write: u64, empty: bool, m: u64) -> (r: u64)
    requires
        start < m,
        write < m,
    ensures
        r as int == ring_len_spec(start, write, empty, m),
        r <= m,
{
    if empty {
        0
    } else if write == start {
        m
    } else if write > start {
        write - start
    } else {
        m - start + write
    }
}

} // verus!
