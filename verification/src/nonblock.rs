//! The typed operations of the non-blocking façade and the worker's
//! decision step.
//!
//! A façade submits one [`Operation`] (or [`MpmcOperation`]) at a time over
//! a bounded channel to a dedicated worker that owns the queue; the worker
//! answers each request with the matching response variant.  The decision
//! the worker makes for one request — which queue method to invoke and
//! which response to send back — is the verified step function here; the
//! channels, the thread, and the disk-size probe stay outside the library.

use vstd::prelude::*;

use crate::bounded::PersistentQueueWithCapacity;
use crate::err::QueueError;
use crate::mpmc::labels_of;
use crate::mpmc::next_spec;
use crate::mpmc::reconcile_spec;
use crate::mpmc::MpmcQueue;
use crate::mpmc::StartPosition;
use crate::ring::ring_add_spec;
use crate::ring::ring_len_spec;
use crate::store::sum_len;

verus! {

/// A request to the worker that owns a bounded queue.
pub enum Operation {
    Push(Vec<Vec<u8>>),
    Pop(usize),
    Length,
    PayloadSize,
    DiskSize,
    Stop,
}

/// The worker's answer to one bounded-queue request.
pub enum ResponseVariant {
    Push(Result<(), QueueError>),
    Pop(Result<Vec<Vec<u8>>, QueueError>),
    Length(u64),
    Size(Result<u64, QueueError>),
    Stop,
}

/// A request to the worker that owns a multi-consumer queue.
pub enum MpmcOperation {
    Add(Vec<Vec<u8>>),
    Next(usize, String, StartPosition),
    Length,
    DiskSize,
    GetLabels,
    RemoveLabel(String),
    Stop,
}

/// The worker's answer to one multi-consumer-queue request.
pub enum MpmcResponseVariant {
    Add(Result<(), QueueError>),
    Next(Result<(Vec<Vec<u8>>, bool), QueueError>),
    Length(u64),
    Size(Result<u64, QueueError>),
    GetLabels(Vec<String>),
    RemoveLabel(Result<bool, QueueError>),
    Stop,
}

/// What one add through the façade guarantees, phrased over the
/// reconciled state exactly as the queue's own contract phrases it.
pub open spec fn add_post(
    q0: MpmcQueue,
    q1: MpmcQueue,
    vs: Seq<Seq<u8>>,
    ar: Result<(), QueueError>,
) -> bool {
    let m = q0.spec_max_index();
    let rec = reconcile_spec(q0.spec_state(), m);
    if vs.len() == 0 {
        ar is Ok && q1 == q0
    } else if ring_len_spec(rec.start_index, rec.write_index, rec.empty, m) + vs.len() > m {
        (ar matches Err(e) && e == QueueError::QueueFull) && q1.spec_state() == rec
    } else {
        &&& ar is Ok
        &&& q1.spec_write_index() == ring_add_spec(rec.write_index, vs.len() as int, m)
        &&& q1.spec_start_index() == rec.start_index
        &&& q1.spec_readers() == rec.readers
        &&& q1.spec_empty() == false
    }
}

/// One worker step on a bounded queue: dispatches the request to the
/// queue and packages the typed response.  Disk-size probes are
/// filesystem work and stay with the caller.
pub fn apply_operation(q: &mut PersistentQueueWithCapacity, op: Operation) -> (r:
    ResponseVariant)
    requires
        old(q).inv(),
        !(op is DiskSize),
        op matches Operation::Push(values) ==> old(q).spec_space() + sum_len(
            values@.map_values(|v: Vec<u8>| v@),
        ) <= u64::MAX,
    ensures
        final(q).inv(),
        final(q).spec_max_index() == old(q).spec_max_index(),
        final(q).spec_max_elements() == old(q).spec_max_elements(),
        (match op {
            Operation::Push(values) => {
                let vs = values@.map_values(|v: Vec<u8>| v@);
                if vs.len() == 0 {
                    (r matches ResponseVariant::Push(pr) && pr is Ok) && *final(q) == *old(q)
                } else if old(q)@.len() + vs.len() > old(q).spec_max_elements() {
                    (r matches ResponseVariant::Push(pr) && pr matches Err(e) && e
                        == QueueError::QueueFull) && *final(q) == *old(q)
                } else {
                    (r matches ResponseVariant::Push(pr) && pr is Ok) && final(q)@ == old(q)@
                        + vs
                }
            },
            Operation::Pop(n) => {
                let k = if n as int <= old(q)@.len() {
                    n as int
                } else {
                    old(q)@.len() as int
                };
                &&& (r matches ResponseVariant::Pop(pr) && pr matches Ok(v)
                    && v@.map_values(|x: Vec<u8>| x@) == old(q)@.subrange(0, k))
                &&& final(q)@ == old(q)@.subrange(k, old(q)@.len() as int)
            },
            Operation::Length => (r matches ResponseVariant::Length(n) && n as int == old(
                q,
            )@.len()) && *final(q) == *old(q),
            Operation::PayloadSize => (r matches ResponseVariant::Size(sr) && sr matches Ok(n)
                && n as int == sum_len(old(q)@)) && *final(q) == *old(q),
            Operation::DiskSize => true,
            Operation::Stop => r == ResponseVariant::Stop && *final(q) == *old(q),
        }),
{
    match op {
        Operation::Push(values) => ResponseVariant::Push(q.push(&values)),
        Operation::Pop(n) => ResponseVariant::Pop(q.pop(n)),
        Operation::Length => ResponseVariant::Length(q.len()),
        Operation::PayloadSize => ResponseVariant::Size(Ok(q.payload_size())),
        Operation::DiskSize => {
            // excluded by the caller: the library does not probe the disk
            proof {
                assert(false);
            }
            ResponseVariant::Stop
        },
        Operation::Stop => ResponseVariant::Stop,
    }
}

/// One worker step on a multi-consumer queue.
pub fn apply_mpmc_operation(q: &mut MpmcQueue, op: MpmcOperation) -> (r: MpmcResponseVariant)
    requires
        old(q).inv(),
        !(op is DiskSize),
    ensures
        final(q).inv(),
        final(q).spec_max_index() == old(q).spec_max_index(),
        op matches MpmcOperation::Add(values) ==> (r matches MpmcResponseVariant::Add(ar)
            && add_post(*old(q), *final(q), values@.map_values(|v: Vec<u8>| v@), ar)),
        op matches MpmcOperation::Next(n, label, pos) ==> ({
            let (st2, items, exp) = next_spec(
                old(q).spec_state(),
                label@,
                pos,
                n as int,
                old(q).spec_max_index(),
            );
            &&& final(q).spec_state() == st2
            &&& (r matches MpmcResponseVariant::Next(nr) && nr matches Ok(p)
                && p.0@.map_values(|v: Vec<u8>| v@) == items && p.1 == exp)
        }),
        op is Length ==> (r matches MpmcResponseVariant::Length(n) && n as int == old(
            q,
        ).spec_len()) && *final(q) == *old(q),
        op is GetLabels ==> (r matches MpmcResponseVariant::GetLabels(ls) && labels_of(
            ls@,
            old(q).spec_readers(),
        )) && *final(q) == *old(q),
        op matches MpmcOperation::RemoveLabel(label) ==> {
            &&& (r matches MpmcResponseVariant::RemoveLabel(rr) && rr matches Ok(b) && b
                == old(q).spec_readers().dom().contains(label@))
            &&& final(q).spec_readers() == old(q).spec_readers().remove(label@)
            &&& final(q).spec_data() == old(q).spec_data()
            &&& final(q).spec_start_index() == old(q).spec_start_index()
            &&& final(q).spec_write_index() == old(q).spec_write_index()
            &&& final(q).spec_empty() == old(q).spec_empty()
        },
        op is Stop ==> r == MpmcResponseVariant::Stop && *final(q) == *old(q),
{
    match &op {
        MpmcOperation::Add(values) => MpmcResponseVariant::Add(q.add(values)),
        MpmcOperation::Next(n, label, pos) => MpmcResponseVariant::Next(
            q.next(*n, label.as_str(), *pos),
        ),
        MpmcOperation::Length => MpmcResponseVariant::Length(q.len()),
        MpmcOperation::DiskSize => {
            // excluded by the caller: the library does not probe the disk
            proof {
                assert(false);
            }
            MpmcResponseVariant::Stop
        },
        MpmcOperation::GetLabels => MpmcResponseVariant::GetLabels(q.get_labels()),
        MpmcOperation::RemoveLabel(label) => MpmcResponseVariant::RemoveLabel(
            q.remove_label(label.as_str()),
        ),
        MpmcOperation::Stop => MpmcResponseVariant::Stop,
    }
}

} // verus!
