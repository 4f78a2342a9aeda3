//! Dispatch Throttle and bulk framing: records accumulate in a bounded
//! batch; a full batch is framed as one bulk body for the sink, and a new
//! dispatch is admitted only while fewer dispatches are in flight than the
//! configured concurrency limit.

use vstd::prelude::*;
use crate::record::{encode_record, record_bytes, Record};

verus! {

/// Backpressure decision: a batch may be handed to the worker pool exactly
/// when the number of dispatches in flight is below the limit. The caller
/// otherwise waits briefly and asks again.
pub fn dispatch_admitted(in_flight: usize, limit: usize) -> (r: bool)
    ensures
        r == (in_flight < limit),
{
    in_flight < limit
}

/// The action line `{"index":{}}` of the bulk protocol, newline-terminated.
pub open spec fn index_line() -> Seq<u8> {
    seq![123u8, 34u8, 105u8, 110u8, 100u8, 101u8, 120u8, 34u8, 58u8, 123u8, 125u8, 125u8, 10u8]
}

/// The bulk body of a batch: for each record the action line, then the
/// record's wire line, newline-terminated.
pub open spec fn bulk_bytes(rs: Seq<Record>) -> Seq<u8>
    decreases rs.len(),
{
    if rs.len() == 0 {
        Seq::empty()
    } else {
        bulk_bytes(rs.drop_last()) + index_line() + record_bytes(rs.last()) + seq![10u8]
    }
}

/// Frame a batch of records as one bulk body.
pub fn encode_bulk(records: &Vec<Record>) -> (out: Vec<u8>)
    requires
        forall|i: int| 0 <= i < records@.len() ==> (#[trigger] records@[i]).hour.wf(),
    ensures
        out@ == bulk_bytes(records@),
{
    let mut out: Vec<u8> = Vec::new();
    let mut i: usize = 0;
    while i < records.len()
        invariant
            i <= records@.len(),
            forall|j: int| 0 <= j < records@.len() ==> (#[trigger] records@[j]).hour.wf(),
            out@ == bulk_bytes(records@.subrange(0, i as int)),
        decreases records@.len() - i,
    {
        let ghost gpre = out@;
        out.push(123);
        out.push(34);
        out.push(105);
        out.push(110);
        out.push(100);
        out.push(101);
        out.push(120);
        out.push(34);
        out.push(58);
        out.push(123);
        out.push(125);
        out.push(125);
        out.push(10);
        proof {
            assert(out@ =~= gpre + index_line());
        }
        let mut line = encode_record(&records[i]);
        out.append(&mut line);
        out.push(10);
        proof {
            let sub1 = records@.subrange(0, i + 1 as int);
            assert(sub1.drop_last() =~= records@.subrange(0, i as int));
            assert(sub1.last() == records@[i as int]);
            assert(out@ =~= bulk_bytes(sub1.drop_last()) + index_line() + record_bytes(sub1.last())
                + seq![10u8]);
        }
        i = i + 1;
    }
    proof {
        assert(records@.subrange(0, records@.len() as int) =~= records@);
    }
    out
}

/// An in-progress batch of records, bounded by its configured capacity.
pub struct Batch {
    pub capacity: usize,
    pub records: Vec<Record>,
}

impl Batch {
    pub fn new(capacity: usize) -> (b: Batch)
        ensures
            b.capacity == capacity,
            b.records@.len() == 0,
    {
        Batch { capacity, records: Vec::new() }
    }

    /// Append one record; the result says whether the batch has reached its
    /// capacity and must be handed off.
    pub fn push(&mut self, r: Record) -> (full: bool)
        ensures
            final(self).capacity == old(self).capacity,
            final(self).records@ == old(self).records@.push(r),
            full == (final(self).records@.len() >= final(self).capacity),
    {
        self.records.push(r);
        self.records.len() >= self.capacity
    }

    /// Hand the accumulated records out, leaving the batch empty for the
    /// next bulk.
    pub fn take(&mut self) -> (rs: Vec<Record>)
        ensures
            final(self).capacity == old(self).capacity,
            final(self).records@.len() == 0,
            rs@ == old(self).records@,
    {
        let rs = self.records.split_off(0);
        proof {
            assert(rs@ =~= old(self).records@);
            assert(self.records@ =~= old(self).records@.subrange(0, 0));
        }
        rs
    }
}

} // verus!
