//! The worker's side of the progress protocol.
//!
//! A worker owns one live byte range. For every fragment received from the
//! remote it advances `start` by the number of bytes it consumed, reports
//! that count, and adopts the end offset the coordinator replies with. The
//! coordinator only ever shrinks a range, so over any run of the protocol
//! the worker's `end` is monotonically non-increasing and `start` never
//! passes `end`.

use vstd::prelude::*;
use crate::range::ByteRange;

verus! {

/// Why a worker stopped without finishing its range.
#[derive(Clone, Copy, Debug, PartialEq, Eq, Structural)]
pub enum WorkerError {
    /// The remote stream ended before the range was fully received.
    PrematureEof,
    /// The transport failed while streaming.
    Network,
    /// A positional write to the output file failed.
    Write,
    /// The coordinator is gone; no reply to a progress report will come.
    ProgressChannelClosed,
}

/// One step of the protocol as seen by a worker: a data fragment of a given
/// length arrived, or the coordinator replied with a new end offset.
#[derive(Clone, Copy, Debug, PartialEq, Eq, Structural)]
pub enum WorkerEvent {
    Fragment(u64),
    Reply(u64),
}

/// A worker task: the byte range it still has to fill.
#[derive(Clone, Copy, Debug, PartialEq, Eq, Structural)]
pub struct Worker {
    pub range: ByteRange,
}

/// The state a worker reaches after one event.
pub open spec fn worker_step(w: Worker, e: WorkerEvent) -> Worker {
    match e {
        WorkerEvent::Fragment(len) => {
            if len <= w.range.spec_len() {
                Worker { range: ByteRange { start: (w.range.start + len) as u64, end: w.range.end } }
            } else {
                Worker { range: ByteRange { start: w.range.end, end: w.range.end } }
            }
        }
        WorkerEvent::Reply(new_end) => {
            if new_end >= w.range.start {
                Worker { range: ByteRange { start: w.range.start, end: new_end } }
            } else {
                // The remainder of the range was handed to another task
                // while this report was in flight; nothing is left to do.
                Worker { range: ByteRange { start: w.range.start, end: w.range.start } }
            }
        }
    }
}

/// The state a worker reaches after a whole trace of events.
pub open spec fn worker_run(w: Worker, es: Seq<WorkerEvent>) -> Worker
    decreases es.len(),
{
    if es.len() == 0 {
        w
    } else {
        worker_run(worker_step(w, es[0]), es.subrange(1, es.len() as int))
    }
}

/// The coordinator never replies with an end offset beyond the one the
/// worker currently holds.
pub open spec fn reply_ok(w: Worker, e: WorkerEvent) -> bool {
    match e {
        WorkerEvent::Fragment(_) => true,
        WorkerEvent::Reply(new_end) => new_end <= w.range.end,
    }
}

/// Every reply in the trace respects the end offset current when it arrives.
pub open spec fn valid_replies(w: Worker, es: Seq<WorkerEvent>) -> bool
    decreases es.len(),
{
    es.len() == 0 || (reply_ok(w, es[0]) && valid_replies(worker_step(w, es[0]), es.subrange(1, es.len() as int)))
}

impl Worker {
    pub open spec fn wf(self) -> bool {
        self.range.wf()
    }

    pub fn new(range: ByteRange) -> (w: Worker)
        requires
            range.wf(),
        ensures
            w.range == range,
            w.wf(),
    {
        Worker { range }
    }

    /// The range is filled once `start` has reached `end`.
    pub fn done(&self) -> (b: bool)
        requires
            self.wf(),
        ensures
            b <==> self.range.spec_len() == 0,
    {
        self.range.start == self.range.end
    }

    /// A fragment of `len` bytes arrived and was written at offset `start`.
    /// Consume at most the bytes still missing and advance `start` past them.
    pub fn on_fragment(&mut self, len: u64) -> (consumed: u64)
        requires
            old(self).wf(),
        ensures
            *final(self) == worker_step(*old(self), WorkerEvent::Fragment(len)),
            consumed == if len <= old(self).range.spec_len() { len as int } else { old(self).range.spec_len() },
            final(self).range.start == old(self).range.start + consumed,
            final(self).range.end == old(self).range.end,
            final(self).wf(),
    {
        let room = self.range.end - self.range.start;
        let consumed = if len <= room { len } else { room };
        self.range.start = self.range.start + consumed;
        consumed
    }

    /// Adopt the end offset from the coordinator's progress reply. The
    /// coordinator only shrinks ranges, so the reply never exceeds the
    /// current `end`.
    pub fn on_reply(&mut self, new_end: u64)
        requires
            old(self).wf(),
            new_end <= old(self).range.end,
        ensures
            *final(self) == worker_step(*old(self), WorkerEvent::Reply(new_end)),
            final(self).range.start == old(self).range.start,
            final(self).range.end <= old(self).range.end,
            final(self).wf(),
    {
        if new_end >= self.range.start {
            self.range.end = new_end;
        } else {
            self.range.end = self.range.start;
        }
    }

    /// The remote stream ended: that is fine exactly when nothing is missing.
    pub fn check_eof(&self) -> (r: Result<(), WorkerError>)
        requires
            self.wf(),
        ensures
            r is Ok <==> self.range.spec_len() == 0,
            r is Err ==> r == Result::<(), WorkerError>::Err(WorkerError::PrematureEof),
    {
        if self.range.start == self.range.end {
            Ok(())
        } else {
            Err(WorkerError::PrematureEof)
        }
    }
}

/// Running a trace in two pieces is the same as running it whole.
proof fn lemma_worker_run_append(w: Worker, es1: Seq<WorkerEvent>, es2: Seq<WorkerEvent>)
    ensures
        worker_run(w, es1 + es2) == worker_run(worker_run(w, es1), es2),
    decreases es1.len(),
{
    if es1.len() == 0 {
        assert(es1 + es2 =~= es2);
    } else {
        let w1 = worker_step(w, es1[0]);
        assert((es1 + es2)[0] == es1[0]);
        assert((es1 + es2).subrange(1, (es1 + es2).len() as int)
            =~= es1.subrange(1, es1.len() as int) + es2);
        lemma_worker_run_append(w1, es1.subrange(1, es1.len() as int), es2);
    }
}

/// A trace whose replies are all admissible stays admissible on any prefix,
/// and the suffix is admissible from where the prefix leaves off.
proof fn lemma_valid_replies_split(w: Worker, es: Seq<WorkerEvent>, i: int)
    requires
        valid_replies(w, es),
        0 <= i <= es.len(),
    ensures
        valid_replies(w, es.take(i)),
        valid_replies(worker_run(w, es.take(i)), es.subrange(i, es.len() as int)),
    decreases i,
{
    if i == 0 {
        assert(es.take(0) =~= Seq::<WorkerEvent>::empty());
        assert(es.subrange(0, es.len() as int) =~= es);
    } else {
        let w1 = worker_step(w, es[0]);
        let rest = es.subrange(1, es.len() as int);
        lemma_valid_replies_split(w1, rest, i - 1);
        assert(es.take(i)[0] == es[0]);
        assert(es.take(i).subrange(1, i) =~= rest.take(i - 1));
        assert(worker_run(w, es.take(i)) == worker_run(w1, rest.take(i - 1)));
        assert(es.subrange(i, es.len() as int) =~= rest.subrange(i - 1, rest.len() as int));
    }
}

/// Over an admissible trace the worker stays well-formed, its `end` never
/// grows and its `start` never retreats.
proof fn lemma_worker_run_monotone(w: Worker, es: Seq<WorkerEvent>)
    requires
        w.wf(),
        valid_replies(w, es),
    ensures
        worker_run(w, es).wf(),
        worker_run(w, es).range.end <= w.range.end,
        worker_run(w, es).range.start >= w.range.start,
    decreases es.len(),
{
    if es.len() > 0 {
        let w1 = worker_step(w, es[0]);
        assert(w1.wf());
        lemma_worker_run_monotone(w1, es.subrange(1, es.len() as int));
    }
}

/// Across any admissible trace of fragments and progress replies, the end
/// offsets a worker holds are monotonically non-increasing, and `start`
/// never passes `end`: every state the worker reaches is well-formed.
pub proof fn lemma_worker_trace_monotone(w: Worker, es: Seq<WorkerEvent>, i: int, j: int)
    requires
        w.wf(),
        valid_replies(w, es),
        0 <= i <= j <= es.len(),
    ensures
        worker_run(w, es.take(i)).wf(),
        worker_run(w, es.take(j)).range.end <= worker_run(w, es.take(i)).range.end,
        worker_run(w, es.take(j)).range.start >= worker_run(w, es.take(i)).range.start,
{
    lemma_valid_replies_split(w, es, i);
    lemma_worker_run_monotone(w, es.take(i));
    let wi = worker_run(w, es.take(i));
    let mid = es.subrange(i, es.len() as int);
    lemma_valid_replies_split(wi, mid, j - i);
    assert(es.take(j) =~= es.take(i) + mid.take(j - i));
    lemma_worker_run_append(w, es.take(i), mid.take(j - i));
    lemma_worker_run_monotone(wi, mid.take(j - i));
}

} // verus!
