//! The coordinator of the parallel download.
//!
//! One task slot per worker holds the byte range that worker still owns. The
//! coordinator absorbs progress reports (advancing the slot's `start` and
//! replying with its current `end`), reacts to a worker's completion by
//! splitting the largest live range in two and handing the second half to
//! the freed slot, respawns a failed worker on its unfinished range while
//! the retry budget lasts, and on shutdown reports the non-empty slots as
//! the residual to persist.
//!
//! Throughout, two facts are maintained: the live ranges are pairwise
//! disjoint and lie inside `[0, size)`, and every byte of `[0, size)` is
//! either still owned by a live slot or has already been written to the
//! output file (double counting is possible only between the two sides,
//! never between two live slots).

use vstd::prelude::*;
use crate::range::ByteRange;
use crate::range::split_range;
use crate::range::total_len;
use crate::range::nonempty_ranges;
use crate::range::lemma_total_len_update;
use crate::range::lemma_total_len_nonneg;
use crate::range::lemma_total_len_zero;
use crate::range::lemma_total_len_filter;
use crate::range::lemma_total_len_push;

verus! {

/// Two ranges share no offset.
pub open spec fn ranges_disjoint(a: ByteRange, b: ByteRange) -> bool {
    a.end <= b.start || b.end <= a.start
}

/// Some range in the list covers offset `o`.
pub open spec fn covers(rs: Seq<ByteRange>, o: int) -> bool {
    exists|i: int| 0 <= i < rs.len() && (#[trigger] rs[i]).start <= o < rs[i].end
}

/// The offsets in `[a, b)`.
pub open spec fn interval_set(a: int, b: int) -> Set<int> {
    Set::new(|o: int| a <= o < b)
}

/// The slot a progress report of `bytes` bytes leaves behind: `start`
/// advances by the reported count but never past `end` (a report may exceed
/// the slot after the range was shrunk behind the worker's back; the excess
/// bytes belong to another slot by then).
pub open spec fn progressed(r: ByteRange, bytes: u64) -> ByteRange {
    if bytes <= r.spec_len() {
        ByteRange { start: (r.start + bytes) as u64, end: r.end }
    } else {
        ByteRange { start: r.end, end: r.end }
    }
}

/// The index `max_by_key(end - start)` settles on: the last slot of maximal
/// length.
pub open spec fn last_largest(rs: Seq<ByteRange>) -> int
    decreases rs.len(),
{
    if rs.len() <= 1 {
        0
    } else {
        let m = last_largest(rs.drop_last());
        if rs.last().spec_len() >= rs[m].spec_len() {
            rs.len() - 1
        } else {
            m
        }
    }
}

/// An instruction to the caller: start a worker on `range` under slot
/// `task_id`.
#[derive(Clone, Copy, Debug, PartialEq, Eq, Structural)]
pub struct SpawnOrder {
    pub task_id: usize,
    pub range: ByteRange,
}

pub struct Scheduler {
    pub task_ranges: Vec<ByteRange>,
    pub error_count: u64,
    pub max_errors: u64,
    pub min_chunk: u64,
    pub size: u64,
    /// The offsets already handed to a positional write, as reported by the
    /// workers. Kept only for the coverage argument; it costs nothing at
    /// run time.
    pub written: Ghost<Set<int>>,
}

impl Scheduler {
    /// The live slots are well-formed, bounded by the artifact size,
    /// pairwise disjoint, and together hold no more bytes than the artifact.
    pub open spec fn ranges_wf(self) -> bool {
        &&& forall|i: int| 0 <= i < self.task_ranges@.len()
            ==> (#[trigger] self.task_ranges@[i]).wf() && self.task_ranges@[i].end <= self.size
        &&& forall|i: int, j: int| 0 <= i < j < self.task_ranges@.len()
            ==> ranges_disjoint(#[trigger] self.task_ranges@[i], #[trigger] self.task_ranges@[j])
        &&& total_len(self.task_ranges@) <= self.size
    }

    /// Every byte of the artifact is still owned by a live slot or has
    /// already been written; nothing outside the artifact is ever written.
    pub open spec fn coverage_ok(self) -> bool {
        &&& forall|o: int| 0 <= o < self.size
            ==> covers(self.task_ranges@, o) || self.written@.contains(o)
        &&& forall|o: int| self.written@.contains(o) ==> 0 <= o < self.size
    }

    pub open spec fn wf(self) -> bool {
        &&& self.ranges_wf()
        &&& self.coverage_ok()
        &&& self.error_count <= self.max_errors
        &&& self.min_chunk >= 1
    }

    /// Start coordinating the given initial slots: one worker per slot, no
    /// errors seen yet, and everything the slots do not cover counted as
    /// already written (on a resumed run those bytes arrived earlier).
    pub fn new(chunks: Vec<ByteRange>, size: u64, max_errors: u64, min_chunk: u64) -> (s: Scheduler)
        requires
            min_chunk >= 1,
            forall|i: int| 0 <= i < chunks@.len()
                ==> (#[trigger] chunks@[i]).wf() && chunks@[i].end <= size,
            forall|i: int, j: int| 0 <= i < j < chunks@.len()
                ==> ranges_disjoint(#[trigger] chunks@[i], #[trigger] chunks@[j]),
            total_len(chunks@) <= size,
        ensures
            s.wf(),
            s.task_ranges@ == chunks@,
            s.error_count == 0,
            s.max_errors == max_errors,
            s.min_chunk == min_chunk,
            s.size == size,
            forall|o: int| s.written@.contains(o) <==> (0 <= o < size && !covers(chunks@, o)),
    {
        let ghost written0 = Set::new(|o: int| 0 <= o < size && !covers(chunks@, o));
        Scheduler {
            task_ranges: chunks,
            error_count: 0,
            max_errors,
            min_chunk,
            size,
            written: Ghost(written0),
        }
    }

    pub fn num_tasks(&self) -> (n: usize)
        ensures
            n == self.task_ranges@.len(),
    {
        self.task_ranges.len()
    }

    pub fn range_of(&self, task_id: usize) -> (r: ByteRange)
        requires
            task_id < self.task_ranges@.len(),
        ensures
            r == self.task_ranges@[task_id as int],
    {
        self.task_ranges[task_id]
    }

    /// Absorb a progress report: slot `task_id` advances by `bytes`, and the
    /// reply carries the slot's current end offset — the sole channel by
    /// which a mid-run split reaches the running worker.
    pub fn on_progress(&mut self, task_id: usize, bytes: u64) -> (end: u64)
        requires
            old(self).wf(),
            task_id < old(self).task_ranges@.len(),
        ensures
            final(self).wf(),
            end == old(self).task_ranges@[task_id as int].end,
            final(self).task_ranges@ == old(self).task_ranges@.update(
                task_id as int,
                progressed(old(self).task_ranges@[task_id as int], bytes),
            ),
            final(self).error_count == old(self).error_count,
            final(self).max_errors == old(self).max_errors,
            final(self).min_chunk == old(self).min_chunk,
            final(self).size == old(self).size,
            total_len(final(self).task_ranges@) == total_len(old(self).task_ranges@)
                - old(self).task_ranges@[task_id as int].spec_len()
                + progressed(old(self).task_ranges@[task_id as int], bytes).spec_len(),
            final(self).written@ == old(self).written@.union(interval_set(
                old(self).task_ranges@[task_id as int].start as int,
                progressed(old(self).task_ranges@[task_id as int], bytes).start as int,
            )),
    {
        let ghost pre = *self;
        let r = self.task_ranges[task_id];
        let room = r.end - r.start;
        let new_start = if bytes <= room { r.start + bytes } else { r.end };
        let nr = ByteRange { start: new_start, end: r.end };
        self.task_ranges[task_id] = nr;
        self.written = Ghost(self.written@.union(interval_set(r.start as int, new_start as int)));
        proof {
            let rs = pre.task_ranges@;
            let tid = task_id as int;
            lemma_total_len_update(rs, tid, nr);
            assert forall|i: int, j: int| 0 <= i < j < self.task_ranges@.len()
                implies ranges_disjoint(
                    #[trigger] self.task_ranges@[i],
                    #[trigger] self.task_ranges@[j],
                ) by {
                assert(ranges_disjoint(rs[i], rs[j]));
            };
            assert forall|o: int| 0 <= o < self.size
                implies covers(self.task_ranges@, o) || self.written@.contains(o) by {
                if covers(rs, o) {
                    let i = choose|i: int| 0 <= i < rs.len()
                        && (#[trigger] rs[i]).start <= o < rs[i].end;
                    if i == tid {
                        if o < new_start {
                            assert(self.written@.contains(o));
                        } else {
                            assert(self.task_ranges@[tid].start <= o < self.task_ranges@[tid].end);
                        }
                    } else {
                        assert(self.task_ranges@[i].start <= o < self.task_ranges@[i].end);
                    }
                }
            };
        }
        r.end
    }

    /// What a successful completion of slot `task_id` does: with the retry
    /// budget exhausted nothing new starts (the survivors drain); a slot
    /// reported complete while bytes remain in it is handed straight back
    /// out; otherwise the last largest live slot is split at some cut at
    /// least `min_chunk` past its start, the victim keeps the first half —
    /// its worker learns the shorter end with its next progress reply — and
    /// the freed slot restarts on the second half. A largest slot that is
    /// empty means the download is done; one shorter than `2 * min_chunk` is
    /// not worth splitting.
    pub open spec fn success_decision(
        pre: Scheduler,
        post: Scheduler,
        tid: int,
        order: Option<SpawnOrder>,
    ) -> bool {
        let rs = pre.task_ranges@;
        if pre.error_count >= pre.max_errors {
            post.task_ranges@ == rs && order is None
        } else if rs[tid].spec_len() > 0 {
            post.task_ranges@ == rs && order == Some(SpawnOrder {
                task_id: tid as usize,
                range: rs[tid],
            })
        } else {
            let m = last_largest(rs);
            if rs[m].spec_len() == 0 {
                post.task_ranges@ == rs && order is None
            } else if rs[m].spec_len() < 2 * pre.min_chunk {
                post.task_ranges@ == rs && order is None
            } else {
                // The cut point: where the victim's shortened range now ends.
                let mid = post.task_ranges@[m].end;
                &&& rs[m].start + pre.min_chunk <= mid < rs[m].end
                &&& post.task_ranges@ == rs.update(
                    m,
                    ByteRange { start: rs[m].start, end: mid },
                ).update(tid, ByteRange { start: mid, end: rs[m].end })
                &&& order == Some(SpawnOrder {
                    task_id: tid as usize,
                    range: ByteRange { start: mid, end: rs[m].end },
                })
            }
        }
    }

    /// A worker finished its range. Split the largest live range and restart
    /// the freed slot on the second half, unless the download is complete,
    /// the largest range is too small to split, or retries are exhausted.
    pub fn on_success(&mut self, task_id: usize) -> (order: Option<SpawnOrder>)
        requires
            old(self).wf(),
            task_id < old(self).task_ranges@.len(),
        ensures
            final(self).wf(),
            Self::success_decision(*old(self), *final(self), task_id as int, order),
            final(self).task_ranges@.len() == old(self).task_ranges@.len(),
            final(self).error_count == old(self).error_count,
            final(self).max_errors == old(self).max_errors,
            final(self).min_chunk == old(self).min_chunk,
            final(self).size == old(self).size,
            final(self).written@ == old(self).written@,
            total_len(final(self).task_ranges@) == total_len(old(self).task_ranges@),
            order matches Some(o) ==> o.task_id == task_id
                && o.task_id < final(self).task_ranges@.len()
                && o.range == final(self).task_ranges@[o.task_id as int],
    {
        let ghost pre = *self;
        if self.error_count >= self.max_errors {
            return None;
        }
        let r_tid = self.task_ranges[task_id];
        if r_tid.start != r_tid.end {
            return Some(SpawnOrder { task_id, range: r_tid });
        }

        // The last slot of maximal length, as `max_by_key` would pick it.
        let n = self.task_ranges.len();
        let mut m: usize = 0;
        let mut i: usize = 1;
        while i < n
            invariant
                n == self.task_ranges@.len(),
                n >= 1,
                1 <= i <= n,
                0 <= m < i,
                self.wf(),
                m == last_largest(self.task_ranges@.take(i as int)),
            decreases n - i,
        {
            let ghost rs = self.task_ranges@;
            let cur = self.task_ranges[i];
            let best = self.task_ranges[m];
            proof {
                assert(rs.take(i + 1).drop_last() =~= rs.take(i as int));
                assert(rs.take(i + 1).last() == rs[i as int]);
                assert(rs.take(i + 1)[m as int] == rs[m as int]);
            }
            if cur.end - cur.start >= best.end - best.start {
                m = i;
            }
            i = i + 1;
        }
        proof {
            assert(self.task_ranges@.take(n as int) =~= self.task_ranges@);
        }

        let largest = self.task_ranges[m];
        if largest.start == largest.end {
            // Nothing is left anywhere: the download is complete.
            return None;
        }

        let parts = split_range(largest, 2, self.min_chunk);
        if parts.len() < 2 {
            // The largest live range is too small to be worth splitting.
            assert(largest.spec_len() < 2 * self.min_chunk);
            return None;
        }

        let first = parts[0];
        let second = parts[1];
        self.task_ranges[m] = first;
        self.task_ranges[task_id] = second;
        proof {
            let rs = pre.task_ranges@;
            let tid = task_id as int;
            let mi = m as int;
            let mid = first.end;
            assert(parts@.len() == 2);
            assert(rs[mi].wf());
            assert(rs[mi].spec_len() > 0);
            assert(parts@[0].spec_len() >= pre.min_chunk);
            assert(parts@[0].wf());
            assert(parts@[1].wf());
            assert(parts@[1].spec_len() > 0);
            assert(parts@[0].start == rs[mi].start);
            assert(parts@[0].end == parts@[1].start);
            assert(parts@[1].end == rs[mi].end);
            assert(second.start == mid && second.end == rs[mi].end);
            assert(first.start == rs[mi].start);
            assert(rs[mi].start + pre.min_chunk <= mid < rs[mi].end);
            assert(mi != tid);
            assert(self.task_ranges@ == rs.update(mi, first).update(tid, second));
            lemma_total_len_update(rs, mi, first);
            lemma_total_len_update(rs.update(mi, first), tid, second);
            assert(rs.update(mi, first)[tid] == rs[tid]);
            // Disjointness: both halves lie inside the old victim range.
            assert forall|i2: int, j2: int| 0 <= i2 < j2 < self.task_ranges@.len()
                implies ranges_disjoint(
                    #[trigger] self.task_ranges@[i2],
                    #[trigger] self.task_ranges@[j2],
                ) by {
                assert(ranges_disjoint(rs[i2], rs[j2]));
                if (i2 == mi || i2 == tid) && j2 != mi && j2 != tid {
                    if mi < j2 {
                        assert(ranges_disjoint(rs[mi], rs[j2]));
                    } else {
                        assert(ranges_disjoint(rs[j2], rs[mi]));
                    }
                }
                if (j2 == mi || j2 == tid) && i2 != mi && i2 != tid {
                    if mi < i2 {
                        assert(ranges_disjoint(rs[mi], rs[i2]));
                    } else {
                        assert(ranges_disjoint(rs[i2], rs[mi]));
                    }
                }
            };
            // Coverage: the victim's offsets are shared out over the two
            // halves; every other slot is untouched.
            assert forall|o: int| 0 <= o < self.size
                implies covers(self.task_ranges@, o) || self.written@.contains(o) by {
                if covers(rs, o) {
                    let w = choose|w: int| 0 <= w < rs.len()
                        && (#[trigger] rs[w]).start <= o < rs[w].end;
                    if w == mi {
                        if o < mid {
                            assert(self.task_ranges@[mi].start <= o < self.task_ranges@[mi].end);
                        } else {
                            assert(self.task_ranges@[tid].start <= o < self.task_ranges@[tid].end);
                        }
                    } else if w == tid {
                        assert(rs[tid].spec_len() == 0);
                    } else {
                        assert(self.task_ranges@[w].start <= o < self.task_ranges@[w].end);
                    }
                }
            };
        }
        Some(SpawnOrder { task_id, range: second })
    }

    /// A worker failed. While the retry budget lasts, count the error and
    /// restart the slot on exactly the range it had left; at the cap, stop
    /// respawning and let the survivors drain.
    pub fn on_failure(&mut self, task_id: usize) -> (order: Option<SpawnOrder>)
        requires
            old(self).wf(),
            task_id < old(self).task_ranges@.len(),
        ensures
            final(self).wf(),
            final(self).task_ranges@ == old(self).task_ranges@,
            final(self).max_errors == old(self).max_errors,
            final(self).min_chunk == old(self).min_chunk,
            final(self).size == old(self).size,
            final(self).written@ == old(self).written@,
            final(self).error_count == if old(self).error_count < old(self).max_errors {
                old(self).error_count + 1
            } else {
                old(self).error_count as int
            },
            order == if final(self).error_count < old(self).max_errors {
                Some(SpawnOrder {
                    task_id,
                    range: old(self).task_ranges@[task_id as int],
                })
            } else {
                None::<SpawnOrder>
            },
    {
        if self.error_count < self.max_errors {
            self.error_count = self.error_count + 1;
        }
        if self.error_count < self.max_errors {
            Some(SpawnOrder { task_id, range: self.task_ranges[task_id] })
        } else {
            None
        }
    }

    /// The ranges not yet finished, in slot order: what a rerun must still
    /// download. Non-empty only after an interrupt or exhausted retries.
    pub fn residual(&self) -> (rs: Vec<ByteRange>)
        requires
            self.wf(),
        ensures
            rs@ == nonempty_ranges(self.task_ranges@),
            total_len(rs@) == total_len(self.task_ranges@),
    {
        let ghost all = self.task_ranges@;
        let mut rs: Vec<ByteRange> = Vec::new();
        let mut i: usize = 0;
        proof {
            reveal(Seq::filter);
            assert(all.take(0) =~= Seq::<ByteRange>::empty());
            assert(rs@ == nonempty_ranges(all.take(0)));
        }
        while i < self.task_ranges.len()
            invariant
                self.wf(),
                all == self.task_ranges@,
                0 <= i <= all.len(),
                rs@ == nonempty_ranges(all.take(i as int)),
            decreases all.len() - i,
        {
            let r = self.task_ranges[i];
            proof {
                reveal(Seq::filter);
                assert(all.take(i + 1).drop_last() =~= all.take(i as int));
                assert(all.take(i + 1).last() == all[i as int]);
                assert(all[i as int].wf());
                if all[i as int].spec_len() > 0 {
                    assert(nonempty_ranges(all.take(i + 1))
                        == nonempty_ranges(all.take(i as int)).push(all[i as int]));
                } else {
                    assert(nonempty_ranges(all.take(i + 1)) == nonempty_ranges(all.take(i as int)));
                }
            }
            if r.end - r.start > 0 {
                rs.push(r);
            }
            i = i + 1;
        }
        proof {
            assert(all.take(all.len() as int) =~= all);
            lemma_total_len_filter(all);
        }
        rs
    }

    /// Bytes still to download, summed over the live slots.
    pub fn remaining(&self) -> (n: u64)
        requires
            self.wf(),
        ensures
            n == total_len(self.task_ranges@),
    {
        let ghost all = self.task_ranges@;
        let mut n: u64 = 0;
        let mut i: usize = 0;
        proof {
            assert(all.take(0) =~= Seq::<ByteRange>::empty());
        }
        while i < self.task_ranges.len()
            invariant
                self.wf(),
                all == self.task_ranges@,
                0 <= i <= all.len(),
                n == total_len(all.take(i as int)),
                n <= self.size,
            decreases all.len() - i,
        {
            let r = self.task_ranges[i];
            proof {
                assert(all.take(i + 1).drop_last() =~= all.take(i as int));
                assert(all.take(i + 1).last() == all[i as int]);
                assert(all[i as int].wf());
                assert(total_len(all.take(i + 1))
                    == total_len(all.take(i as int)) + all[i as int].spec_len());
                lemma_take_bound(all, i + 1, self.size as int);
            }
            n = n + (r.end - r.start);
            i = i + 1;
        }
        proof {
            assert(all.take(all.len() as int) =~= all);
        }
        n
    }

    /// All slots are finished.
    pub fn is_done(&self) -> (b: bool)
        requires
            self.wf(),
        ensures
            b <==> total_len(self.task_ranges@) == 0,
    {
        let n = self.remaining();
        proof {
            lemma_total_len_nonneg(self.task_ranges@);
        }
        n == 0
    }
}

/// A prefix of well-formed ranges never holds more bytes than the whole
/// list.
proof fn lemma_take_bound(rs: Seq<ByteRange>, i: int, bound: int)
    requires
        forall|k: int| 0 <= k < rs.len() ==> (#[trigger] rs[k]).wf(),
        total_len(rs) <= bound,
        0 <= i <= rs.len(),
    ensures
        total_len(rs.take(i)) <= bound,
    decreases rs.len() - i,
{
    if i < rs.len() {
        lemma_take_bound(rs, i + 1, bound);
        assert(rs.take(i + 1).drop_last() =~= rs.take(i));
        assert(rs.take(i + 1).last() == rs[i]);
        assert(rs[i].wf());
    } else {
        assert(rs.take(i) =~= rs);
    }
}

/// Once every slot is finished, every byte of the artifact has been
/// written: an empty residual means the ciphertext file is complete.
pub proof fn lemma_done_all_written(s: Scheduler)
    requires
        s.wf(),
        total_len(s.task_ranges@) == 0,
    ensures
        forall|o: int| 0 <= o < s.size ==> s.written@.contains(o),
{
    lemma_total_len_zero(s.task_ranges@);
    assert forall|o: int| 0 <= o < s.size implies s.written@.contains(o) by {
        if covers(s.task_ranges@, o) {
            let i = choose|i: int| 0 <= i < s.task_ranges@.len()
                && (#[trigger] s.task_ranges@[i]).start <= o < s.task_ranges@[i].end;
            assert(s.task_ranges@[i].spec_len() == 0);
        }
    };
}

/// The residual is empty exactly when no byte is left in any slot.
pub proof fn lemma_empty_residual(rs: Seq<ByteRange>)
    requires
        forall|i: int| 0 <= i < rs.len() ==> (#[trigger] rs[i]).wf(),
    ensures
        nonempty_ranges(rs).len() == 0 <==> total_len(rs) == 0,
    decreases rs.len(),
{
    reveal(Seq::filter);
    if rs.len() > 0 {
        let d = rs.drop_last();
        lemma_empty_residual(d);
        lemma_total_len_nonneg(d);
        assert(rs[rs.len() - 1].wf());
        if rs.last().spec_len() > 0 {
            assert(nonempty_ranges(rs) == nonempty_ranges(d).push(rs.last()));
        } else {
            assert(nonempty_ranges(rs) == nonempty_ranges(d));
        }
    }
}

} // verus!
