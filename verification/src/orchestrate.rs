//! Wiring the pieces into the end-to-end flow.
//!
//! The decisions of the run live here: how many parallel chunks are
//! acceptable, and how the initial set of task ranges comes about — a fresh
//! even partition of the artifact, or the validated residual of an
//! interrupted run.

use vstd::prelude::*;
use crate::range::ByteRange;
use crate::range::split_range;
use crate::range::is_partition;
use crate::range::total_len;
use crate::range::lemma_partition_covers;
use crate::range::lemma_partition_total;
use crate::range::lemma_ascending_disjoint;
use crate::range::lemma_ascending_total_bound;
use crate::scheduler::Scheduler;
use crate::scheduler::ranges_disjoint;
use crate::state::DownloadState;
use crate::state::StateError;
use crate::state::sort_pairs;
use crate::state::canonical_pairs;
use crate::state::ranges_valid;

verus! {

/// Minimum bytes per parallel download task: anything shorter is not worth
/// a connection of its own.
pub const MIN_CHUNK_SIZE: u64 = 1024 * 1024;

/// Why a chunk count was rejected.
#[derive(Clone, Copy, Debug, PartialEq, Eq, Structural)]
pub enum ChunksError {
    Zero,
    TooMany,
}

/// The number of chunks to download in parallel, kept within sane bounds.
#[derive(Clone, Copy, Debug, PartialEq, Eq, Structural)]
pub struct NumChunks(pub u64);

impl NumChunks {
    /// At least one connection; at most sixteen, to keep the parallelism
    /// from turning into an unintentional denial of service.
    pub fn new(n: u64) -> (r: Result<NumChunks, ChunksError>)
        ensures
            r is Ok <==> 1 <= n <= 16,
            r matches Ok(c) ==> c == (NumChunks(n)),
            r == Err::<NumChunks, ChunksError>(ChunksError::Zero) <==> n == 0,
            r == Err::<NumChunks, ChunksError>(ChunksError::TooMany) <==> n > 16,
    {
        if n == 0 {
            Err(ChunksError::Zero)
        } else if n > 16 {
            Err(ChunksError::TooMany)
        } else {
            Ok(NumChunks(n))
        }
    }
}

/// Build the scheduler for a run: from the validated residual of a loaded
/// state file, or from a fresh even partition of `[0, size)`.
pub fn make_scheduler(
    loaded: Option<&DownloadState>,
    size: u64,
    parallelism: NumChunks,
    max_errors: u64,
) -> (r: Result<Scheduler, StateError>)
    requires
        parallelism.0 >= 1,
    ensures
        r matches Ok(s) ==> {
            &&& s.wf()
            &&& s.size == size
            &&& s.max_errors == max_errors
            &&& s.min_chunk == MIN_CHUNK_SIZE
            &&& s.error_count == 0
        },
        loaded is None ==> r is Ok,
        loaded is None ==> (r matches Ok(s) ==> {
            &&& is_partition(ByteRange { start: 0, end: size }, s.task_ranges@)
            &&& s.task_ranges@.len() <= parallelism.0
            &&& total_len(s.task_ranges@) == size
        }),
        loaded matches Some(st) ==> {
            &&& (r is Ok <==> ranges_valid(sort_pairs(st.remaining@), size))
            &&& (r matches Ok(s) ==> {
                let c = canonical_pairs(st.remaining@);
                &&& s.task_ranges@.len() == c.len()
                &&& forall|k: int| 0 <= k < c.len() ==> #[trigger] s.task_ranges@[k]
                    == (ByteRange { start: c[k].0, end: c[k].1 })
            })
        },
        r matches Err(e) ==> e == StateError::Corrupt && loaded is Some,
{
    match loaded {
        None => {
            let whole = ByteRange::new(0, size);
            let parts = split_range(whole, parallelism.0, MIN_CHUNK_SIZE);
            proof {
                lemma_partition_covers(whole, parts@);
                lemma_partition_total(whole, parts@);
                assert forall|i: int, j: int| 0 <= i < j < parts@.len()
                    implies ranges_disjoint(#[trigger] parts@[i], #[trigger] parts@[j]) by {
                    assert(parts@[i].end <= parts@[j].start);
                };
            }
            Ok(Scheduler::new(parts, size, max_errors, MIN_CHUNK_SIZE))
        }
        Some(st) => {
            let v = match st.load_ranges(size) {
                Ok(v) => v,
                Err(e) => {
                    return Err(e);
                }
            };
            proof {
                assert forall|i: int, j: int| 0 <= i < j < v@.len()
                    implies ranges_disjoint(#[trigger] v@[i], #[trigger] v@[j]) by {
                    lemma_ascending_disjoint(v@, i, j);
                };
                if v@.len() >= 1 {
                    lemma_ascending_total_bound(v@);
                    assert(v@[v@.len() - 1].end <= size);
                } else {
                    assert(total_len(v@) == 0);
                }
            }
            Ok(Scheduler::new(v, size, max_errors, MIN_CHUNK_SIZE))
        }
    }
}

} // verus!
