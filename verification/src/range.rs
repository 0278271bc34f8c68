//! Byte intervals and the range splitter.
//!
//! A download is planned as a set of half-open intervals `[start, end)` of
//! absolute file offsets. `split_range` divides one interval into at most `n`
//! contiguous pieces, each at least `min_chunk` bytes long except possibly
//! the last, and refuses to split an interval shorter than `2 * min_chunk`.

use vstd::prelude::*;
use vstd::arithmetic::div_mod::lemma_fundamental_div_mod;
use vstd::arithmetic::div_mod::lemma_mod_bound;
use vstd::arithmetic::mul::lemma_mul_inequality;

verus! {

/// A half-open interval `[start, end)` of absolute file offsets.
#[derive(Clone, Copy, Debug, PartialEq, Eq, Structural)]
pub struct ByteRange {
    pub start: u64,
    pub end: u64,
}

impl ByteRange {
    /// A well-formed range never runs backwards.
    pub open spec fn wf(self) -> bool {
        self.start <= self.end
    }

    /// Number of bytes the interval covers.
    pub open spec fn spec_len(self) -> int {
        self.end - self.start
    }

    pub fn new(start: u64, end: u64) -> (r: ByteRange)
        requires
            start <= end,
        ensures
            r == (ByteRange { start, end }),
            r.wf(),
    {
        ByteRange { start, end }
    }

    /// Number of bytes the interval covers.
    pub fn len(&self) -> (n: u64)
        requires
            self.wf(),
        ensures
            n == self.spec_len(),
    {
        self.end - self.start
    }

    pub fn is_empty(&self) -> (b: bool)
        requires
            self.wf(),
        ensures
            b <==> self.spec_len() == 0,
    {
        self.start == self.end
    }
}

/// `parts` lays `r` out as a gapless chain of well-formed intervals: the
/// first begins where `r` begins, each next one begins where the previous
/// ended, and the last ends where `r` ends.
pub open spec fn is_partition(r: ByteRange, parts: Seq<ByteRange>) -> bool {
    &&& parts.len() >= 1
    &&& parts[0].start == r.start
    &&& parts[parts.len() - 1].end == r.end
    &&& forall|i: int| 0 <= i < parts.len() ==> #[trigger] parts[i].wf()
    &&& forall|i: int| 0 <= i < parts.len() - 1 ==> #[trigger] parts[i].end == parts[i + 1].start
}

/// Split `r` into at most `n` contiguous sub-ranges. Every sub-range but the
/// last is at least `min_chunk` bytes long; an interval shorter than
/// `2 * min_chunk` is returned whole, and one at least that long is split
/// into at least two pieces whenever `n >= 2`.
pub fn split_range(r: ByteRange, n: u64, min_chunk: u64) -> (parts: Vec<ByteRange>)
    requires
        r.wf(),
        n >= 1,
        min_chunk >= 1,
    ensures
        is_partition(r, parts@),
        parts@.len() <= n,
        forall|i: int| 0 <= i < parts@.len() - 1 ==> #[trigger] parts@[i].spec_len() >= min_chunk,
        r.spec_len() < 2 * min_chunk ==> parts@.len() == 1,
        r.spec_len() >= 2 * min_chunk && n >= 2 ==> parts@.len() >= 2,
        r.spec_len() > 0 ==> forall|i: int| 0 <= i < parts@.len() ==> #[trigger] parts@[i].spec_len() > 0,
{
    let len = r.len();

    // An interval shorter than two minimum chunks is not worth splitting,
    // and a single target piece means no split at all.
    if n == 1 || len / 2 < min_chunk {
        assert(len / 2 < min_chunk <==> r.spec_len() < 2 * min_chunk) by {
            lemma_fundamental_div_mod(len as int, 2);
        };
        let mut parts: Vec<ByteRange> = Vec::new();
        parts.push(r);
        return parts;
    }

    assert(r.spec_len() >= 2 * min_chunk);
    assert(len >= 2);

    // Chunk size: the ceiling of an even division, floored at `min_chunk`.
    let q = len / n;
    let s = len % n;
    proof {
        lemma_fundamental_div_mod(len as int, n as int);
        lemma_mod_bound(len as int, n as int);
        assert((q as int) < len as int) by (nonlinear_arith)
            requires
                len as int == n as int * q as int + s as int,
                n as int >= 2,
                len as int >= 2,
                q as int >= 0,
                s as int >= 0,
        ;
    }
    let ceil = if s != 0 { q + 1 } else { q };
    proof {
        // n * ceil >= len, so at most n pieces of size `ceil` are needed.
        assert(len as int <= n as int * ceil as int) by (nonlinear_arith)
            requires
                ceil as int == if s == 0 { q as int } else { q as int + 1 },
                len as int == n as int * q as int + s as int,
                0 <= s as int && (s as int) < n as int,
        ;
    }
    let chunk = if ceil < min_chunk { min_chunk } else { ceil };
    proof {
        lemma_mul_inequality(ceil as int, chunk as int, n as int);
        // The chunk size is strictly below the interval length, so the loop
        // below runs at least once and at least two pieces come out.
        if chunk == min_chunk && ceil <= min_chunk {
            assert(chunk < len);
        } else {
            assert(n as int * q as int >= 2 * q as int) by (nonlinear_arith)
                requires n as int >= 2, q as int >= 0;
            if s == 0 {
                assert(q >= 1);
                assert(chunk < len);
            } else {
                assert(chunk < len);
            }
        }
    }

    let ghost glen = r.spec_len();
    let mut parts: Vec<ByteRange> = Vec::new();
    let mut pos = r.start;
    proof {
        assert(parts@.len() == 0);
        assert(parts@.len() * chunk == 0) by (nonlinear_arith)
            requires parts@.len() == 0;
    }

    while r.end - pos > chunk
        invariant
            r.wf(),
            1 <= chunk,
            min_chunk <= chunk,
            r.start <= pos < r.end,
            glen == r.spec_len(),
            glen <= n * chunk,
            pos == r.start + parts@.len() * chunk,
            parts@.len() >= 1 ==> parts@[0].start == r.start,
            forall|i: int| 0 <= i < parts@.len() ==> #[trigger] parts@[i].wf(),
            forall|i: int| 0 <= i < parts@.len() ==> #[trigger] parts@[i].spec_len() == chunk,
            forall|i: int| 0 <= i < parts@.len() - 1 ==> #[trigger] parts@[i].end == parts@[i + 1].start,
            parts@.len() >= 1 ==> parts@[parts@.len() - 1].end == pos,
            parts@.len() < n,
        decreases r.end - pos,
    {
        let ghost k = parts@.len() as int;
        parts.push(ByteRange { start: pos, end: pos + chunk });
        pos = pos + chunk;
        proof {
            assert(pos == r.start + (k + 1) * chunk) by (nonlinear_arith)
                requires pos == r.start + k * chunk + chunk;
            // (k + 1) full chunks fit strictly inside the interval, and the
            // interval fits in n chunks, so k + 1 < n.
            if pos < r.end {
                assert(k + 1 < n) by (nonlinear_arith)
                    requires
                        (k + 1) * chunk < glen,
                        glen <= n * chunk,
                        chunk >= 1,
                        pos == r.start + (k + 1) * chunk,
                        glen == r.end - r.start,
                        pos < r.end,
                ;
            }
        }
    }

    parts.push(ByteRange { start: pos, end: r.end });
    parts
}

/// Links in a gapless chain only move forward: the end of an earlier link
/// never passes the start of a later one.
proof fn lemma_chain_ordered(parts: Seq<ByteRange>, i: int, j: int)
    requires
        forall|k: int| 0 <= k < parts.len() ==> #[trigger] parts[k].wf(),
        forall|k: int| 0 <= k < parts.len() - 1 ==> #[trigger] parts[k].end == parts[k + 1].start,
        0 <= i < j < parts.len(),
    ensures
        parts[i].end <= parts[j].start,
    decreases j - i,
{
    if j == i + 1 {
        assert(parts[i].end == parts[i + 1].start);
    } else {
        lemma_chain_ordered(parts, i, j - 1);
        assert(parts[j - 1].wf());
        assert(parts[j - 1].end == parts[j].start);
    }
}

/// Every offset of the partitioned interval lands in some sub-range.
proof fn lemma_chain_covers(parts: Seq<ByteRange>, o: int)
    requires
        parts.len() >= 1,
        forall|k: int| 0 <= k < parts.len() ==> #[trigger] parts[k].wf(),
        forall|k: int| 0 <= k < parts.len() - 1 ==> #[trigger] parts[k].end == parts[k + 1].start,
        parts[0].start <= o < parts[parts.len() - 1].end,
    ensures
        exists|i: int| 0 <= i < parts.len() && (#[trigger] parts[i].start) <= o < parts[i].end,
    decreases parts.len(),
{
    let last = parts.len() - 1;
    if o >= parts[last].start {
        assert(parts[last].start <= o < parts[last].end);
    } else {
        assert(parts.len() >= 2);
        let prefix = parts.take(last);
        assert(prefix[0].start <= o < prefix[prefix.len() - 1].end);
        lemma_chain_covers(prefix, o);
        let i = choose|i: int| 0 <= i < prefix.len() && (#[trigger] prefix[i].start) <= o < prefix[i].end;
        assert(parts[i].start <= o < parts[i].end);
    }
}

/// The pieces of a partition are pairwise disjoint, stay inside the
/// partitioned interval, and together cover every one of its offsets.
pub proof fn lemma_partition_covers(r: ByteRange, parts: Seq<ByteRange>)
    requires
        is_partition(r, parts),
    ensures
        forall|i: int, j: int| 0 <= i < j < parts.len()
            ==> #[trigger] parts[i].end <= #[trigger] parts[j].start,
        forall|i: int| 0 <= i < parts.len()
            ==> r.start <= (#[trigger] parts[i]).start && parts[i].end <= r.end,
{
    let last = parts.len() - 1;
    assert forall|i: int, j: int| 0 <= i < j < parts.len()
        implies #[trigger] parts[i].end <= #[trigger] parts[j].start by {
        lemma_chain_ordered(parts, i, j);
    };
    assert forall|i: int| 0 <= i < parts.len()
        implies r.start <= (#[trigger] parts[i]).start && parts[i].end <= r.end by {
        assert(parts[0].wf());
        assert(parts[last].wf());
        if i > 0 {
            lemma_chain_ordered(parts, 0, i);
        }
        if i < last {
            lemma_chain_ordered(parts, i, last);
        }
    };
}

/// Every offset of a partitioned interval lands in some piece of the
/// partition: nothing is lost between the pieces.
pub proof fn lemma_partition_covers_offset(r: ByteRange, parts: Seq<ByteRange>, o: int)
    requires
        is_partition(r, parts),
        r.start <= o < r.end,
    ensures
        exists|i: int| 0 <= i < parts.len() && (#[trigger] parts[i].start) <= o < parts[i].end,
{
    lemma_chain_covers(parts, o);
}

/// Total number of bytes a list of ranges still covers.
pub open spec fn total_len(rs: Seq<ByteRange>) -> int
    decreases rs.len(),
{
    if rs.len() == 0 {
        0
    } else {
        total_len(rs.drop_last()) + rs.last().spec_len()
    }
}

/// The ranges with at least one byte left in them.
pub open spec fn nonempty_ranges(rs: Seq<ByteRange>) -> Seq<ByteRange> {
    rs.filter(|r: ByteRange| r.spec_len() > 0)
}

pub proof fn lemma_total_len_nonneg(rs: Seq<ByteRange>)
    requires
        forall|i: int| 0 <= i < rs.len() ==> (#[trigger] rs[i]).wf(),
    ensures
        total_len(rs) >= 0,
    decreases rs.len(),
{
    if rs.len() > 0 {
        lemma_total_len_nonneg(rs.drop_last());
    }
}

/// Replacing one range changes the total by the difference of the lengths.
pub proof fn lemma_total_len_update(rs: Seq<ByteRange>, i: int, v: ByteRange)
    requires
        0 <= i < rs.len(),
    ensures
        total_len(rs.update(i, v)) == total_len(rs) - rs[i].spec_len() + v.spec_len(),
    decreases rs.len(),
{
    let u = rs.update(i, v);
    if i == rs.len() - 1 {
        assert(u.drop_last() =~= rs.drop_last());
        assert(u.last() == v);
    } else {
        assert(u.drop_last() =~= rs.drop_last().update(i, v));
        assert(u.last() == rs.last());
        lemma_total_len_update(rs.drop_last(), i, v);
    }
}

/// A list of well-formed ranges with nothing left in total has nothing left
/// in any one range.
pub proof fn lemma_total_len_zero(rs: Seq<ByteRange>)
    requires
        forall|i: int| 0 <= i < rs.len() ==> (#[trigger] rs[i]).wf(),
        total_len(rs) == 0,
    ensures
        forall|i: int| 0 <= i < rs.len() ==> (#[trigger] rs[i]).spec_len() == 0,
    decreases rs.len(),
{
    if rs.len() > 0 {
        lemma_total_len_nonneg(rs.drop_last());
        assert(rs.last().spec_len() == 0);
        lemma_total_len_zero(rs.drop_last());
        assert forall|i: int| 0 <= i < rs.len() implies (#[trigger] rs[i]).spec_len() == 0 by {
            if i < rs.len() - 1 {
                assert(rs[i] == rs.drop_last()[i]);
            }
        };
    }
}

pub proof fn lemma_total_len_push(rs: Seq<ByteRange>, v: ByteRange)
    ensures
        total_len(rs.push(v)) == total_len(rs) + v.spec_len(),
{
    assert(rs.push(v).drop_last() =~= rs);
}

/// A partition covers exactly the bytes of the interval it partitions.
pub proof fn lemma_partition_total(r: ByteRange, parts: Seq<ByteRange>)
    requires
        is_partition(r, parts),
    ensures
        total_len(parts) == r.spec_len(),
    decreases parts.len(),
{
    if parts.len() == 1 {
        assert(parts.last() == parts[0]);
        assert(total_len(parts.drop_last()) == 0);
        assert(total_len(parts) == parts[0].spec_len());
    } else {
        let d = parts.drop_last();
        let front = ByteRange { start: r.start, end: parts[parts.len() - 2].end };
        assert(parts[parts.len() - 2].end == parts[parts.len() - 1].start);
        assert(front.wf()) by {
            lemma_partition_covers(r, parts);
        };
        assert(is_partition(front, d)) by {
            assert forall|k: int| 0 <= k < d.len() implies (#[trigger] d[k]).wf() by {
                assert(d[k] == parts[k]);
                assert(parts[k].wf());
            };
            assert forall|k: int| 0 <= k < d.len() - 1 implies (#[trigger] d[k]).end == d[k
                + 1].start by {
                assert(d[k] == parts[k]);
                assert(d[k + 1] == parts[k + 1]);
                assert(parts[k].end == parts[k + 1].start);
            };
            assert(d[0] == parts[0]);
            assert(d[d.len() - 1] == parts[parts.len() - 2]);
        };
        lemma_partition_total(front, d);
        assert(parts.last() == parts[parts.len() - 1]);
        assert(parts[parts.len() - 1].wf());
        assert(total_len(parts) == total_len(d) + parts.last().spec_len());
    }
}

/// Ranges in ascending order with no overlap between neighbours never
/// overlap at all.
pub proof fn lemma_ascending_disjoint(rs: Seq<ByteRange>, i: int, j: int)
    requires
        forall|k: int| 0 <= k < rs.len() ==> (#[trigger] rs[k]).wf(),
        forall|k: int| 0 <= k < rs.len() - 1 ==> (#[trigger] rs[k]).end <= rs[k + 1].start,
        0 <= i < j < rs.len(),
    ensures
        rs[i].end <= rs[j].start,
    decreases j - i,
{
    if j == i + 1 {
        assert(rs[i].end <= rs[i + 1].start);
    } else {
        lemma_ascending_disjoint(rs, i, j - 1);
        assert(rs[j - 1].wf());
        assert(rs[j - 1].end <= rs[j].start);
    }
}

/// Ascending disjoint ranges hold no more bytes than the last one reaches.
pub proof fn lemma_ascending_total_bound(rs: Seq<ByteRange>)
    requires
        rs.len() >= 1,
        forall|k: int| 0 <= k < rs.len() ==> (#[trigger] rs[k]).wf(),
        forall|k: int| 0 <= k < rs.len() - 1 ==> (#[trigger] rs[k]).end <= rs[k + 1].start,
    ensures
        total_len(rs) <= rs[rs.len() - 1].end,
    decreases rs.len(),
{
    if rs.len() == 1 {
        assert(rs[0].wf());
        assert(rs.last() == rs[0]);
        assert(total_len(rs.drop_last()) == 0);
        assert(total_len(rs) == rs[0].spec_len());
    } else {
        let d = rs.drop_last();
        assert forall|k: int| 0 <= k < d.len() implies (#[trigger] d[k]).wf() by {
            assert(d[k] == rs[k]);
            assert(rs[k].wf());
        };
        assert forall|k: int| 0 <= k < d.len() - 1 implies (#[trigger] d[k]).end <= d[k
            + 1].start by {
            assert(d[k] == rs[k]);
            assert(d[k + 1] == rs[k + 1]);
            assert(rs[k].end <= rs[k + 1].start);
        };
        lemma_ascending_total_bound(d);
        assert(d[d.len() - 1] == rs[rs.len() - 2]);
        assert(rs[rs.len() - 2].end <= rs[rs.len() - 1].start);
        assert(rs[rs.len() - 1].wf());
        assert(rs.last() == rs[rs.len() - 1]);
        assert(total_len(rs) == total_len(d) + rs.last().spec_len());
    }
}

/// Dropping the ranges that are already empty loses no bytes.
pub proof fn lemma_total_len_filter(rs: Seq<ByteRange>)
    requires
        forall|i: int| 0 <= i < rs.len() ==> (#[trigger] rs[i]).wf(),
    ensures
        total_len(nonempty_ranges(rs)) == total_len(rs),
    decreases rs.len(),
{
    reveal(Seq::filter);
    if rs.len() == 0 {
        assert(nonempty_ranges(rs) == rs);
    } else {
        assert(rs[rs.len() - 1].wf());
        lemma_total_len_filter(rs.drop_last());
        if rs.last().spec_len() > 0 {
            assert(nonempty_ranges(rs) == nonempty_ranges(rs.drop_last()).push(rs.last()));
            lemma_total_len_push(nonempty_ranges(rs.drop_last()), rs.last());
        } else {
            assert(nonempty_ranges(rs) == nonempty_ranges(rs.drop_last()));
        }
    }
}

} // verus!
