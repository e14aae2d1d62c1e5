//! The partition planner: divides a buffer into contiguous, equally sized
//! search ranges, one per worker, and widens each into a read range that
//! overlaps its neighbours by one template length minus one byte, so that an
//! occurrence beginning inside a worker's search range always lies wholly
//! inside that worker's read range.

use vstd::prelude::*;

use vstd::arithmetic::div_mod::lemma_fundamental_div_mod;
use vstd::arithmetic::mul::lemma_mul_inequality;

verus! {

/// One worker's assignment: it owns the occurrences that begin inside
/// `[search_start, search_end)` and scans the bytes of
/// `[read_start, read_end)`, which extend the search range by `m - 1` bytes
/// on both sides (clamped to the buffer) for a template of length `m`.
#[derive(Clone, Copy)]
pub struct Partition {
    pub search_start: usize,
    pub search_end: usize,
    pub read_start: usize,
    pub read_end: usize,
}

/// A partition of a buffer of length `len` shaped for a template of length
/// `m`: the read range extends the search range by exactly `m - 1` bytes each
/// way, clamped at the buffer's ends.
pub open spec fn partition_wf(p: Partition, len: int, m: int) -> bool {
    &&& p.search_start <= p.search_end <= len
    &&& p.read_start == if p.search_start - (m - 1) >= 0 {
        p.search_start - (m - 1)
    } else {
        0
    }
    &&& p.read_end == if p.search_end + (m - 1) <= len {
        p.search_end + (m - 1)
    } else {
        len
    }
}

/// The search ranges tile `[0, len)`: the first starts at zero, each begins
/// where its predecessor ends, and the last ends at `len`.
pub open spec fn partitions_tile(parts: Seq<Partition>, len: int) -> bool {
    &&& parts.len() > 0
    &&& parts[0].search_start == 0
    &&& parts[parts.len() - 1].search_end == len
    &&& forall|j: int|
        0 <= j < parts.len() - 1 ==> (#[trigger] parts[j + 1].search_start) == parts[j].search_end
}

/// Plan `count` partitions of a buffer of length `len` for a template of
/// length `m`: search ranges of `len / count` bytes each, the division
/// remainder absorbed by the last, read ranges widened by `m - 1` each way.
pub fn plan_partitions(len: usize, m: usize, count: usize) -> (parts: Vec<Partition>)
    requires
        m >= 1,
        count >= 1,
    ensures
        parts@.len() == count,
        partitions_tile(parts@, len as int),
        forall|j: int| 0 <= j < count ==> partition_wf(#[trigger] parts@[j], len as int, m as int),
        forall|j: int|
            0 <= j < count - 1 ==> (#[trigger] parts@[j].search_end) - parts@[j].search_start
                == len as int / count as int,
        parts@[count - 1].search_end - parts@[count - 1].search_start == len as int / count as int
            + len as int % count as int,
{
    let chunk = len / count;
    proof {
        lemma_fundamental_div_mod(len as int, count as int);
    }
    let overlap = m - 1;
    let mut parts: Vec<Partition> = Vec::new();
    let mut start: usize = 0;
    let mut j: usize = 0;
    while j < count
        invariant
            m >= 1,
            count >= 1,
            overlap == m - 1,
            chunk == len as int / count as int,
            len as int == count as int * chunk as int + len as int % count as int,
            len as int % count as int >= 0,
            j <= count,
            parts@.len() == j,
            j < count ==> start as int == j as int * chunk as int,
            start <= len,
            j > 0 ==> parts@[0].search_start == 0,
            j > 0 ==> parts@[j - 1].search_end == start,
            j == count ==> start == len,
            forall|k: int|
                0 <= k < j ==> partition_wf(#[trigger] parts@[k], len as int, m as int),
            forall|k: int|
                0 <= k < j - 1 ==> (#[trigger] parts@[k + 1].search_start) == parts@[k].search_end,
            forall|k: int|
                0 <= k < j ==> (#[trigger] parts@[k].search_start) as int == k * chunk as int,
            forall|k: int|
                0 <= k < j && k < count - 1 ==> (#[trigger] parts@[k].search_end)
                    - parts@[k].search_start == chunk as int,
        decreases count - j,
    {
        let end = if j == count - 1 {
            len
        } else {
            proof {
                lemma_mul_inequality(j as int + 1, count as int, chunk as int);
                assert((j as int + 1) * chunk as int == j as int * chunk as int + chunk as int)
                    by (nonlinear_arith);
            }
            start + chunk
        };
        let read_start = if start >= overlap {
            start - overlap
        } else {
            0
        };
        let read_end = if overlap <= len - end {
            end + overlap
        } else {
            len
        };
        parts.push(Partition { search_start: start, search_end: end, read_start, read_end });
        proof {
            if j < count - 1 {
                assert((j as int + 1) * chunk as int == j as int * chunk as int + chunk as int)
                    by (nonlinear_arith);
            }
        }
        start = end;
        j += 1;
    }
    proof {
        assert(parts@[count - 1].search_start as int == (count as int - 1) * chunk as int);
        assert(count as int * chunk as int == (count as int - 1) * chunk as int
            + chunk as int) by (nonlinear_arith);
    }
    parts
}

/// Every buffer position below `len` lies in some search range: the tiling
/// leaves no gap.
pub proof fn lemma_partitions_cover(parts: Seq<Partition>, len: int, i: int)
    requires
        partitions_tile(parts, len),
        forall|j: int| 0 <= j < parts.len() ==> #[trigger] parts[j].search_start <= parts[j].search_end,
        0 <= i < len,
    ensures
        exists|j: int|
            0 <= j < parts.len() && (#[trigger] parts[j].search_start) <= i < parts[j].search_end,
{
    lemma_cover_up_to(parts, parts.len() - 1, i);
}

/// Any position below the `k`-th search range's end lies in one of the first
/// `k + 1` search ranges.
proof fn lemma_cover_up_to(parts: Seq<Partition>, k: int, i: int)
    requires
        0 <= k < parts.len(),
        parts[0].search_start == 0,
        forall|j: int|
            0 <= j < parts.len() - 1 ==> (#[trigger] parts[j + 1].search_start)
                == parts[j].search_end,
        0 <= i < parts[k].search_end,
    ensures
        exists|j: int|
            0 <= j <= k && (#[trigger] parts[j].search_start) <= i < parts[j].search_end,
    decreases k,
{
    if k == 0 {
        assert(parts[0].search_start <= i < parts[0].search_end);
    } else if i < parts[k - 1].search_end {
        lemma_cover_up_to(parts, k - 1, i);
    } else {
        assert(parts[(k - 1) + 1].search_start == parts[k - 1].search_end);
        assert(parts[k].search_start <= i < parts[k].search_end);
    }
}

} // verus!
