//! The partition of a download among workers, the positional reassembly of
//! the chunks they fetch, and the rule that decides when a download is
//! complete.
//!
//! A failed download leaves its partly written file in place, so that it can
//! be inspected or fetched again by hand; the outcome still reports the
//! range that was not completed.

use vstd::prelude::*;
use crate::artifact::ArtifactDescriptor;
use crate::error::Error;

verus! {

/// Workers that take part: at least one, and no more than there are bytes.
pub open spec fn effective_workers(len: int, workers: int) -> int {
    let w = if workers <= 0 { 1 } else { workers };
    if 0 < len && len < w { len } else { w }
}

/// How many chunks the content is divided into: one per taking-part worker.
pub open spec fn chunk_count(len: int, workers: int) -> int {
    if len <= 0 { 0 } else { effective_workers(len, workers) }
}

/// Size of every chunk but the last, which also takes the remainder of the
/// division.
pub open spec fn chunk_size(len: int, workers: int) -> int {
    if len <= 0 { 0 } else { len / effective_workers(len, workers) }
}

/// The chunk boundaries, as `(offset, length)`, of `len` bytes among `workers`.
pub open spec fn plan(len: int, workers: int) -> Seq<(int, int)> {
    let n = chunk_count(len, workers);
    let s = chunk_size(len, workers);
    Seq::new(n as nat, |i: int| if i < n - 1 { (i * s, s) } else { (i * s, len - i * s) })
}

/// Byte `p` lies in one of the ranges.
pub open spec fn covered(ranges: Seq<(int, int)>, p: int) -> bool {
    exists|i: int| 0 <= i < ranges.len() && (#[trigger] ranges[i]).0 <= p < ranges[i].0 + ranges[i].1
}

/// The total length of the ranges.
pub open spec fn sum_lengths(ranges: Seq<(int, int)>) -> int
    decreases ranges.len(),
{
    if ranges.len() == 0 {
        0
    } else {
        sum_lengths(ranges.drop_last()) + ranges.last().1
    }
}

proof fn lemma_size_facts(len: int, n: int, s: int)
    requires
        1 <= n <= len,
        s == len / n,
    ensures
        s >= 1,
        n * s <= len,
        forall|i: int| 0 <= i <= n ==> 0 <= #[trigger] (i * s) <= len,
        forall|i: int| #![trigger (i * s)] 0 <= i < n ==> (i + 1) * s == i * s + s,
        forall|i: int, j: int| 0 <= i <= j <= n ==> #[trigger] (i * s) <= #[trigger] (j * s),
{
    assert(s >= 1) by (nonlinear_arith)
        requires
            1 <= n <= len,
            s == len / n,
    ;
    assert(n * s <= len) by (nonlinear_arith)
        requires
            1 <= n,
            s == len / n,
    ;
    assert forall|i: int| 0 <= i <= n implies 0 <= #[trigger] (i * s) <= len by {
        assert(0 <= i * s <= n * s) by (nonlinear_arith)
            requires
                0 <= i <= n,
                s >= 1,
        ;
    }
    assert forall|i: int| #![trigger (i * s)] 0 <= i < n implies (i + 1) * s == i * s + s by {
        assert((i + 1) * s == i * s + s) by (nonlinear_arith);
    }
    assert forall|i: int, j: int| 0 <= i <= j <= n implies #[trigger] (i * s) <= #[trigger] (j * s) by {
        assert(i * s <= j * s) by (nonlinear_arith)
            requires
                0 <= i <= j,
                s >= 1,
        ;
    }
}

proof fn lemma_prefix_sum(p: Seq<(int, int)>, k: int)
    requires
        0 <= k <= p.len(),
        p.len() > 0 ==> p[0].0 == 0,
        forall|i: int| 0 <= i < p.len() - 1 ==> (#[trigger] p[i]).0 + p[i].1 == p[i + 1].0,
    ensures
        sum_lengths(p.subrange(0, k)) == if k == 0 { 0 } else { p[k - 1].0 + p[k - 1].1 },
    decreases k,
{
    if k > 0 {
        lemma_prefix_sum(p, k - 1);
        assert(p.subrange(0, k).drop_last() =~= p.subrange(0, k - 1));
        if k >= 2 {
            assert(p[k - 2].0 + p[k - 2].1 == p[k - 1].0);
        }
    }
}

/// The chunk boundaries partition the content: there is one non-empty chunk
/// per worker (one per byte when there are fewer bytes than workers); the
/// first starts at zero, each starts where the one before ends, and the last
/// ends with the content; so no two overlap, every byte lies in one, and the
/// lengths add up to the content length.
pub proof fn lemma_plan_partitions(len: int, workers: int)
    requires
        len >= 0,
        workers >= 1,
    ensures
        plan(len, workers).len() == if len < workers { len } else { workers },
        forall|i: int| 0 <= i < plan(len, workers).len() ==> {
            let c = #[trigger] plan(len, workers)[i];
            c.1 > 0 && 0 <= c.0 && c.0 + c.1 <= len
        },
        len > 0 ==> plan(len, workers)[0].0 == 0,
        len > 0 ==> plan(len, workers).last().0 + plan(len, workers).last().1 == len,
        forall|i: int| 0 <= i < plan(len, workers).len() - 1 ==> (#[trigger] plan(len, workers)[i]).0
            + plan(len, workers)[i].1 == plan(len, workers)[i + 1].0,
        forall|i: int, j: int| 0 <= i < j < plan(len, workers).len() ==>
            (#[trigger] plan(len, workers)[i]).0 + plan(len, workers)[i].1 <= (#[trigger] plan(len, workers)[j]).0,
        forall|p: int| 0 <= p < len ==> #[trigger] covered(plan(len, workers), p),
        sum_lengths(plan(len, workers)) == len,
{
    let p = plan(len, workers);
    if len == 0 {
        assert(p =~= Seq::<(int, int)>::empty());
        return;
    }
    let n = chunk_count(len, workers);
    let s = chunk_size(len, workers);
    lemma_size_facts(len, n, s);
    assert forall|i: int| 0 <= i < p.len() implies {
        let c = #[trigger] p[i];
        c.1 > 0 && 0 <= c.0 && c.0 + c.1 <= len
    } by {
        assert(i * s <= (n - 1) * s);
        assert((n - 1) * s + s == n * s);
    }
    assert forall|i: int| 0 <= i < p.len() - 1 implies (#[trigger] p[i]).0 + p[i].1 == p[i + 1].0 by {
        assert((i + 1) * s == i * s + s);
    }
    assert forall|i: int, j: int| 0 <= i < j < p.len() implies (#[trigger] p[i]).0 + p[i].1 <= (#[trigger] p[j]).0 by {
        assert((i + 1) * s == i * s + s);
        assert((i + 1) * s <= j * s);
    }
    assert forall|q: int| 0 <= q < len implies #[trigger] covered(p, q) by {
        let d = q / s;
        assert(d * s <= q < d * s + s && d >= 0) by (nonlinear_arith)
            requires
                s >= 1,
                0 <= q,
                d == q / s,
        ;
        if d < n - 1 {
            assert(p[d].0 <= q < p[d].0 + p[d].1);
        } else {
            assert((n - 1) * s <= d * s) by (nonlinear_arith)
                requires
                    n - 1 <= d,
                    s >= 1,
            ;
            assert(p[n - 1].0 <= q < p[n - 1].0 + p[n - 1].1);
        }
    }
    assert(0 * s == 0);
    assert(p[0].0 == 0);
    lemma_prefix_sum(p, p.len() as int);
    assert(p.subrange(0, p.len() as int) =~= p);
}

/// Boundaries held as machine integers, read as mathematical ones.
pub open spec fn as_ranges(s: Seq<(u64, u64)>) -> Seq<(int, int)> {
    s.map_values(|p: (u64, u64)| (p.0 as int, p.1 as int))
}

/// Computes the boundaries of `content_length` bytes among `worker_count`
/// workers (a count of zero is taken as one).
pub fn chunk_boundaries(content_length: u64, worker_count: u64) -> (r: Vec<(u64, u64)>)
    ensures
        as_ranges(r@) == plan(content_length as int, worker_count as int),
        r@.len() == chunk_count(content_length as int, worker_count as int),
        forall|i: int| 0 <= i < r@.len() ==> (#[trigger] r@[i]).0 + r@[i].1 <= content_length,
{
    proof {
        let w = if worker_count == 0 { 1int } else { worker_count as int };
        assert(plan(content_length as int, worker_count as int) == plan(content_length as int, w));
        lemma_plan_partitions(content_length as int, w);
    }
    let len = content_length;
    let mut out: Vec<(u64, u64)> = Vec::new();
    if len == 0 {
        assert(as_ranges(out@) =~= plan(len as int, worker_count as int));
        return out;
    }
    let mut w: u64 = if worker_count == 0 { 1 } else { worker_count };
    if len < w {
        w = len;
    }
    let size: u64 = len / w;
    let ghost whole = plan(len as int, worker_count as int);
    proof {
        lemma_size_facts(len as int, w as int, size as int);
    }
    let mut i: u64 = 0;
    let mut off: u64 = 0;
    assert(as_ranges(out@) =~= whole.subrange(0, 0));
    while i < w
        invariant
            w == chunk_count(len as int, worker_count as int),
            size == chunk_size(len as int, worker_count as int),
            1 <= w <= len,
            whole == plan(len as int, worker_count as int),
            i <= w,
            off as int == i * size,
            off <= len,
            w * size <= len,
            forall|k: int| #![trigger (k * size)] 0 <= k < w ==> (k + 1) * size == k * size + size,
            forall|k: int| 0 <= k <= w ==> 0 <= #[trigger] (k * size) <= len,
            as_ranges(out@) == whole.subrange(0, i as int),
        decreases w - i,
    {
        let ghost prev = out@;
        if i == w - 1 {
            out.push((off, len - off));
        } else {
            out.push((off, size));
        }
        assert(as_ranges(out@) =~= as_ranges(prev).push(whole[i as int]));
        assert(whole.subrange(0, i + 1) =~= whole.subrange(0, i as int).push(whole[i as int]));
        assert((i + 1) * size == i * size + size);
        assert(0 <= (i + 1) * size <= len);
        off = off + size;
        i = i + 1;
    }
    assert(whole.subrange(0, i as int) =~= whole);
    assert forall|k: int| 0 <= k < out@.len() implies (#[trigger] out@[k]).0 + out@[k].1 <= content_length by {
        assert(as_ranges(out@)[k] == whole[k]);
    }
    out
}

/// The plan that a download follows: the worker partition where the host
/// serves byte ranges, else one full-body fetch.
pub fn plan_download(content_length: u64, worker_count: u64, ranges_supported: bool) -> (r: Vec<(u64, u64)>)
    ensures
        as_ranges(r@) == plan(content_length as int, if ranges_supported { worker_count as int } else { 1 }),
        forall|i: int| 0 <= i < r@.len() ==> (#[trigger] r@[i]).0 + r@[i].1 <= content_length,
{
    if ranges_supported {
        chunk_boundaries(content_length, worker_count)
    } else {
        chunk_boundaries(content_length, 1)
    }
}

/// Without range support the content is fetched whole: the plan of a single
/// worker is one chunk that covers the content exactly.
pub proof fn lemma_fallback_single_chunk(len: int)
    requires
        len > 0,
    ensures
        plan(len, 1) == seq![(0int, len)],
{
    assert(len / 1 == len);
    assert(plan(len, 1) =~= seq![(0int, len)]);
}

/// How one artifact is fetched: from where, how many bytes, by how many
/// workers, and which range each of them writes.
#[derive(Debug, Clone, PartialEq, Eq)]
pub struct DownloadPlan {
    pub url: Vec<u8>,
    pub total_size: u64,
    pub worker_count: u64,
    pub boundaries: Vec<(u64, u64)>,
}

impl DownloadPlan {
    /// The boundaries are the partition of the content among the workers.
    pub open spec fn wf(&self) -> bool {
        &&& as_ranges(self.boundaries@) == plan(self.total_size as int, self.worker_count as int)
        &&& forall|i: int| 0 <= i < self.boundaries@.len() ==> (#[trigger] self.boundaries@[i]).0
            + self.boundaries@[i].1 <= self.total_size
    }

    /// Plans the download of `artifact` by `worker_count` workers (at least
    /// one), or by a single full-body fetch where the host serves no ranges.
    pub fn new(artifact: &ArtifactDescriptor, worker_count: u64, ranges_supported: bool) -> (r: DownloadPlan)
        ensures
            r.wf(),
            r.url@ == artifact.url@,
            r.total_size == artifact.content_length,
            r.worker_count == if !ranges_supported || worker_count == 0 { 1 } else { worker_count },
    {
        let workers: u64 = if !ranges_supported || worker_count == 0 { 1 } else { worker_count };
        let boundaries = chunk_boundaries(artifact.content_length, workers);
        DownloadPlan {
            url: vstd::slice::slice_to_vec(artifact.url.as_slice()),
            total_size: artifact.content_length,
            worker_count: workers,
            boundaries,
        }
    }
}

/// Worker `i` wrote all of chunk `i`.
pub open spec fn chunk_done(plan: Seq<(u64, u64)>, reports: Seq<Option<u64>>, i: int) -> bool {
    i < reports.len() && reports[i] == Some(plan[i].1)
}

/// Decides the outcome of a download from what each worker reports: the
/// number of bytes it wrote to its chunk, or `None` when it gave up. The
/// download succeeds only when every chunk was written whole; otherwise it
/// fails with the bounds of the first chunk that was not.
pub fn download_outcome(plan: &Vec<(u64, u64)>, reports: &Vec<Option<u64>>) -> (r: Result<(), Error>)
    requires
        forall|i: int| 0 <= i < plan@.len() ==> (#[trigger] plan@[i]).0 + plan@[i].1 <= u64::MAX,
    ensures
        r is Ok <==> forall|i: int| 0 <= i < plan@.len() ==> #[trigger] chunk_done(plan@, reports@, i),
        r is Err ==> exists|i: int| 0 <= i < plan@.len() && !chunk_done(plan@, reports@, i)
            && (forall|k: int| 0 <= k < i ==> #[trigger] chunk_done(plan@, reports@, k))
            && r == Err::<(), Error>(Error::PartialDownload { start: plan@[i].0, end: (plan@[i].0 + plan@[i].1) as u64 }),
{
    let mut i: usize = 0;
    while i < plan.len()
        invariant
            i <= plan@.len(),
            forall|k: int| 0 <= k < i ==> #[trigger] chunk_done(plan@, reports@, k),
            forall|k: int| 0 <= k < plan@.len() ==> (#[trigger] plan@[k]).0 + plan@[k].1 <= u64::MAX,
        decreases plan@.len() - i,
    {
        let (start, len) = plan[i];
        assert(plan@[i as int].0 + plan@[i as int].1 <= u64::MAX);
        let done = i < reports.len() && match reports[i] {
            Some(n) => n == len,
            None => false,
        };
        if !done {
            assert(!chunk_done(plan@, reports@, i as int));
            return Err(Error::PartialDownload { start, end: start + len });
        }
        i = i + 1;
    }
    Ok(())
}

/// `file` with `bytes` written at `offset`.
pub open spec fn write_at(file: Seq<u8>, offset: int, bytes: Seq<u8>) -> Seq<u8> {
    Seq::new(file.len(), |p: int| if offset <= p < offset + bytes.len() { bytes[p - offset] } else { file[p] })
}

/// Writes `bytes` at `offset` of `dest`, leaving every other byte as it was.
pub fn write_chunk(dest: &mut Vec<u8>, offset: usize, bytes: &[u8])
    requires
        offset + bytes@.len() <= old(dest)@.len(),
    ensures
        final(dest)@ == write_at(old(dest)@, offset as int, bytes@),
{
    let mut i: usize = 0;
    let n: usize = dest.len();
    while i < bytes.len()
        invariant
            i <= bytes@.len(),
            n == dest@.len(),
            offset + bytes@.len() <= dest@.len(),
            dest@.len() == old(dest)@.len(),
            forall|p: int| 0 <= p < dest@.len() ==> #[trigger] dest@[p] == if offset <= p < offset + i {
                bytes@[p - offset]
            } else {
                old(dest)@[p]
            },
        decreases bytes@.len() - i,
    {
        dest[offset + i] = bytes[i];
        i = i + 1;
    }
    assert(dest@ =~= write_at(old(dest)@, offset as int, bytes@));
}

/// `file` after writing each chunk `(offset, bytes)` in turn.
pub open spec fn write_all(file: Seq<u8>, chunks: Seq<(int, Seq<u8>)>) -> Seq<u8>
    decreases chunks.len(),
{
    if chunks.len() == 0 {
        file
    } else {
        write_at(write_all(file, chunks.drop_last()), chunks.last().0, chunks.last().1)
    }
}

/// Chunk `c` covers byte `p`.
pub open spec fn chunk_covers(c: (int, Seq<u8>), p: int) -> bool {
    c.0 <= p < c.0 + c.1.len()
}

/// No byte is covered by two chunks.
pub open spec fn chunks_disjoint(chunks: Seq<(int, Seq<u8>)>) -> bool {
    forall|i: int, j: int, p: int| 0 <= i < chunks.len() && 0 <= j < chunks.len() && i != j
        && #[trigger] chunk_covers(chunks[i], p) ==> !#[trigger] chunk_covers(chunks[j], p)
}

/// `order` lists each index below `n` exactly once.
pub open spec fn is_permutation(order: Seq<int>, n: int) -> bool {
    &&& order.len() == n
    &&& forall|k: int| 0 <= k < n ==> 0 <= #[trigger] order[k] < n
    &&& forall|k: int, l: int| 0 <= k < l < n ==> #[trigger] order[k] != #[trigger] order[l]
    &&& forall|i: int| 0 <= i < n ==> #[trigger] appears(order, i)
}

/// Index `i` occurs in `order`.
pub open spec fn appears(order: Seq<int>, i: int) -> bool {
    exists|k: int| 0 <= k < order.len() && #[trigger] order[k] == i
}

proof fn lemma_write_all_pointwise(file: Seq<u8>, chunks: Seq<(int, Seq<u8>)>)
    requires
        chunks_disjoint(chunks),
    ensures
        write_all(file, chunks).len() == file.len(),
        forall|p: int, i: int| 0 <= p < file.len() && 0 <= i < chunks.len() && #[trigger] chunk_covers(chunks[i], p)
            ==> #[trigger] write_all(file, chunks)[p] == chunks[i].1[p - chunks[i].0],
        forall|p: int| 0 <= p < file.len() && (forall|i: int| 0 <= i < chunks.len() ==> !#[trigger] chunk_covers(chunks[i], p))
            ==> #[trigger] write_all(file, chunks)[p] == file[p],
    decreases chunks.len(),
{
    if chunks.len() > 0 {
        let init = chunks.drop_last();
        let n = chunks.len() - 1;
        assert forall|i: int, j: int, p: int| 0 <= i < init.len() && 0 <= j < init.len() && i != j
            && #[trigger] chunk_covers(init[i], p) implies !#[trigger] chunk_covers(init[j], p) by {
            assert(init[i] == chunks[i] && init[j] == chunks[j]);
        }
        lemma_write_all_pointwise(file, init);
        assert forall|p: int, i: int| 0 <= p < file.len() && 0 <= i < chunks.len() && #[trigger] chunk_covers(chunks[i], p)
            implies #[trigger] write_all(file, chunks)[p] == chunks[i].1[p - chunks[i].0] by {
            if i < n {
                assert(!chunk_covers(chunks[n], p));
                assert(init[i] == chunks[i]);
            }
        }
        assert forall|p: int| 0 <= p < file.len() && (forall|i: int| 0 <= i < chunks.len() ==> !#[trigger] chunk_covers(chunks[i], p))
            implies #[trigger] write_all(file, chunks)[p] == file[p] by {
            assert(!chunk_covers(chunks[n], p));
            assert forall|i: int| 0 <= i < init.len() implies !#[trigger] chunk_covers(init[i], p) by {
                assert(init[i] == chunks[i]);
            }
        }
    }
}

/// Reassembly does not depend on the order in which chunks complete: writing
/// non-overlapping chunks in any order gives the same bytes as writing them
/// in index order.
pub proof fn lemma_reassembly_order_independent(file: Seq<u8>, chunks: Seq<(int, Seq<u8>)>, order: Seq<int>)
    requires
        chunks_disjoint(chunks),
        is_permutation(order, chunks.len() as int),
    ensures
        write_all(file, order.map_values(|k: int| chunks[k])) == write_all(file, chunks),
{
    let permuted = order.map_values(|k: int| chunks[k]);
    let n = chunks.len() as int;
    assert forall|i: int, j: int, p: int| 0 <= i < permuted.len() && 0 <= j < permuted.len() && i != j
        && #[trigger] chunk_covers(permuted[i], p) implies !#[trigger] chunk_covers(permuted[j], p) by {
        assert(order[i] != order[j]) by {
            if i < j {
                assert(order[i] != order[j]);
            } else {
                assert(order[j] != order[i]);
            }
        }
        assert(permuted[i] == chunks[order[i]]);
        assert(permuted[j] == chunks[order[j]]);
        assert(0 <= order[i] < n && 0 <= order[j] < n);
    }
    lemma_write_all_pointwise(file, chunks);
    lemma_write_all_pointwise(file, permuted);
    let a = write_all(file, permuted);
    let b = write_all(file, chunks);
    assert forall|p: int| 0 <= p < file.len() implies a[p] == b[p] by {
        if exists|i: int| 0 <= i < n && chunk_covers(chunks[i], p) {
            let i = choose|i: int| 0 <= i < n && chunk_covers(chunks[i], p);
            assert(appears(order, i));
            let k = choose|k: int| 0 <= k < n && #[trigger] order[k] == i;
            assert(permuted[k] == chunks[i]);
            assert(chunk_covers(permuted[k], p));
        } else {
            assert forall|k: int| 0 <= k < permuted.len() implies !#[trigger] chunk_covers(permuted[k], p) by {
                assert(permuted[k] == chunks[order[k]]);
                assert(0 <= order[k] < n);
            }
        }
    }
    assert(a =~= b);
}

/// The chunks that the workers of a plan fetch from `content`: each range's
/// bytes, to be written at its offset.
pub open spec fn plan_chunks(content: Seq<u8>, ranges: Seq<(int, int)>) -> Seq<(int, Seq<u8>)> {
    Seq::new(ranges.len(), |k: int| (ranges[k].0, content.subrange(ranges[k].0, ranges[k].0 + ranges[k].1)))
}

/// Reassembling a download by its plan gives back the content: whatever order
/// the workers complete in, writing their chunks at their offsets into a file
/// of the content's length yields the content, as writing them in index order
/// does.
pub proof fn lemma_plan_reassembly(len: int, workers: int, content: Seq<u8>, file: Seq<u8>, order: Seq<int>)
    requires
        workers >= 1,
        content.len() == len,
        file.len() == len,
        is_permutation(order, plan(len, workers).len() as int),
    ensures
        write_all(file, order.map_values(|k: int| plan_chunks(content, plan(len, workers))[k])) == content,
        write_all(file, plan_chunks(content, plan(len, workers))) == content,
{
    let p = plan(len, workers);
    let chunks = plan_chunks(content, p);
    lemma_plan_partitions(len, workers);
    assert forall|i: int, j: int, q: int| 0 <= i < chunks.len() && 0 <= j < chunks.len() && i != j
        && #[trigger] chunk_covers(chunks[i], q) implies !#[trigger] chunk_covers(chunks[j], q) by {
        if i < j {
            assert(p[i].0 + p[i].1 <= p[j].0);
        } else {
            assert(p[j].0 + p[j].1 <= p[i].0);
        }
    }
    lemma_reassembly_order_independent(file, chunks, order);
    lemma_write_all_pointwise(file, chunks);
    let r = write_all(file, chunks);
    assert forall|q: int| 0 <= q < len implies r[q] == content[q] by {
        assert(covered(p, q));
        let i = choose|i: int| 0 <= i < p.len() && (#[trigger] p[i]).0 <= q < p[i].0 + p[i].1;
        assert(chunk_covers(chunks[i], q));
    }
    assert(r =~= content);
}

} // verus!
