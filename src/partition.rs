//! Choosing between the sequential and the parallel path, and cutting an
//! input's index range into one contiguous chunk per worker.

use vstd::prelude::*;
use vstd::arithmetic::div_mod::lemma_fundamental_div_mod;

verus! {

/// Inputs up to this length are mapped on the calling thread.
pub const THRESHOLD: usize = 100;

/// Worker count used when the host's parallelism cannot be queried.
pub const DEFAULT_WORKERS: usize = 4;

/// A contiguous range of input indices, `start..end`, handed to one worker.
#[derive(Clone, Copy, Debug, PartialEq, Eq, Structural)]
pub struct Chunk {
    pub worker_index: usize,
    pub start: usize,
    pub end: usize,
}

/// How one call of the map is carried out.
#[derive(Debug)]
pub enum Plan {
    /// Map every element in index order on the calling thread.
    Sequential,
    /// Map each chunk on a worker of its own and join the partial results in
    /// chunk order.
    Parallel(Vec<Chunk>),
}

/// The number of workers for an input of `len` elements, given what the
/// host reports as its parallelism (`None` when it cannot say).
pub open spec fn workers_for(len: int, hw: Option<usize>) -> int {
    let cap: int = match hw {
        Some(h) => h as int,
        None => DEFAULT_WORKERS as int,
    };
    if cap < len {
        cap
    } else {
        len
    }
}

/// First index of chunk `i` when `len` indices are cut for `workers` workers.
pub open spec fn chunk_start(len: int, workers: int, i: int) -> int {
    i * (len / workers)
}

/// One past the last index of chunk `i`: every chunk has `len / workers`
/// indices, and the last one also takes the remainder.
pub open spec fn chunk_end(len: int, workers: int, i: int) -> int {
    if i == workers - 1 {
        len
    } else {
        (i + 1) * (len / workers)
    }
}

/// `chunks` is the cut of `len` indices for `workers` workers, in worker order.
pub open spec fn is_chunk_plan(chunks: Seq<Chunk>, len: int, workers: int) -> bool {
    &&& chunks.len() == workers
    &&& forall|i: int|
        0 <= i < workers ==> {
            &&& (#[trigger] chunks[i]).worker_index == i
            &&& chunks[i].start == chunk_start(len, workers, i)
            &&& chunks[i].end == chunk_end(len, workers, i)
        }
}

/// The chunk that holds index `k`: the last chunk also holds the remainder.
pub open spec fn chunk_of(len: int, workers: int, k: int) -> int {
    let q = k / (len / workers);
    if q < workers - 1 {
        q
    } else {
        workers - 1
    }
}

/// Index `k` lies in chunk `i`.
pub open spec fn in_chunk(len: int, workers: int, i: int, k: int) -> bool {
    chunk_start(len, workers, i) <= k < chunk_end(len, workers, i)
}

proof fn lemma_mul_le(a: int, b: int, c: int)
    requires
        0 <= a <= b,
        0 <= c,
    ensures
        a * c <= b * c,
{
    assert(a * c <= b * c) by (nonlinear_arith)
        requires
            0 <= a <= b,
            0 <= c,
    ;
}

/// The chunks follow one another without gap or overlap: the first starts at
/// 0, each ends where the next starts, the last ends at `len`, and none is
/// empty.
pub proof fn lemma_chunks_contiguous(len: int, workers: int)
    requires
        1 <= workers <= len,
    ensures
        chunk_start(len, workers, 0) == 0,
        chunk_end(len, workers, workers - 1) == len,
        forall|i: int|
            0 <= i < workers - 1 ==> #[trigger] chunk_end(len, workers, i) == chunk_start(
                len,
                workers,
                i + 1,
            ),
        forall|i: int|
            0 <= i < workers ==> chunk_start(len, workers, i) < #[trigger] chunk_end(
                len,
                workers,
                i,
            ),
        forall|i: int| 0 <= i < workers ==> 0 <= #[trigger] chunk_start(len, workers, i),
{
    let cs = len / workers;
    lemma_fundamental_div_mod(len, workers);
    assert(cs >= 1) by (nonlinear_arith)
        requires
            1 <= workers <= len,
            cs == len / workers,
    ;
    assert(workers * cs <= len);
    assert forall|i: int| 0 <= i < workers implies chunk_start(len, workers, i) < #[trigger] chunk_end(
        len,
        workers,
        i,
    ) && 0 <= chunk_start(len, workers, i) by {
        assert(i * cs < (i + 1) * cs) by (nonlinear_arith)
            requires
                cs >= 1,
        ;
        lemma_mul_le(0, i, cs);
        if i == workers - 1 {
            lemma_mul_le(i + 1, workers, cs);
            assert((i + 1) * cs == workers * cs) by (nonlinear_arith)
                requires
                    i + 1 == workers,
            ;
        }
    }
    assert(chunk_start(len, workers, 0) == 0) by (nonlinear_arith);
}

/// Every index of `0..len` lies in exactly one chunk, however `len` divides
/// among the workers.
pub proof fn lemma_chunks_cover(len: int, workers: int)
    requires
        1 <= workers <= len,
    ensures
        forall|k: int|
            0 <= k < len ==> {
                let i = #[trigger] chunk_of(len, workers, k);
                0 <= i < workers && in_chunk(len, workers, i, k)
            },
        forall|k: int, i: int, j: int|
            0 <= i < workers && 0 <= j < workers && #[trigger] in_chunk(len, workers, i, k)
                && #[trigger] in_chunk(len, workers, j, k) ==> i == j,
{
    let cs = len / workers;
    lemma_fundamental_div_mod(len, workers);
    lemma_chunks_contiguous(len, workers);
    assert(cs >= 1) by (nonlinear_arith)
        requires
            1 <= workers <= len,
            cs == len / workers,
    ;
    assert forall|k: int| 0 <= k < len implies {
        let i = #[trigger] chunk_of(len, workers, k);
        0 <= i < workers && in_chunk(len, workers, i, k)
    } by {
        let q = k / cs;
        lemma_fundamental_div_mod(k, cs);
        assert(0 <= k % cs < cs);
        assert(q >= 0) by (nonlinear_arith)
            requires
                k >= 0,
                cs >= 1,
                q == k / cs,
        ;
        if q < workers - 1 {
            assert(in_chunk(len, workers, q, k)) by (nonlinear_arith)
                requires
                    k == cs * q + k % cs,
                    0 <= k % cs < cs,
                    q < workers - 1,
                    chunk_start(len, workers, q) == q * cs,
                    chunk_end(len, workers, q) == (q + 1) * cs,
            ;
        } else {
            lemma_mul_le(workers - 1, q, cs);
            assert(cs * q <= k);
            assert(in_chunk(len, workers, workers - 1, k));
        }
    }
    assert forall|k: int, i: int, j: int|
        0 <= i < workers && 0 <= j < workers && #[trigger] in_chunk(len, workers, i, k)
            && #[trigger] in_chunk(len, workers, j, k) implies i == j by {
        if i < j {
            lemma_mul_le(i + 1, j, cs);
        } else if j < i {
            lemma_mul_le(j + 1, i, cs);
        }
    }
}

/// The number of workers for an input of `len` elements: what the host
/// reports (`hw`), or `DEFAULT_WORKERS` when it cannot say, but never more
/// than there are elements.
pub fn worker_count(len: usize, hw: Option<usize>) -> (r: usize)
    requires
        hw matches Some(h) ==> h >= 1,
    ensures
        r as int == workers_for(len as int, hw),
        len >= 1 ==> 1 <= r <= len,
{
    let cap = match hw {
        Some(h) => h,
        None => DEFAULT_WORKERS,
    };
    if cap < len {
        cap
    } else {
        len
    }
}

/// Cuts the indices `0..len` into `workers` contiguous chunks, in worker
/// order; the last chunk absorbs the remainder of `len / workers`.
pub fn plan_chunks(len: usize, workers: usize) -> (r: Vec<Chunk>)
    requires
        1 <= workers <= len,
    ensures
        is_chunk_plan(r@, len as int, workers as int),
{
    let chunk_size = len / workers;
    proof {
        lemma_fundamental_div_mod(len as int, workers as int);
        lemma_chunks_contiguous(len as int, workers as int);
    }
    let mut chunks: Vec<Chunk> = Vec::with_capacity(workers);
    let mut i: usize = 0;
    while i < workers
        invariant
            1 <= workers <= len,
            chunk_size == len / workers,
            workers * chunk_size <= len,
            i <= workers,
            chunks@.len() == i,
            forall|j: int|
                0 <= j < i ==> {
                    &&& (#[trigger] chunks@[j]).worker_index == j
                    &&& chunks@[j].start == chunk_start(len as int, workers as int, j)
                    &&& chunks@[j].end == chunk_end(len as int, workers as int, j)
                },
        decreases workers - i,
    {
        proof {
            lemma_mul_le(i as int, (i + 1) as int, chunk_size as int);
            lemma_mul_le((i + 1) as int, workers as int, chunk_size as int);
        }
        let start = i * chunk_size;
        let end = if i == workers - 1 {
            len
        } else {
            (i + 1) * chunk_size
        };
        chunks.push(Chunk { worker_index: i, start, end });
        i += 1;
    }
    chunks
}

/// Decides how to map an input of `len` elements: on the calling thread up to
/// `THRESHOLD` elements, else over `worker_count(len, hw)` chunks.
pub fn plan(len: usize, hw: Option<usize>) -> (r: Plan)
    requires
        hw matches Some(h) ==> h >= 1,
    ensures
        (r is Sequential) <==> len <= THRESHOLD,
        r matches Plan::Parallel(chunks) ==> is_chunk_plan(
            chunks@,
            len as int,
            workers_for(len as int, hw),
        ),
{
    if len <= THRESHOLD {
        Plan::Sequential
    } else {
        let workers = worker_count(len, hw);
        Plan::Parallel(plan_chunks(len, workers))
    }
}

} // verus!
