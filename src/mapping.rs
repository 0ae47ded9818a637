//! Applying the transformation to a range of the input, and joining the
//! partial results of the chunks in chunk order.

use vstd::prelude::*;
use crate::partition::{chunk_start, chunk_end, lemma_chunks_contiguous};

verus! {

broadcast use vstd::seq_lib::group_seq_properties;

/// The elements of `parts`, one part after another.
pub open spec fn joined<R>(parts: Seq<Vec<R>>) -> Seq<R> {
    parts.map_values(|p: Vec<R>| p@).flatten()
}

/// Applies `f` to `input[start..end]` in index order; element `j` of the
/// result is what `f` gave for `input[start + j]`.
pub fn map_range<T, R, F: Fn(&T) -> R>(input: &Vec<T>, start: usize, end: usize, f: &F) -> (r: Vec<R>)
    requires
        start <= end <= input@.len(),
        forall|k: int| start <= k < end ==> f.requires((&input@[k],)),
    ensures
        r@.len() == end - start,
        forall|j: int| 0 <= j < r@.len() ==> f.ensures((&input@[start + j],), #[trigger] r@[j]),
{
    let mut out: Vec<R> = Vec::with_capacity(end - start);
    let mut k: usize = start;
    while k < end
        invariant
            start <= k <= end <= input@.len(),
            forall|m: int| start <= m < end ==> f.requires((&input@[m],)),
            out@.len() == k - start,
            forall|j: int| 0 <= j < out@.len() ==> f.ensures((&input@[start + j],), #[trigger] out@[j]),
        decreases end - k,
    {
        let y = f(&input[k]);
        out.push(y);
        k += 1;
    }
    out
}

/// The sequential path: applies `f` to every element, in index order, on the
/// calling thread.
pub fn map_sequential<T, R, F: Fn(&T) -> R>(input: &Vec<T>, f: &F) -> (r: Vec<R>)
    requires
        forall|k: int| 0 <= k < input@.len() ==> f.requires((&input@[k],)),
    ensures
        r@.len() == input@.len(),
        forall|k: int| 0 <= k < r@.len() ==> f.ensures((&input@[k],), #[trigger] r@[k]),
{
    map_range(input, 0, input.len(), f)
}

/// Joins partial results in the order given: the first part's elements, then
/// the second's, and so on.
pub fn concat_parts<R>(parts: Vec<Vec<R>>) -> (r: Vec<R>)
    ensures
        r@ == joined(parts@),
{
    let ghost all = parts@;
    let mut rest = parts;
    let mut out: Vec<R> = Vec::new();
    while rest.len() > 0
        invariant
            out@ + joined(rest@) == joined(all),
        decreases rest@.len(),
    {
        proof {
            let views = rest@.map_values(|p: Vec<R>| p@);
            assert(views.drop_first() =~= rest@.drop_first().map_values(|p: Vec<R>| p@));
        }
        let ghost before = out@;
        let ghost rest_before = rest@;
        // There is one part per worker, so taking them from the front is cheap.
        let mut part = rest.remove(0);
        proof {
            assert(rest@ =~= rest_before.drop_first());
            assert(joined(rest_before) == part@ + joined(rest@));
        }
        out.append(&mut part);
        proof {
            assert(out@ + joined(rest@) =~= before + joined(rest_before));
        }
    }
    proof {
        assert(joined(rest@) =~= Seq::<R>::empty());
        assert(out@ + joined(rest@) =~= out@);
    }
    out
}

/// Where the joined results of the first `n` chunks end.
spec fn prefix_end(len: int, workers: int, n: int) -> int {
    if n == workers {
        len
    } else {
        chunk_start(len, workers, n)
    }
}

/// `parts[i]` holds, in order, what `f` gave for each element of chunk `i`
/// of `input`, cut for `workers` workers.
pub open spec fn chunk_results<T, R, F: Fn(&T) -> R>(
    input: Seq<T>,
    f: F,
    workers: int,
    parts: Seq<Vec<R>>,
) -> bool {
    let len = input.len() as int;
    &&& parts.len() == workers
    &&& forall|i: int|
        0 <= i < workers ==> (#[trigger] parts[i])@.len() == chunk_end(len, workers, i)
            - chunk_start(len, workers, i)
    &&& forall|i: int, j: int|
        0 <= i < workers && 0 <= j < parts[i]@.len() ==> f.ensures(
            (&input[chunk_start(len, workers, i) + j],),
            #[trigger] parts[i]@[j],
        )
}

proof fn lemma_joined_prefix<T, R, F: Fn(&T) -> R>(
    input: Seq<T>,
    f: F,
    workers: int,
    parts: Seq<Vec<R>>,
    n: int,
)
    requires
        1 <= workers <= input.len(),
        chunk_results(input, f, workers, parts),
        0 <= n <= workers,
    ensures
        joined(parts.take(n)).len() == prefix_end(input.len() as int, workers, n),
        forall|k: int|
            0 <= k < prefix_end(input.len() as int, workers, n) ==> f.ensures(
                (&input[k],),
                #[trigger] joined(parts.take(n))[k],
            ),
    decreases n,
{
    let len = input.len() as int;
    lemma_chunks_contiguous(len, workers);
    if n == 0 {
        assert(parts.take(0).map_values(|p: Vec<R>| p@) =~= Seq::<Seq<R>>::empty());
        assert(joined(parts.take(0)) =~= Seq::<R>::empty());
    } else {
        lemma_joined_prefix(input, f, workers, parts, n - 1);
        let prev = parts.take(n - 1);
        let last = parts[n - 1];
        let views = prev.map_values(|p: Vec<R>| p@);
        assert(parts.take(n).map_values(|p: Vec<R>| p@) =~= views.push(last@));
        views.lemma_flatten_push(last@);
        let whole = joined(parts.take(n));
        assert(whole =~= joined(prev) + last@);
        let base = chunk_start(len, workers, n - 1);
        assert(prefix_end(len, workers, n - 1) == base);
        assert(prefix_end(len, workers, n) == chunk_end(len, workers, n - 1));
        assert forall|k: int| 0 <= k < prefix_end(len, workers, n) implies f.ensures(
            (&input[k],),
            #[trigger] whole[k],
        ) by {
            if k >= base {
                let j = k - base;
                assert(whole[k] == last@[j]);
                assert(f.ensures((&input[base + j],), parts[n - 1]@[j]));
            } else {
                assert(whole[k] == joined(prev)[k]);
            }
        }
    }
}

/// Joining the chunk results in chunk order puts, at every index `k`, what
/// `f` gave for `input[k]`: the order of the input is kept whatever the number
/// of workers.
pub proof fn lemma_join_preserves_order<T, R, F: Fn(&T) -> R>(
    input: Seq<T>,
    f: F,
    workers: int,
    parts: Seq<Vec<R>>,
)
    requires
        1 <= workers <= input.len(),
        chunk_results(input, f, workers, parts),
    ensures
        joined(parts).len() == input.len(),
        forall|k: int|
            0 <= k < input.len() ==> f.ensures((&input[k],), #[trigger] joined(parts)[k]),
{
    lemma_joined_prefix(input, f, workers, parts, workers);
    assert(parts.take(workers) =~= parts);
}

/// For a pure `f` (one that gives `g(x)` for every `x`), the parallel path
/// and the sequential path return the same sequence: `g` applied to every
/// element of the input, in order.
pub proof fn lemma_parallel_matches_sequential<T, R, F: Fn(&T) -> R>(
    input: Seq<T>,
    f: F,
    g: spec_fn(T) -> R,
    workers: int,
    parts: Seq<Vec<R>>,
    sequential: Seq<R>,
)
    requires
        forall|x: T, y: R| #[trigger] f.ensures((&x,), y) ==> y == g(x),
        1 <= workers <= input.len(),
        chunk_results(input, f, workers, parts),
        sequential.len() == input.len(),
        forall|k: int| 0 <= k < input.len() ==> f.ensures((&input[k],), #[trigger] sequential[k]),
    ensures
        joined(parts) == sequential,
        sequential == input.map_values(g),
{
    lemma_join_preserves_order(input, f, workers, parts);
    assert(joined(parts) =~= sequential);
    assert(sequential =~= input.map_values(g));
}

} // verus!
