//! A pass over all points, batch by batch.
use crate::arithmetic::{is_sum, lemma_sum_grows, Arithmetic};
use crate::assignment::{
    compute_chunk_assignments_only, is_batch_assigned, is_batch_nearest, lemma_assigned_below,
};
use crate::batch::{
    add_point, compute_chunk_assignments, is_chunk_result, is_tally, lemma_occurrences_add,
    lemma_occurrences_bounded, occurrences, ChunkResult,
};
use crate::layout::{
    append_range, joined, lemma_joined_all, lemma_joined_part, lemma_product_monotone, overwrite,
    repeated,
};
use crate::parallel::map_indices;
use crate::ranking::is_farthest;
use vstd::prelude::*;
use vstd::slice::slice_subrange;

verus! {

/// What a pass over all points contributes to the update of the centroids.
#[derive(Debug)]
pub struct AssignmentSummary<V> {
    /// The number of points of each cluster.
    pub counts: Vec<usize>,
    /// The sum of the points of each cluster, row after row.
    pub sums: Vec<V>,
    /// The distance keys and the rows of the farthest points of each batch.
    pub candidates: Vec<(i64, usize)>,
}

/// How many batches of at most `block` rows there are.
pub open spec fn chunk_count(rows: int, block: int) -> int {
    (rows + block - 1) / block
}

/// The first row of batch `i`.
pub open spec fn chunk_start(i: int, block: int) -> int {
    i * block
}

/// The row after the last one of batch `i`.
pub open spec fn chunk_end(i: int, block: int, rows: int) -> int {
    if (i + 1) * block < rows {
        (i + 1) * block
    } else {
        rows
    }
}

/// The batches follow one another, none is empty or too long, and the last one ends
/// with the last row.
pub(crate) proof fn lemma_chunks(rows: int, block: int)
    requires
        0 <= rows,
        0 < block,
    ensures
        0 <= chunk_count(rows, block) <= rows,
        rows == 0 ==> chunk_count(rows, block) == 0,
        rows > 0 ==> chunk_count(rows, block) > 0 && chunk_end(
            chunk_count(rows, block) - 1,
            block,
            rows,
        ) == rows,
        forall|i: int|
            #![trigger chunk_start(i, block)]
            0 <= i < chunk_count(rows, block) ==> {
                &&& 0 <= chunk_start(i, block) < chunk_end(i, block, rows) <= rows
                &&& chunk_end(i, block, rows) - chunk_start(i, block) <= block
                &&& i + 1 < chunk_count(rows, block) ==> chunk_end(i, block, rows) == chunk_start(
                    i + 1,
                    block,
                )
            },
{
    let count = chunk_count(rows, block);
    let total = rows + block - 1;
    vstd::arithmetic::div_mod::lemma_fundamental_div_mod(total, block);
    assert(0 <= total % block < block) by {
        vstd::arithmetic::div_mod::lemma_mod_bound(total, block);
    }
    assert(block * count + total % block == total);
    assert(block * count == count * block) by (nonlinear_arith);
    assert(count * block <= rows + block - 1);
    assert(count * block >= rows);
    assert(0 <= count <= rows) by (nonlinear_arith)
        requires
            0 <= rows,
            0 < block,
            rows <= count * block <= rows + block - 1,
    ;
    assert((count - 1) * block == count * block - block) by (nonlinear_arith);
    assert(rows > 0 ==> count > 0) by (nonlinear_arith)
        requires
            0 <= count,
            count * block >= rows,
    ;
    assert((count - 1 + 1) * block == count * block);
    assert forall|i: int| #![trigger chunk_start(i, block)] 0 <= i < count implies {
        &&& 0 <= chunk_start(i, block) < chunk_end(i, block, rows) <= rows
        &&& chunk_end(i, block, rows) - chunk_start(i, block) <= block
        &&& i + 1 < count ==> chunk_end(i, block, rows) == chunk_start(i + 1, block)
    } by {
        assert((i + 1) * block == i * block + block) by (nonlinear_arith);
        lemma_product_monotone(0, i, block);
        lemma_product_monotone(i, count - 1, block);
        if i + 1 < count {
            lemma_product_monotone(i + 1, count - 1, block);
        }
    }
}

/// `data` cut to the rows of batch `i`.
pub open spec fn chunk_data<T>(data: Seq<T>, i: int, block: int, rows: int, dim: int) -> Seq<T> {
    data.subrange(chunk_start(i, block) * dim, chunk_end(i, block, rows) * dim)
}

/// What belongs to the rows of batch `i` in a list with one item for each row.
pub open spec fn chunk_items<T>(items: Seq<T>, i: int, block: int, rows: int) -> Seq<T> {
    items.subrange(chunk_start(i, block), chunk_end(i, block, rows))
}

/// `chunks` holds the results of all batches in their order.
pub open spec fn is_swept<A: Arithmetic>(
    data: Seq<A::Value>,
    norms: Seq<A::Value>,
    dim: usize,
    columns: Seq<A::Value>,
    centroid_norms: Seq<A::Value>,
    block: usize,
    chunks: Seq<ChunkResult<A::Value>>,
) -> bool {
    let rows = norms.len() as int;
    &&& chunks.len() == chunk_count(rows, block as int)
    &&& forall|i: int|
        0 <= i < chunks.len() ==> is_chunk_result::<A>(
            chunk_start(i, block as int) as usize,
            chunk_data(data, i, block as int, rows, dim as int),
            chunk_items(norms, i, block as int, rows),
            dim,
            columns,
            centroid_norms,
            #[trigger] chunks[i],
        )
}

/// The assignments of each batch.
pub open spec fn chunk_assignments<V>(chunks: Seq<ChunkResult<V>>) -> Seq<Seq<usize>> {
    Seq::new(chunks.len(), |i: int| chunks[i].assignments@)
}

/// The candidates of each batch.
pub open spec fn chunk_candidates<V>(chunks: Seq<ChunkResult<V>>) -> Seq<Seq<(i64, usize)>> {
    Seq::new(chunks.len(), |i: int| chunks[i].candidates@)
}

/// The sums of the batches at one place.
pub open spec fn chunk_sums<V>(chunks: Seq<ChunkResult<V>>, place: int) -> Seq<V> {
    Seq::new(chunks.len(), |i: int| chunks[i].sums@[place])
}

/// `assigned` and `summary` put the results of the batches together.
pub open spec fn is_merged<A: Arithmetic>(
    chunks: Seq<ChunkResult<A::Value>>,
    k: int,
    dim: int,
    assigned: Seq<usize>,
    summary: AssignmentSummary<A::Value>,
) -> bool {
    &&& assigned == joined(chunk_assignments(chunks))
    &&& summary.counts@.len() == k
    &&& is_tally(assigned, summary.counts@)
    &&& summary.sums@.len() == k * dim
    &&& forall|place: int|
        0 <= place < k * dim ==> is_sum::<A>(
            chunk_sums(chunks, place),
            #[trigger] summary.sums@[place],
        )
    &&& summary.candidates@ == joined(chunk_candidates(chunks))
}

/// All points are assigned to their nearest centroids, and `summary` is what the
/// update of the centroids needs of it.
pub open spec fn is_summarized<A: Arithmetic>(
    data: Seq<A::Value>,
    norms: Seq<A::Value>,
    dim: usize,
    columns: Seq<A::Value>,
    centroid_norms: Seq<A::Value>,
    block: usize,
    assigned: Seq<usize>,
    summary: AssignmentSummary<A::Value>,
) -> bool {
    exists|chunks: Seq<ChunkResult<A::Value>>| #[trigger]
        is_swept::<A>(data, norms, dim, columns, centroid_norms, block, chunks) && is_merged::<A>(
            chunks,
            centroid_norms.len() as int,
            dim as int,
            assigned,
            summary,
        )
}

/// All points are assigned to their nearest centroids, batch by batch.
pub open spec fn is_assigned<A: Arithmetic>(
    data: Seq<A::Value>,
    norms: Seq<A::Value>,
    dim: usize,
    columns: Seq<A::Value>,
    centroid_norms: Seq<A::Value>,
    block: usize,
    assigned: Seq<usize>,
) -> bool {
    let rows = norms.len() as int;
    &&& assigned.len() == rows
    &&& forall|i: int|
        0 <= i < chunk_count(rows, block as int) ==> is_batch_nearest::<A>(
            chunk_data(data, i, block as int, rows, dim as int),
            chunk_items(norms, i, block as int, rows),
            dim,
            columns,
            centroid_norms,
            #[trigger] chunk_items(assigned, i, block as int, rows),
        )
}

/// The largest number of rows of a batch.
pub open spec fn largest_chunk(rows: int, block: int) -> int {
    if block < rows {
        block
    } else {
        rows
    }
}

/// What a pass over the points asks of its inputs: that they fit together, and that
/// no index leaves the range of the machine.
pub open spec fn can_sweep(
    data_len: int,
    rows: int,
    k: int,
    dim: int,
    columns_len: int,
    norms_len: int,
    block: int,
) -> bool {
    &&& block > 0
    &&& data_len >= rows * dim
    &&& columns_len >= dim * k
    &&& norms_len >= k
    &&& rows + block <= usize::MAX
    &&& largest_chunk(rows, block) * k <= usize::MAX
}

/// The bounds of batch `i`.
fn chunk_bounds(i: usize, block: usize, rows: usize) -> (bounds: (usize, usize))
    requires
        block > 0,
        rows + block <= usize::MAX,
        i < chunk_count(rows as int, block as int),
    ensures
        bounds.0 == chunk_start(i as int, block as int),
        bounds.1 == chunk_end(i as int, block as int, rows as int),
        bounds.0 < bounds.1 <= rows,
        bounds.1 - bounds.0 <= largest_chunk(rows as int, block as int),
{
    proof {
        lemma_chunks(rows as int, block as int);
        assert(chunk_start(i as int, block as int) < rows);
        assert((i + 1) * block == i * block + block) by (nonlinear_arith);
    }
    let start: usize = i * block;
    let past: usize = (i + 1) * block;
    let end: usize = if past < rows {
        past
    } else {
        rows
    };
    (start, end)
}

/// How many batches there are.
fn count_chunks(rows: usize, block: usize) -> (count: usize)
    requires
        block > 0,
        rows + block <= usize::MAX,
    ensures
        count == chunk_count(rows as int, block as int),
{
    (rows + block - 1) / block
}

/// Assigns every point to its nearest centroid, batch by batch.
pub fn assign_full_dataset<A: Arithmetic>(
    data: &[A::Value],
    norms: &[A::Value],
    k: usize,
    dim: usize,
    centroid_col: &[A::Value],
    centroid_norms: &[A::Value],
    decode_block_size: usize,
) -> (assignments: Vec<usize>)
    requires
        can_sweep(
            data@.len() as int,
            norms@.len() as int,
            k as int,
            dim as int,
            centroid_col@.len() as int,
            centroid_norms@.len() as int,
            decode_block_size as int,
        ),
    ensures
        is_assigned::<A>(
            data@,
            norms@,
            dim,
            centroid_col@.take(dim * k),
            centroid_norms@.take(k as int),
            decode_block_size,
            assignments@,
        ),
        k > 0 ==> forall|r: int| 0 <= r < norms@.len() ==> #[trigger] assignments@[r] < k,
{
    let rows: usize = norms.len();
    let data_size: usize = data.len();
    let columns_size: usize = centroid_col.len();
    let centroid_col = slice_subrange(centroid_col, 0, dim * k);
    let centroid_norms = slice_subrange(centroid_norms, 0, k);
    let num_chunks: usize = count_chunks(rows, decode_block_size);
    let assign_chunk = |chunk_idx: usize| -> (chunk: (usize, Vec<usize>))
        requires
            chunk_idx < num_chunks,
        ensures
            chunk.0 == chunk_start(chunk_idx as int, decode_block_size as int),
            is_batch_nearest::<A>(
                chunk_data(
                    data@,
                    chunk_idx as int,
                    decode_block_size as int,
                    rows as int,
                    dim as int,
                ),
                chunk_items(norms@, chunk_idx as int, decode_block_size as int, rows as int),
                dim,
                centroid_col@,
                centroid_norms@,
                chunk.1@,
            ),
            k > 0 ==> forall|r: int| 0 <= r < chunk.1@.len() ==> #[trigger] chunk.1@[r] < k,
        {
            let (start, end) = chunk_bounds(chunk_idx, decode_block_size, rows);
            let len: usize = end - start;
            proof {
                lemma_product_monotone(start as int, end as int, dim as int);
                lemma_product_monotone(end as int, rows as int, dim as int);
                lemma_product_monotone(
                    len as int,
                    largest_chunk(rows as int, decode_block_size as int),
                    k as int,
                );
                assert(end * dim - start * dim == len * dim) by (nonlinear_arith)
                    requires
                        len == end - start,
                ;
            }
            let data_chunk = slice_subrange(data, start * dim, end * dim);
            let norms_chunk = slice_subrange(norms, start, end);
            assert(data_chunk@.take(len * dim) =~= data_chunk@);
            assert(norms_chunk@.take(len as int) =~= norms_chunk@);
            assert(centroid_col@.take(dim * k) =~= centroid_col@);
            assert(centroid_norms@.take(k as int) =~= centroid_norms@);
            let assignments = compute_chunk_assignments_only::<A>(
                data_chunk,
                norms_chunk,
                len,
                k,
                dim,
                centroid_col,
                centroid_norms,
            );
            (start, assignments)
        };
    let results: Vec<(usize, Vec<usize>)> = map_indices(num_chunks, assign_chunk);
    let mut assignments: Vec<usize> = repeated(0usize, rows);
    let block: usize = decode_block_size;
    let mut i: usize = 0;
    proof {
        lemma_chunks(rows as int, block as int);
        assert forall|j: int| 0 <= j < num_chunks implies (#[trigger] results@[j]).0 == chunk_start(
            j,
            block as int,
        ) && is_batch_nearest::<A>(
            chunk_data(data@, j, block as int, rows as int, dim as int),
            chunk_items(norms@, j, block as int, rows as int),
            dim,
            centroid_col@,
            centroid_norms@,
            results@[j].1@,
        ) && (k > 0 ==> forall|r: int|
            0 <= r < results@[j].1@.len() ==> #[trigger] results@[j].1@[r] < k) by {
            assert(call_ensures(assign_chunk, (j as usize,), results@[j]));
        }
    }
    while i < num_chunks
        invariant
            i <= num_chunks,
            block == decode_block_size,
            rows == norms@.len(),
            results@.len() == num_chunks,
            num_chunks == chunk_count(rows as int, block as int),
            block > 0,
            assignments@.len() == rows,
            forall|j: int|
                0 <= j < num_chunks ==> (#[trigger] results@[j]).0 == chunk_start(j, block as int)
                    && is_batch_nearest::<A>(
                    chunk_data(data@, j, block as int, rows as int, dim as int),
                    chunk_items(norms@, j, block as int, rows as int),
                    dim,
                    centroid_col@,
                    centroid_norms@,
                    results@[j].1@,
                ) && (k > 0 ==> forall|r: int|
                    0 <= r < results@[j].1@.len() ==> #[trigger] results@[j].1@[r] < k),
            forall|j: int|
                0 <= j < i ==> #[trigger] chunk_items(assignments@, j, block as int, rows as int)
                    == results@[j].1@,
            k > 0 ==> forall|r: int|
                0 <= r < (if i < num_chunks {
                    chunk_start(i as int, block as int)
                } else {
                    rows as int
                }) ==> #[trigger] assignments@[r] < k,
        decreases num_chunks - i,
    {
        let start: usize = results[i].0;
        let chunk: &Vec<usize> = &results[i].1;
        proof {
            lemma_chunks(rows as int, block as int);
            assert(chunk@.len() == chunk_end(i as int, block as int, rows as int) - start);
        }
        let ghost before = assignments@;
        overwrite(&mut assignments, start, chunk.as_slice());
        assert forall|j: int| 0 <= j < i + 1 implies #[trigger] chunk_items(
            assignments@,
            j,
            block as int,
            rows as int,
        ) == results@[j].1@ by {
            if j < i {
                assert(chunk_items(before, j, block as int, rows as int) == results@[j].1@);
                assert((j + 1) * block == j * block + block) by (nonlinear_arith);
                lemma_product_monotone(j + 1, i as int, block as int);
                assert(0 <= chunk_start(j, block as int));
                assert(chunk_items(assignments@, j, block as int, rows as int) =~= chunk_items(
                    before,
                    j,
                    block as int,
                    rows as int,
                ));
            } else {
                assert(chunk_items(assignments@, j, block as int, rows as int) =~= chunk@);
            }
        }
        i = i + 1;
    }
    proof {
        assert forall|j: int| 0 <= j < num_chunks implies is_batch_nearest::<A>(
            chunk_data(data@, j, block as int, rows as int, dim as int),
            chunk_items(norms@, j, block as int, rows as int),
            dim,
            centroid_col@,
            centroid_norms@,
            #[trigger] chunk_items(assignments@, j, block as int, rows as int),
        ) by {
            assert(results@[j].0 == chunk_start(j, block as int));
        }
    }
    assignments
}

/// Every batch assigns its own rows to clusters there are, and its candidates are
/// among its rows.
pub(crate) proof fn lemma_swept<A: Arithmetic>(
    data: Seq<A::Value>,
    norms: Seq<A::Value>,
    dim: usize,
    columns: Seq<A::Value>,
    centroid_norms: Seq<A::Value>,
    block: usize,
    chunks: Seq<ChunkResult<A::Value>>,
    i: int,
)
    requires
        block > 0,
        norms.len() <= usize::MAX,
        centroid_norms.len() > 0,
        is_swept::<A>(data, norms, dim, columns, centroid_norms, block, chunks),
        0 <= i < chunks.len(),
    ensures
        chunks[i].start == chunk_start(i, block as int),
        chunks[i].assignments@.len() == chunk_end(i, block as int, norms.len() as int)
            - chunk_start(i, block as int),
        forall|r: int|
            0 <= r < chunks[i].assignments@.len() ==> #[trigger] chunks[i].assignments@[r]
                < centroid_norms.len(),
        forall|j: int|
            0 <= j < chunks[i].candidates@.len() ==> (#[trigger] chunks[i].candidates@[j]).1
                < norms.len(),
{
    let rows = norms.len() as int;
    lemma_chunks(rows, block as int);
    assert(0 <= chunk_start(i, block as int) < rows);
    let part = chunk_data(data, i, block as int, rows, dim as int);
    let part_norms = chunk_items(norms, i, block as int, rows);
    let chunk = chunks[i];
    assert(is_chunk_result::<A>(
        chunk_start(i, block as int) as usize,
        part,
        part_norms,
        dim,
        columns,
        centroid_norms,
        chunk,
    ));
    let keys = choose|keys: Seq<i64>| #[trigger]
        is_batch_assigned::<A>(
            part,
            part_norms,
            dim,
            columns,
            centroid_norms,
            chunk.assignments@,
            keys,
        ) && is_farthest(keys, chunk_start(i, block as int), chunk.candidates@);
    lemma_assigned_below::<A>(
        part,
        part_norms,
        dim,
        columns,
        centroid_norms,
        chunk.assignments@,
        keys,
    );
}

/// After a pass every point is assigned to a cluster there is, and the candidates
/// are rows there are.
pub(crate) proof fn lemma_summarized<A: Arithmetic>(
    data: Seq<A::Value>,
    norms: Seq<A::Value>,
    dim: usize,
    columns: Seq<A::Value>,
    centroid_norms: Seq<A::Value>,
    block: usize,
    assigned: Seq<usize>,
    summary: AssignmentSummary<A::Value>,
)
    requires
        block > 0,
        norms.len() <= usize::MAX,
        norms.len() > 0 ==> centroid_norms.len() > 0,
        is_summarized::<A>(
            data,
            norms,
            dim,
            columns,
            centroid_norms,
            block,
            assigned,
            summary,
        ),
    ensures
        assigned.len() == norms.len(),
        forall|r: int| 0 <= r < assigned.len() ==> #[trigger] assigned[r] < centroid_norms.len(),
        forall|j: int|
            0 <= j < summary.candidates@.len() ==> (#[trigger] summary.candidates@[j]).1
                < norms.len(),
{
    let rows = norms.len() as int;
    let chunks = choose|chunks: Seq<ChunkResult<A::Value>>| #[trigger]
        is_swept::<A>(data, norms, dim, columns, centroid_norms, block, chunks) && is_merged::<A>(
            chunks,
            centroid_norms.len() as int,
            dim as int,
            assigned,
            summary,
        );
    lemma_chunks(rows, block as int);
    lemma_joined_assignments_len::<A>(
        data,
        norms,
        dim,
        columns,
        centroid_norms,
        block,
        chunks,
        chunks.len() as int,
    );
    assert(chunks.take(chunks.len() as int) =~= chunks);
    let k = centroid_norms.len();
    let lists = chunk_assignments(chunks);
    let below = |cluster: usize| cluster < k;
    assert forall|i: int, j: int| 0 <= i < lists.len() && 0 <= j < lists[i].len() implies below(
        #[trigger] lists[i][j],
    ) by {
        lemma_swept::<A>(data, norms, dim, columns, centroid_norms, block, chunks, i);
        assert(chunks[i].assignments@[j] < k);
    }
    lemma_joined_all(lists, below);
    assert forall|r: int| 0 <= r < assigned.len() implies #[trigger] assigned[r] < k by {
        assert(below(joined(lists)[r]));
    }
    let candidates = chunk_candidates(chunks);
    let inside = |candidate: (i64, usize)| candidate.1 < rows;
    assert forall|i: int, j: int|
        0 <= i < candidates.len() && 0 <= j < candidates[i].len() implies inside(
        #[trigger] candidates[i][j],
    ) by {
        lemma_swept::<A>(data, norms, dim, columns, centroid_norms, block, chunks, i);
        assert(chunks[i].candidates@[j].1 < rows);
    }
    lemma_joined_all(candidates, inside);
    assert forall|j: int| 0 <= j < summary.candidates@.len() implies (
    #[trigger] summary.candidates@[j]).1 < rows by {
        assert(inside(joined(candidates)[j]));
    }
}

/// The assignments of the first batches are as many as their rows.
pub(crate) proof fn lemma_joined_assignments_len<A: Arithmetic>(
    data: Seq<A::Value>,
    norms: Seq<A::Value>,
    dim: usize,
    columns: Seq<A::Value>,
    centroid_norms: Seq<A::Value>,
    block: usize,
    chunks: Seq<ChunkResult<A::Value>>,
    count: int,
)
    requires
        block > 0,
        norms.len() <= usize::MAX,
        norms.len() > 0 ==> centroid_norms.len() > 0,
        is_swept::<A>(data, norms, dim, columns, centroid_norms, block, chunks),
        0 <= count <= chunks.len(),
    ensures
        joined(chunk_assignments(chunks.take(count))).len() == if count < chunks.len() {
            chunk_start(count, block as int)
        } else {
            norms.len() as int
        },
    decreases count,
{
    lemma_chunks(norms.len() as int, block as int);
    if count > 0 {
        lemma_joined_assignments_len::<A>(
            data,
            norms,
            dim,
            columns,
            centroid_norms,
            block,
            chunks,
            count - 1,
        );
        lemma_swept::<A>(data, norms, dim, columns, centroid_norms, block, chunks, count - 1);
        assert(chunk_assignments(chunks.take(count)).drop_last() =~= chunk_assignments(
            chunks.take(count - 1),
        ));
        assert(chunk_start(count - 1, block as int) >= 0);
    } else {
        assert(chunk_start(0, block as int) == 0) by (nonlinear_arith);
    }
}

/// The assignments of a batch stand at its rows in the joint list.
pub(crate) proof fn lemma_chunk_in_place<A: Arithmetic>(
    data: Seq<A::Value>,
    norms: Seq<A::Value>,
    dim: usize,
    columns: Seq<A::Value>,
    centroid_norms: Seq<A::Value>,
    block: usize,
    chunks: Seq<ChunkResult<A::Value>>,
    i: int,
)
    requires
        block > 0,
        norms.len() <= usize::MAX,
        centroid_norms.len() > 0,
        is_swept::<A>(data, norms, dim, columns, centroid_norms, block, chunks),
        0 <= i < chunks.len(),
    ensures
        chunk_items(joined(chunk_assignments(chunks)), i, block as int, norms.len() as int)
            == chunks[i].assignments@,
{
    let rows = norms.len() as int;
    let parts = chunk_assignments(chunks);
    lemma_chunks(rows, block as int);
    assert(0 <= chunk_start(i, block as int));
    lemma_joined_assignments_len::<A>(
        data,
        norms,
        dim,
        columns,
        centroid_norms,
        block,
        chunks,
        i,
    );
    lemma_joined_assignments_len::<A>(
        data,
        norms,
        dim,
        columns,
        centroid_norms,
        block,
        chunks,
        i + 1,
    );
    assert(chunk_assignments(chunks.take(i)) =~= parts.take(i));
    assert(chunk_assignments(chunks.take(i + 1)) =~= parts.take(i + 1));
    lemma_joined_part(parts, i);
}

/// A pass for the update of the centroids assigns the points as a full pass does.
pub(crate) proof fn lemma_summarized_is_assigned<A: Arithmetic>(
    data: Seq<A::Value>,
    norms: Seq<A::Value>,
    dim: usize,
    columns: Seq<A::Value>,
    centroid_norms: Seq<A::Value>,
    block: usize,
    assigned: Seq<usize>,
    summary: AssignmentSummary<A::Value>,
)
    requires
        block > 0,
        norms.len() <= usize::MAX,
        centroid_norms.len() > 0,
        is_summarized::<A>(
            data,
            norms,
            dim,
            columns,
            centroid_norms,
            block,
            assigned,
            summary,
        ),
    ensures
        is_assigned::<A>(data, norms, dim, columns, centroid_norms, block, assigned),
{
    let rows = norms.len() as int;
    lemma_summarized::<A>(
        data,
        norms,
        dim,
        columns,
        centroid_norms,
        block,
        assigned,
        summary,
    );
    let chunks = choose|chunks: Seq<ChunkResult<A::Value>>| #[trigger]
        is_swept::<A>(data, norms, dim, columns, centroid_norms, block, chunks) && is_merged::<A>(
            chunks,
            centroid_norms.len() as int,
            dim as int,
            assigned,
            summary,
        );
    assert forall|i: int| 0 <= i < chunk_count(rows, block as int) implies is_batch_nearest::<A>(
        chunk_data(data, i, block as int, rows, dim as int),
        chunk_items(norms, i, block as int, rows),
        dim,
        columns,
        centroid_norms,
        #[trigger] chunk_items(assigned, i, block as int, rows),
    ) by {
        lemma_chunk_in_place::<A>(
            data,
            norms,
            dim,
            columns,
            centroid_norms,
            block,
            chunks,
            i,
        );
        assert(is_chunk_result::<A>(
            chunk_start(i, block as int) as usize,
            chunk_data(data, i, block as int, rows, dim as int),
            chunk_items(norms, i, block as int, rows),
            dim,
            columns,
            centroid_norms,
            chunks[i],
        ));
    }
}

/// Adds the counts of a batch to those of the batches before it.
fn add_counts(
    counts: &mut Vec<usize>,
    chunk_counts: &Vec<usize>,
    Ghost(done): Ghost<Seq<usize>>,
    Ghost(added): Ghost<Seq<usize>>,
)
    requires
        old(counts)@.len() == chunk_counts@.len(),
        done.len() + added.len() <= usize::MAX,
        is_tally(done, old(counts)@),
        is_tally(added, chunk_counts@),
    ensures
        final(counts)@.len() == old(counts)@.len(),
        is_tally(done + added, final(counts)@),
{
    let k: usize = counts.len();
    let ghost before = counts@;
    let mut cluster: usize = 0;
    while cluster < k
        invariant
            cluster <= k,
            counts@.len() == k,
            before.len() == k,
            chunk_counts@.len() == k,
            done.len() + added.len() <= usize::MAX,
            is_tally(done, before),
            is_tally(added, chunk_counts@),
            forall|c: int|
                0 <= c < cluster ==> #[trigger] counts@[c] == occurrences(done + added, c),
            forall|c: int| cluster <= c < k ==> #[trigger] counts@[c] == before[c],
        decreases k - cluster,
    {
        proof {
            lemma_occurrences_add(done, added, cluster as int);
            lemma_occurrences_bounded(done + added, cluster as int);
            assert(before[cluster as int] == occurrences(done, cluster as int));
            assert(chunk_counts@[cluster as int] == occurrences(added, cluster as int));
        }
        counts.set(cluster, counts[cluster] + chunk_counts[cluster]);
        cluster = cluster + 1;
    }
}

/// Assigns every point to its nearest centroid, batch by batch, and puts together
/// what the update of the centroids needs.
pub fn assign_points_for_update<A: Arithmetic>(
    data: &[A::Value],
    norms: &[A::Value],
    assignments: &mut Vec<usize>,
    k: usize,
    dim: usize,
    centroid_col: &[A::Value],
    centroid_norms: &[A::Value],
    decode_block_size: usize,
) -> (summary: AssignmentSummary<A::Value>)
    requires
        can_sweep(
            data@.len() as int,
            norms@.len() as int,
            k as int,
            dim as int,
            centroid_col@.len() as int,
            centroid_norms@.len() as int,
            decode_block_size as int,
        ),
        norms@.len() > 0 ==> k > 0,
        old(assignments)@.len() >= norms@.len(),
    ensures
        is_summarized::<A>(
            data@,
            norms@,
            dim,
            centroid_col@.take(dim * k),
            centroid_norms@.take(k as int),
            decode_block_size,
            final(assignments)@.take(norms@.len() as int),
            summary,
        ),
        final(assignments)@.len() == old(assignments)@.len(),
        final(assignments)@.skip(norms@.len() as int) == old(assignments)@.skip(
            norms@.len() as int,
        ),
{
    let rows: usize = norms.len();
    let data_size: usize = data.len();
    let columns_size: usize = centroid_col.len();
    let centroid_col = slice_subrange(centroid_col, 0, dim * k);
    let centroid_norms = slice_subrange(centroid_norms, 0, k);
    let block: usize = decode_block_size;
    let num_chunks: usize = count_chunks(rows, block);
    assert(dim * k == k * dim) by (nonlinear_arith);
    let assign_chunk = |chunk_idx: usize| -> (chunk: ChunkResult<A::Value>)
        requires
            chunk_idx < num_chunks,
        ensures
            is_chunk_result::<A>(
                chunk_start(chunk_idx as int, block as int) as usize,
                chunk_data(data@, chunk_idx as int, block as int, rows as int, dim as int),
                chunk_items(norms@, chunk_idx as int, block as int, rows as int),
                dim,
                centroid_col@,
                centroid_norms@,
                chunk,
            ),
        {
            let (start, end) = chunk_bounds(chunk_idx, block, rows);
            let len: usize = end - start;
            proof {
                lemma_product_monotone(start as int, end as int, dim as int);
                lemma_product_monotone(end as int, rows as int, dim as int);
                lemma_product_monotone(
                    len as int,
                    largest_chunk(rows as int, block as int),
                    k as int,
                );
                assert(end * dim - start * dim == len * dim) by (nonlinear_arith)
                    requires
                        len == end - start,
                ;
            }
            let data_chunk = slice_subrange(data, start * dim, end * dim);
            let norms_chunk = slice_subrange(norms, start, end);
            assert(data_chunk@.take(len * dim) =~= data_chunk@);
            assert(norms_chunk@.take(len as int) =~= norms_chunk@);
            assert(centroid_col@.take(dim * k) =~= centroid_col@);
            assert(centroid_norms@.take(k as int) =~= centroid_norms@);
            compute_chunk_assignments::<A>(
                start,
                data_chunk,
                norms_chunk,
                len,
                k,
                dim,
                centroid_col,
                centroid_norms,
            )
        };
    let results: Vec<ChunkResult<A::Value>> = map_indices(num_chunks, assign_chunk);
    let ghost chunks = results@;
    proof {
        assert forall|i: int| 0 <= i < chunks.len() implies is_chunk_result::<A>(
            chunk_start(i, block as int) as usize,
            chunk_data(data@, i, block as int, rows as int, dim as int),
            chunk_items(norms@, i, block as int, rows as int),
            dim,
            centroid_col@,
            centroid_norms@,
            #[trigger] chunks[i],
        ) by {
            assert(call_ensures(assign_chunk, (i as usize,), results@[i as usize as int]));
        }
        assert(is_swept::<A>(data@, norms@, dim, centroid_col@, centroid_norms@, block, chunks));
    }
    let mut counts: Vec<usize> = repeated(0usize, k);
    let zero = A::zero();
    let mut sums: Vec<A::Value> = repeated(zero, k * dim);
    let mut candidates: Vec<(i64, usize)> = Vec::new();
    let ghost original = assignments@;
    proof {
        broadcast use vstd::seq_lib::group_to_multiset_ensures;

        assert(chunk_assignments(chunks.take(0)) =~= Seq::<Seq<usize>>::empty());
        assert(chunk_candidates(chunks.take(0)) =~= Seq::<Seq<(i64, usize)>>::empty());
        assert(original =~= joined(chunk_assignments(chunks.take(0))) + original.skip(0));
        assert forall|c: int| 0 <= c < k implies #[trigger] counts@[c] == occurrences(
            Seq::<usize>::empty(),
            c,
        ) by {
            assert(!Seq::<usize>::empty().contains(c as usize));
        }
    }
    let mut i: usize = 0;
    while i < num_chunks
        invariant
            i <= num_chunks,
            rows > 0 ==> k > 0,
            block > 0,
            rows == norms@.len(),
            num_chunks == chunks.len(),
            num_chunks == chunk_count(rows as int, block as int),
            results@ == chunks,
            centroid_norms@.len() == k,
            k * dim <= usize::MAX,
            is_swept::<A>(data@, norms@, dim, centroid_col@, centroid_norms@, block, chunks),
            original.len() >= rows,
            assignments@ == joined(chunk_assignments(chunks.take(i as int))) + original.skip(
                joined(chunk_assignments(chunks.take(i as int))).len() as int,
            ),
            counts@.len() == k,
            is_tally(joined(chunk_assignments(chunks.take(i as int))), counts@),
            sums@.len() == k * dim,
            forall|place: int|
                0 <= place < k * dim ==> is_sum::<A>(
                    chunk_sums(chunks.take(i as int), place),
                    #[trigger] sums@[place],
                ),
            candidates@ == joined(chunk_candidates(chunks.take(i as int))),
        decreases num_chunks - i,
    {
        let chunk: &ChunkResult<A::Value> = &results[i];
        let ghost done = joined(chunk_assignments(chunks.take(i as int)));
        let ghost summed = sums@;
        proof {
            lemma_chunks(rows as int, block as int);
            lemma_joined_assignments_len::<A>(
                data@,
                norms@,
                dim,
                centroid_col@,
                centroid_norms@,
                block,
                chunks,
                i as int,
            );
            lemma_joined_assignments_len::<A>(
                data@,
                norms@,
                dim,
                centroid_col@,
                centroid_norms@,
                block,
                chunks,
                i + 1,
            );
            lemma_swept::<A>(
                data@,
                norms@,
                dim,
                centroid_col@,
                centroid_norms@,
                block,
                chunks,
                i as int,
            );
            assert(chunk_assignments(chunks.take(i + 1)).drop_last() =~= chunk_assignments(
                chunks.take(i as int),
            ));
            assert(chunk_candidates(chunks.take(i + 1)).drop_last() =~= chunk_candidates(
                chunks.take(i as int),
            ));
            assert(joined(chunk_assignments(chunks.take(i + 1))) == done + chunk.assignments@);
            assert(chunk_start(i as int, block as int) >= 0);
        }
        overwrite(assignments, chunk.start, chunk.assignments.as_slice());
        add_counts(&mut counts, &chunk.counts, Ghost(done), Ghost(chunk.assignments@));
        add_point::<A>(&mut sums, 0, chunk.sums.as_slice(), 0, k * dim);
        append_range(&mut candidates, chunk.candidates.as_slice(), 0, chunk.candidates.len());
        proof {
            assert(chunk.candidates@.subrange(0, chunk.candidates@.len() as int)
                =~= chunk.candidates@);
            assert(assignments@ =~= (done + chunk.assignments@) + original.skip(
                (done + chunk.assignments@).len() as int,
            ));
            assert forall|place: int| 0 <= place < k * dim implies is_sum::<A>(
                chunk_sums(chunks.take(i + 1), place),
                #[trigger] sums@[place],
            ) by {
                assert(is_sum::<A>(chunk_sums(chunks.take(i as int), place), summed[place]));
                lemma_sum_grows::<A>(
                    chunk_sums(chunks.take(i as int), place),
                    summed[place],
                    chunk.sums@[place],
                    sums@[place],
                );
                assert(chunk_sums(chunks.take(i as int), place).push(chunk.sums@[place])
                    =~= chunk_sums(chunks.take(i + 1), place));
            }
        }
        i = i + 1;
    }
    let summary = AssignmentSummary { counts, sums, candidates };
    proof {
        assert(chunks.take(i as int) =~= chunks);
        lemma_joined_assignments_len::<A>(
            data@,
            norms@,
            dim,
            centroid_col@,
            centroid_norms@,
            block,
            chunks,
            i as int,
        );
        assert(assignments@.take(rows as int) =~= joined(chunk_assignments(chunks)));
        assert(assignments@.skip(rows as int) =~= original.skip(rows as int));
        assert(is_merged::<A>(
            chunks,
            k as int,
            dim as int,
            assignments@.take(rows as int),
            summary,
        ));
    }
    summary
}

} // verus!
