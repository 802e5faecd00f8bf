//! A batch of points assigned to their nearest centroids, with what the update of
//! the centroids needs of it: how many points each cluster has, their sum, and the
//! farthest of them.
use crate::arithmetic::{is_sum, lemma_sum_grows, Arithmetic};
use crate::assignment::{are_rows_nearest, is_batch_assigned, is_product, nearest_cluster};
use crate::layout::{lemma_cell_unique, lemma_row_fits, repeated};
use crate::ranking::{
    insert_candidate, is_farthest, lemma_farthest_grows, ranks_before, RESEED_CANDIDATES,
};
use vstd::prelude::*;
use vstd::slice::slice_subrange;

verus! {

/// What a batch of points contributes to the update of the centroids.
#[derive(Debug)]
pub struct ChunkResult<V> {
    /// The row of the data set that is the first of the batch.
    pub start: usize,
    /// The number of points.
    pub len: usize,
    /// The cluster of each point.
    pub assignments: Vec<usize>,
    /// The number of points of each cluster.
    pub counts: Vec<usize>,
    /// The sum of the points of each cluster, row after row.
    pub sums: Vec<V>,
    /// The distance keys and the rows of the farthest points.
    pub candidates: Vec<(i64, usize)>,
}

/// How many points are assigned to a cluster.
pub open spec fn occurrences(assigned: Seq<usize>, cluster: int) -> nat {
    assigned.to_multiset().count(cluster as usize)
}

/// A cluster has no more points than there are.
pub(crate) proof fn lemma_occurrences_bounded(assigned: Seq<usize>, cluster: int)
    ensures
        occurrences(assigned, cluster) <= assigned.len(),
    decreases assigned.len(),
{
    broadcast use vstd::seq_lib::group_to_multiset_ensures;

    if assigned.len() == 0 {
        assert(!assigned.contains(cluster as usize));
    } else {
        lemma_occurrences_bounded(assigned.drop_last(), cluster);
        assert(assigned.drop_last().push(assigned.last()) =~= assigned);
        assert(assigned.to_multiset() =~= assigned.drop_last().to_multiset().insert(
            assigned.last(),
        ));
    }
}

/// The points of two lists together.
pub(crate) proof fn lemma_occurrences_add(first: Seq<usize>, second: Seq<usize>, cluster: int)
    ensures
        occurrences(first + second, cluster) == occurrences(first, cluster) + occurrences(
            second,
            cluster,
        ),
{
    vstd::seq_lib::lemma_multiset_commutative(first, second);
}

/// `counts` holds the number of points of each cluster.
pub open spec fn is_tally(assigned: Seq<usize>, counts: Seq<usize>) -> bool {
    forall|c: int| 0 <= c < counts.len() ==> #[trigger] counts[c] == occurrences(assigned, c)
}

/// Coordinate `d` of each point of a cluster, in the order of the points.
pub open spec fn member_values<T>(
    data: Seq<T>,
    dim: int,
    assigned: Seq<usize>,
    cluster: int,
    d: int,
) -> Seq<T>
    decreases assigned.len(),
{
    if assigned.len() == 0 {
        Seq::empty()
    } else {
        let earlier = member_values(data, dim, assigned.drop_last(), cluster, d);
        if assigned.last() == cluster {
            earlier.push(data[(assigned.len() - 1) * dim + d])
        } else {
            earlier
        }
    }
}

/// `sums` holds the sum of the points of each of `k` clusters.
pub open spec fn are_cluster_sums<A: Arithmetic>(
    data: Seq<A::Value>,
    dim: int,
    assigned: Seq<usize>,
    k: int,
    sums: Seq<A::Value>,
) -> bool {
    &&& sums.len() == k * dim
    &&& forall|c: int, d: int|
        0 <= c < k && 0 <= d < dim ==> is_sum::<A>(
            member_values(data, dim, assigned, c, d),
            #[trigger] sums[c * dim + d],
        )
}

/// `result` is what a batch that begins at row `start` contributes.
pub open spec fn is_chunk_result<A: Arithmetic>(
    start: usize,
    data: Seq<A::Value>,
    norms: Seq<A::Value>,
    dim: usize,
    columns: Seq<A::Value>,
    centroid_norms: Seq<A::Value>,
    result: ChunkResult<A::Value>,
) -> bool {
    &&& result.start == start
    &&& result.len == norms.len()
    &&& result.counts@.len() == centroid_norms.len()
    &&& is_tally(result.assignments@, result.counts@)
    &&& are_cluster_sums::<A>(
        data,
        dim as int,
        result.assignments@,
        centroid_norms.len() as int,
        result.sums@,
    )
    &&& exists|keys: Seq<i64>| #[trigger]
        is_batch_assigned::<A>(
            data,
            norms,
            dim,
            columns,
            centroid_norms,
            result.assignments@,
            keys,
        ) && is_farthest(keys, start as int, result.candidates@)
}

/// Adds a point to the sum of its cluster.
pub(crate) fn add_point<A: Arithmetic>(
    sums: &mut Vec<A::Value>,
    offset: usize,
    data: &[A::Value],
    start: usize,
    dim: usize,
)
    requires
        offset + dim <= old(sums)@.len(),
        start + dim <= data@.len(),
    ensures
        final(sums)@.len() == old(sums)@.len(),
        forall|i: int|
            offset <= i < offset + dim ==> call_ensures(
                A::plus,
                (old(sums)@[i], data@[start + (i - offset)]),
                #[trigger] final(sums)@[i],
            ),
        forall|i: int|
            0 <= i < old(sums)@.len() && !(offset <= i < offset + dim)
                ==> #[trigger] final(sums)@[i] == old(sums)@[i],
{
    let size: usize = sums.len();
    let data_size: usize = data.len();
    let ghost before = sums@;
    let mut d: usize = 0;
    while d < dim
        invariant
            d <= dim,
            sums@.len() == size,
            before.len() == size,
            data@.len() == data_size,
            offset + dim <= size,
            start + dim <= data_size,
            forall|i: int|
                offset <= i < offset + d ==> call_ensures(
                    A::plus,
                    (before[i], data@[start + (i - offset)]),
                    #[trigger] sums@[i],
                ),
            forall|i: int|
                0 <= i < size && !(offset <= i < offset + d) ==> #[trigger] sums@[i] == before[i],
        decreases dim - d,
    {
        let sum = A::plus(sums[offset + d], data[start + d]);
        sums.set(offset + d, sum);
        d = d + 1;
    }
}

/// One more point has been added to the sums of the clusters.
proof fn lemma_sums_grow<A: Arithmetic>(
    data: Seq<A::Value>,
    dim: int,
    assigned: Seq<usize>,
    k: int,
    before: Seq<A::Value>,
    cluster: usize,
    after: Seq<A::Value>,
)
    requires
        0 <= dim,
        cluster < k,
        are_cluster_sums::<A>(data, dim, assigned, k, before),
        after.len() == before.len(),
        forall|i: int|
            cluster * dim <= i < cluster * dim + dim ==> call_ensures(
                A::plus,
                (before[i], data[assigned.len() * dim + (i - cluster * dim)]),
                #[trigger] after[i],
            ),
        forall|i: int|
            0 <= i < before.len() && !(cluster * dim <= i < cluster * dim + dim)
                ==> #[trigger] after[i] == before[i],
    ensures
        are_cluster_sums::<A>(data, dim, assigned.push(cluster), k, after),
{
    let grown = assigned.push(cluster);
    assert(grown.drop_last() =~= assigned);
    assert forall|c: int, d: int| 0 <= c < k && 0 <= d < dim implies is_sum::<A>(
        member_values(data, dim, grown, c, d),
        #[trigger] after[c * dim + d],
    ) by {
        lemma_row_fits(c, k, dim);
        let i = c * dim + d;
        assert(is_sum::<A>(member_values(data, dim, assigned, c, d), before[c * dim + d]));
        if c == cluster {
            assert(call_ensures(A::plus, (before[i], data[assigned.len() * dim + d]), after[i]));
            lemma_sum_grows::<A>(
                member_values(data, dim, assigned, c, d),
                before[i],
                data[assigned.len() * dim + d],
                after[i],
            );
        } else {
            if cluster * dim <= i < cluster * dim + dim {
                lemma_cell_unique(c, d, cluster as int, i - cluster * dim, dim);
            }
        }
    }
}

/// The short list of a batch, with rows counted from the start of the data set.
proof fn lemma_farthest_shifted(
    keys: Seq<i64>,
    start: int,
    list: Seq<(i64, usize)>,
    shifted: Seq<(i64, usize)>,
)
    requires
        0 <= start,
        start + keys.len() <= usize::MAX,
        is_farthest(keys, 0, list),
        shifted.len() == list.len(),
        forall|i: int|
            0 <= i < list.len() ==> #[trigger] shifted[i] == (list[i].0, (start
                + list[i].1) as usize),
    ensures
        is_farthest(keys, start, shifted),
{
    assert forall|i: int, j: int| 0 <= i <= j < shifted.len() implies ranks_before(
        shifted[i],
        shifted[j],
    ) by {
        assert(ranks_before(list[i], list[j]));
        assert(list[i].1 < keys.len() && list[j].1 < keys.len());
    }
    assert forall|i: int, j: int|
        0 <= i < shifted.len() && 0 <= j < shifted.len() && i != j implies shifted[i]
        != shifted[j] by {
        assert(list[i] != list[j]);
        assert(list[i].1 < keys.len() && list[j].1 < keys.len());
    }
    assert forall|r: int| 0 <= r < keys.len() implies shifted.contains(
        (keys[r], (start + r) as usize),
    ) || (shifted.len() == RESEED_CANDIDATES && ranks_before(
        shifted.last(),
        (#[trigger] keys[r], (start + r) as usize),
    )) by {
        let member = (keys[r], r as usize);
        if list.contains(member) {
            let i = choose|i: int| 0 <= i < list.len() && list[i] == member;
            assert(shifted[i] == (keys[r], (start + r) as usize));
        } else {
            assert(ranks_before(list.last(), member));
            assert(list[list.len() - 1].1 < keys.len());
        }
    }
}

/// Assigns the points of a batch to their nearest centroids and adds up what the
/// update of the centroids needs.
pub fn compute_chunk_assignments<A: Arithmetic>(
    start: usize,
    data_chunk: &[A::Value],
    norms_chunk: &[A::Value],
    len: usize,
    k: usize,
    dim: usize,
    centroid_col: &[A::Value],
    centroid_norms: &[A::Value],
) -> (result: ChunkResult<A::Value>)
    requires
        len > 0 ==> k > 0,
        norms_chunk@.len() >= len,
        centroid_norms@.len() >= k,
        data_chunk@.len() >= len * dim,
        centroid_col@.len() >= dim * k,
        len * k <= usize::MAX,
        start + len <= usize::MAX,
    ensures
        is_chunk_result::<A>(
            start,
            data_chunk@.take(len * dim),
            norms_chunk@.take(len as int),
            dim,
            centroid_col@.take(dim * k),
            centroid_norms@.take(k as int),
            result,
        ),
{
    let data_size: usize = data_chunk.len();
    let columns_size: usize = centroid_col.len();
    let data_chunk = slice_subrange(data_chunk, 0, len * dim);
    let norms_chunk = slice_subrange(norms_chunk, 0, len);
    let centroid_col = slice_subrange(centroid_col, 0, dim * k);
    let centroid_norms = slice_subrange(centroid_norms, 0, k);
    let data_size: usize = data_chunk.len();
    assert(dim * k == k * dim) by (nonlinear_arith);
    let dot_products = A::multiply(len, dim, k, data_chunk, centroid_col);
    let mut assignments: Vec<usize> = Vec::with_capacity(len);
    let mut counts: Vec<usize> = repeated(0usize, k);
    let zero = A::zero();
    let mut sums: Vec<A::Value> = repeated(zero, k * dim);
    let mut candidates: Vec<(i64, usize)> = Vec::new();
    let ghost mut keys: Seq<i64> = Seq::empty();
    proof {
        broadcast use vstd::seq_lib::group_to_multiset_ensures;

        assert(assignments@.to_multiset().len() == 0);
        assert forall|c: int, d: int| 0 <= c < k && 0 <= d < dim implies is_sum::<A>(
            member_values(data_chunk@, dim as int, assignments@, c, d),
            #[trigger] sums@[c * dim + d],
        ) by {
            lemma_row_fits(c, k as int, dim as int);
        }
        assert forall|c: int| 0 <= c < k implies #[trigger] counts@[c] == occurrences(
            assignments@,
            c,
        ) by {
            assert(!assignments@.contains(c as usize));
        }
        assert(is_farthest(keys, 0, candidates@));
    }
    let mut r: usize = 0;
    while r < len
        invariant
            r <= len,
            len > 0 ==> k > 0,
            norms_chunk@.len() == len,
            centroid_norms@.len() == k,
            data_size == data_chunk@.len(),
            data_size == len * dim,
            len * k <= usize::MAX,
            k * dim <= usize::MAX,
            keys.len() == r,
            are_rows_nearest::<A>(
                norms_chunk@,
                centroid_norms@,
                dot_products,
                assignments@,
                keys,
            ),
            counts@.len() == k,
            forall|c: int| 0 <= c < k ==> #[trigger] counts@[c] <= r,
            is_tally(assignments@, counts@),
            are_cluster_sums::<A>(data_chunk@, dim as int, assignments@, k as int, sums@),
            is_farthest(keys, 0, candidates@),
        decreases len - r,
    {
        proof {
            lemma_row_fits(r as int, len as int, k as int);
            lemma_row_fits(r as int, len as int, dim as int);
        }
        let nearest = nearest_cluster::<A>(norms_chunk[r], centroid_norms, &dot_products, r);
        let best_cluster: usize = nearest.0;
        proof {
            lemma_row_fits(best_cluster as int, k as int, dim as int);
        }
        let ghost assigned = assignments@;
        let ghost tally = counts@;
        let ghost summed = sums@;
        let ghost listed = candidates@;
        assignments.push(best_cluster);
        counts.set(best_cluster, counts[best_cluster] + 1);
        add_point::<A>(&mut sums, best_cluster * dim, data_chunk, r * dim, dim);
        insert_candidate(&mut candidates, (nearest.1, r));
        proof {
            broadcast use vstd::seq_lib::group_to_multiset_ensures;

            lemma_sums_grow::<A>(
                data_chunk@,
                dim as int,
                assigned,
                k as int,
                summed,
                best_cluster,
                sums@,
            );
            assert(assignments@.to_multiset() =~= assigned.to_multiset().insert(best_cluster));
            assert forall|c: int| 0 <= c < k implies #[trigger] counts@[c] == occurrences(
                assignments@,
                c,
            ) by {
                assert(tally[c] == occurrences(assigned, c));
            }
            lemma_farthest_grows(keys, listed, nearest.1, candidates@);
            keys = keys.push(nearest.1);
        }
        r = r + 1;
    }
    proof {
        assert(norms_chunk@.len() as usize == len);
        assert(centroid_norms@.len() as usize == k);
        assert(is_product::<A>(len, dim, k, data_chunk@, centroid_col@, dot_products));
        assert(is_batch_assigned::<A>(
            data_chunk@,
            norms_chunk@,
            dim,
            centroid_col@,
            centroid_norms@,
            assignments@,
            keys,
        ));
    }
    let mut global_candidates: Vec<(i64, usize)> = Vec::with_capacity(candidates.len());
    let mut i: usize = 0;
    while i < candidates.len()
        invariant
            i <= candidates@.len(),
            global_candidates@.len() == i,
            keys.len() == len,
            start + len <= usize::MAX,
            is_farthest(keys, 0, candidates@),
            forall|j: int|
                0 <= j < i ==> #[trigger] global_candidates@[j] == (candidates@[j].0, (start
                    + candidates@[j].1) as usize),
        decreases candidates@.len() - i,
    {
        let candidate: (i64, usize) = candidates[i];
        assert(candidates@[i as int].1 < keys.len());
        global_candidates.push((candidate.0, start + candidate.1));
        i = i + 1;
    }
    proof {
        lemma_farthest_shifted(keys, start as int, candidates@, global_candidates@);
    }
    let result = ChunkResult {
        start,
        len,
        assignments,
        counts,
        sums,
        candidates: global_candidates,
    };
    assert(is_batch_assigned::<A>(
        data_chunk@,
        norms_chunk@,
        dim,
        centroid_col@,
        centroid_norms@,
        result.assignments@,
        keys,
    ));
    assert(is_farthest(keys, start as int, result.candidates@));
    assert(are_cluster_sums::<A>(
        data_chunk@,
        dim as int,
        result.assignments@,
        k as int,
        result.sums@,
    ));
    assert(is_tally(result.assignments@, result.counts@));
    result
}

} // verus!
