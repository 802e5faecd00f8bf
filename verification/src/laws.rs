//! What holds of clustering as a whole.
use crate::arithmetic::Arithmetic;
use crate::batch::{is_tally, occurrences};
use crate::clustering::{is_uniform, restart_seed, SEED_STRIDE};
use crate::layout::{
    contents, joined, lemma_cell_exists, lemma_joined_len, lemma_joined_row,
    lemma_product_monotone, lemma_row_fits, numbers, row, rows_at, rows_of,
};
use crate::ranking::is_ranking;
use crate::sampling::{is_training_sample, sample_target};
use crate::sweep::{
    chunk_count, chunk_end, chunk_start, is_summarized, lemma_chunks, lemma_summarized,
    AssignmentSummary,
};
use crate::update::{
    distinct_rows, empty_count, is_pool, lemma_distinct_rows, lemma_reseeds_len, reseeds,
};
use vstd::prelude::*;

verus! {

/// The sum of the counts of all clusters.
pub open spec fn total_count(counts: Seq<usize>) -> int
    decreases counts.len(),
{
    if counts.len() == 0 {
        0
    } else {
        total_count(counts.drop_last()) + counts.last()
    }
}

/// The sum of the numbers of points of the first `k` clusters.
spec fn total_occurrences(assigned: Seq<usize>, k: int) -> int
    decreases k,
{
    if k <= 0 {
        0
    } else {
        total_occurrences(assigned, k - 1) + occurrences(assigned, k - 1)
    }
}

proof fn lemma_counts_are_occurrences(assigned: Seq<usize>, counts: Seq<usize>)
    requires
        is_tally(assigned, counts),
    ensures
        total_count(counts) == total_occurrences(assigned, counts.len() as int),
    decreases counts.len(),
{
    if counts.len() > 0 {
        let init = counts.drop_last();
        assert forall|c: int| 0 <= c < init.len() implies #[trigger] init[c] == occurrences(
            assigned,
            c,
        ) by {
            assert(counts[c] == occurrences(assigned, c));
        }
        lemma_counts_are_occurrences(assigned, init);
        assert(counts[counts.len() - 1] == occurrences(assigned, counts.len() - 1));
    }
}

proof fn lemma_one_more_point(assigned: Seq<usize>, cluster: usize, k: int)
    requires
        0 <= k <= usize::MAX + 1,
    ensures
        total_occurrences(assigned.push(cluster), k) == total_occurrences(assigned, k) + if cluster
            < k {
            1int
        } else {
            0int
        },
    decreases k,
{
    broadcast use vstd::seq_lib::group_to_multiset_ensures;

    if k > 0 {
        lemma_one_more_point(assigned, cluster, k - 1);
        assert(assigned.push(cluster).to_multiset() =~= assigned.to_multiset().insert(cluster));
    }
}

proof fn lemma_occurrences_total(assigned: Seq<usize>, k: int)
    requires
        0 <= k <= usize::MAX,
        forall|r: int| 0 <= r < assigned.len() ==> #[trigger] assigned[r] < k,
    ensures
        total_occurrences(assigned, k) == assigned.len(),
    decreases assigned.len(),
{
    if assigned.len() == 0 {
        lemma_no_points(k);
        assert(assigned =~= Seq::<usize>::empty());
    } else {
        let init = assigned.drop_last();
        lemma_occurrences_total(init, k);
        lemma_one_more_point(init, assigned.last(), k);
        assert(init.push(assigned.last()) =~= assigned);
    }
}

proof fn lemma_no_points(k: int)
    ensures
        total_occurrences(Seq::<usize>::empty(), k) == 0,
    decreases k,
{
    broadcast use vstd::seq_lib::group_to_multiset_ensures;

    if k > 0 {
        lemma_no_points(k - 1);
        assert(!Seq::<usize>::empty().contains((k - 1) as usize));
    }
}

/// After a pass over the points each point is counted in one cluster: the counts of
/// all clusters add up to the number of points.
pub proof fn law_counts_cover_all_points<A: Arithmetic>(
    data: Seq<A::Value>,
    norms: Seq<A::Value>,
    dim: usize,
    columns: Seq<A::Value>,
    centroid_norms: Seq<A::Value>,
    block: usize,
    assigned: Seq<usize>,
    summary: AssignmentSummary<A::Value>,
)
    requires
        block > 0,
        norms.len() <= usize::MAX,
        0 < centroid_norms.len() <= usize::MAX,
        is_summarized::<A>(
            data,
            norms,
            dim,
            columns,
            centroid_norms,
            block,
            assigned,
            summary,
        ),
    ensures
        total_count(summary.counts@) == norms.len(),
{
    lemma_summarized::<A>(
        data,
        norms,
        dim,
        columns,
        centroid_norms,
        block,
        assigned,
        summary,
    );
    lemma_counts_are_occurrences(assigned, summary.counts@);
    lemma_occurrences_total(assigned, centroid_norms.len() as int);
}

/// Every row belongs to one batch and to no other.
pub proof fn law_every_row_has_one_batch(rows: int, block: int, r: int)
    requires
        0 < block,
        0 <= r < rows,
    ensures
        exists|i: int|
            0 <= i < chunk_count(rows, block) && #[trigger] chunk_start(i, block) <= r < chunk_end(
                i,
                block,
                rows,
            ),
        forall|i: int, j: int|
            0 <= i < chunk_count(rows, block) && 0 <= j < chunk_count(rows, block)
                && #[trigger] chunk_start(i, block) <= r < chunk_end(i, block, rows)
                && #[trigger] chunk_start(j, block) <= r < chunk_end(j, block, rows) ==> i == j,
{
    lemma_chunks(rows, block);
    let count = chunk_count(rows, block);
    let i = r / block;
    vstd::arithmetic::div_mod::lemma_fundamental_div_mod(r, block);
    vstd::arithmetic::div_mod::lemma_mod_bound(r, block);
    assert(block * i == i * block) by (nonlinear_arith);
    assert((i + 1) * block == i * block + block) by (nonlinear_arith);
    assert(0 <= i) by (nonlinear_arith)
        requires
            0 <= r,
            0 < block,
            r < i * block + block,
    ;
    assert(chunk_end(count - 1, block, rows) == rows);
    if i >= count {
        lemma_product_monotone(count, i, block);
        assert((count - 1 + 1) * block == count * block);
    }
    assert(chunk_start(i, block) <= r < chunk_end(i, block, rows));
    assert forall|a: int, b: int|
        0 <= a < count && 0 <= b < count && #[trigger] chunk_start(a, block) <= r < chunk_end(
            a,
            block,
            rows,
        ) && #[trigger] chunk_start(b, block) <= r < chunk_end(b, block, rows) implies a == b by {
        if a < b {
            lemma_product_monotone(a + 1, b, block);
        }
        if b < a {
            lemma_product_monotone(b + 1, a, block);
        }
    }
}

/// Laying a data set out row after row and cutting it into rows again gives it back.
pub proof fn law_rows_survive_the_layout<V>(data: Seq<Vec<V>>)
    requires
        data.len() > 0,
        is_uniform(data),
    ensures
        rows_of(joined(contents(data)), data.len() as int, data[0]@.len() as int) == contents(
            data,
        ),
{
    let dim = data[0]@.len() as int;
    let parts = contents(data);
    assert forall|i: int| 0 <= i < parts.len() implies (#[trigger] parts[i]).len() == dim by {
        assert(data[i]@.len() == data[0]@.len());
    }
    assert forall|i: int| 0 <= i < parts.len() implies rows_of(
        joined(parts),
        data.len() as int,
        dim,
    )[i] == parts[i] by {
        lemma_joined_row(parts, i, dim);
    }
    assert(rows_of(joined(parts), data.len() as int, dim) =~= parts);
}

/// Gathering all rows in their order gives the data back.
pub proof fn law_gathering_all_rows_gives_the_data<V>(data: Seq<V>, total: usize, dim: int)
    requires
        0 <= dim,
        data.len() == total * dim,
    ensures
        joined(rows_at(data, numbers(total), dim)) == data,
{
    let parts = rows_at(data, numbers(total), dim);
    assert forall|i: int| 0 <= i < parts.len() implies (#[trigger] parts[i]).len() == dim by {
        lemma_row_fits(i, total as int, dim);
    }
    lemma_joined_len(parts, dim);
    assert forall|p: int| 0 <= p < data.len() implies joined(parts)[p] == data[p] by {
        if dim == 0 {
            assert(total * dim == 0) by (nonlinear_arith)
                requires
                    dim == 0,
            ;
        }
        lemma_cell_exists(p, total as int, dim);
        let i = p / dim;
        lemma_row_fits(i, total as int, dim);
        lemma_joined_row(parts, i, dim);
        assert(row(joined(parts), i, dim)[p % dim] == parts[i][p % dim]);
    }
    assert(joined(parts) =~= data);
}

/// Gathering rows of gathered rows is gathering the rows that they come from.
pub proof fn law_gathering_twice<V>(
    data: Seq<V>,
    total: int,
    dim: int,
    first: Seq<usize>,
    second: Seq<usize>,
)
    requires
        0 <= dim,
        data.len() == total * dim,
        forall|i: int| 0 <= i < first.len() ==> #[trigger] first[i] < total,
        forall|i: int| 0 <= i < second.len() ==> #[trigger] second[i] < first.len(),
    ensures
        joined(rows_at(joined(rows_at(data, first, dim)), second, dim)) == joined(
            rows_at(data, Seq::new(second.len(), |i: int| first[second[i] as int]), dim),
        ),
{
    let parts = rows_at(data, first, dim);
    let both = Seq::new(second.len(), |i: int| first[second[i] as int]);
    assert forall|i: int| 0 <= i < parts.len() implies (#[trigger] parts[i]).len() == dim by {
        lemma_row_fits(first[i] as int, total, dim);
    }
    assert forall|i: int| 0 <= i < second.len() implies #[trigger] rows_at(
        joined(parts),
        second,
        dim,
    )[i] == rows_at(data, both, dim)[i] by {
        lemma_joined_row(parts, second[i] as int, dim);
    }
    assert(rows_at(joined(parts), second, dim) =~= rows_at(data, both, dim));
}

/// Where there are no more points than may be sampled, or no more than clusters, all
/// points are trained on, in their order, and nothing is drawn for it.
pub proof fn law_small_data_is_trained_on_whole<V>(
    data: Seq<V>,
    total: usize,
    dim: int,
    k: int,
    max_points_per_centroid: int,
    state: Seq<u64>,
    indices: Seq<usize>,
    left: Seq<u64>,
)
    requires
        0 <= dim,
        data.len() == total * dim,
        0 <= k <= total,
        total <= k * max_points_per_centroid || total == k,
        is_training_sample(total, k, max_points_per_centroid, state, indices, left),
    ensures
        joined(rows_at(data, indices, dim)) == data,
        left == state,
{
    law_gathering_all_rows_gives_the_data(data, total, dim);
}

/// No more points are trained on than `max_points_per_centroid` for each cluster, and
/// enough for each cluster to have one.
pub proof fn law_sample_is_capped(total: int, k: int, max_points_per_centroid: int)
    requires
        0 < k <= total,
        0 < max_points_per_centroid,
    ensures
        k <= sample_target(total, k, max_points_per_centroid) <= total,
        sample_target(total, k, max_points_per_centroid) <= k * max_points_per_centroid,
{
    assert(k <= k * max_points_per_centroid) by (nonlinear_arith)
        requires
            0 < k,
            0 < max_points_per_centroid,
    ;
}

/// As long as the pool lasts, its rows are taken in their order.
pub(crate) proof fn lemma_reseeds_from_pool(
    counts: Seq<usize>,
    pool: Seq<usize>,
    total_rows: usize,
    state: Seq<u64>,
)
    requires
        empty_count(counts) <= pool.len(),
    ensures
        reseeds(counts, pool, total_rows, state).0 == pool.take(
            empty_count(counts) as int,
        ),
        reseeds(counts, pool, total_rows, state).1 == state,
    decreases counts.len(),
{
    broadcast use vstd::seq_lib::group_to_multiset_ensures;

    lemma_reseeds_len(counts, pool, total_rows, state);
    if counts.len() > 0 {
        let init = counts.drop_last();
        assert(init.push(counts.last()) =~= counts);
        assert(counts.to_multiset() =~= init.to_multiset().insert(counts.last()));
        lemma_reseeds_from_pool(init, pool, total_rows, state);
        lemma_reseeds_len(init, pool, total_rows, state);
    }
    assert(reseeds(counts, pool, total_rows, state).0 =~= pool.take(
        empty_count(counts) as int,
    ));
}

/// As long as there are far points for all empty clusters, no two of them are
/// reseeded with the same point, and nothing is drawn for it.
pub proof fn law_reseeded_clusters_differ(
    counts: Seq<usize>,
    candidates: Seq<(i64, usize)>,
    pool: Seq<usize>,
    total_rows: usize,
    state: Seq<u64>,
)
    requires
        is_pool(candidates, pool),
        empty_count(counts) <= pool.len(),
    ensures
        reseeds(counts, pool, total_rows, state).0.len() == empty_count(counts),
        reseeds(counts, pool, total_rows, state).0.no_duplicates(),
        reseeds(counts, pool, total_rows, state).1 == state,
{
    let ranked = choose|ranked: Seq<(i64, usize)>| #[trigger]
        is_ranking(candidates, ranked) && pool == distinct_rows(ranked);
    lemma_distinct_rows(ranked);
    lemma_reseeds_from_pool(counts, pool, total_rows, state);
    lemma_reseeds_len(counts, pool, total_rows, state);
}

/// The first restart has the seed of the configuration, and no two restarts have the
/// same seed.
pub proof fn law_restart_seeds_differ(seed: u64, i: int, j: int)
    requires
        0 <= i <= usize::MAX,
        0 <= j <= usize::MAX,
    ensures
        restart_seed(seed, 0) == seed,
        restart_seed(seed, i) == restart_seed(seed, j) ==> i == j,
{
    let modulus: int = 0x1_0000_0000_0000_0000;
    let stride = SEED_STRIDE as int;
    let inverse: int = 0xf1de83e19937733d;
    let wraps: int = 0x957bbf35006ed677;
    assert(stride * inverse == wraps * modulus + 1);
    vstd::arithmetic::div_mod::lemma_small_mod(seed as nat, modulus as nat);
    if restart_seed(seed, i) == restart_seed(seed, j) {
        let a = seed + i * stride;
        let b = seed + j * stride;
        vstd::arithmetic::div_mod::lemma_mod_bound(a, modulus);
        vstd::arithmetic::div_mod::lemma_mod_bound(b, modulus);
        assert(a % modulus == b % modulus);
        vstd::arithmetic::div_mod::lemma_fundamental_div_mod(a, modulus);
        vstd::arithmetic::div_mod::lemma_fundamental_div_mod(b, modulus);
        let q = a / modulus - b / modulus;
        assert(a - b == modulus * q) by (nonlinear_arith)
            requires
                a == modulus * (a / modulus) + a % modulus,
                b == modulus * (b / modulus) + b % modulus,
                a % modulus == b % modulus,
                q == a / modulus - b / modulus,
        ;
        let difference = i - j;
        assert(a - b == difference * stride) by (nonlinear_arith)
            requires
                a == seed + i * stride,
                b == seed + j * stride,
                difference == i - j,
        ;
        assert(difference * (stride * inverse) == (difference * stride) * inverse)
            by (nonlinear_arith);
        assert((modulus * q) * inverse == modulus * (q * inverse)) by (nonlinear_arith);
        assert(difference * (wraps * modulus + 1) == modulus * (difference * wraps) + difference)
            by (nonlinear_arith);
        let t = q * inverse - difference * wraps;
        assert(difference == modulus * t) by (nonlinear_arith)
            requires
                modulus * (q * inverse) == modulus * (difference * wraps) + difference,
                t == q * inverse - difference * wraps,
        ;
        assert(t == 0) by (nonlinear_arith)
            requires
                difference == modulus * t,
                -modulus < difference < modulus,
                modulus > 0,
        ;
    }
}

} // verus!
