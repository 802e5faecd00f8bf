//! The move of the centroids to the middle of their points.
use crate::arithmetic::Arithmetic;
use crate::centroids::is_scaled;
use crate::layout::{
    append_range, lemma_product_monotone, lemma_row_fits, overwrite, repeated, row,
};
use crate::random::{draw_index, generator_state, index_outcome};
use crate::ranking::{is_ranking, lemma_rearranged, rank_candidates};
use crate::sweep::AssignmentSummary;
use rand::rngs::StdRng;
use vstd::prelude::*;
use vstd::slice::slice_subrange;

verus! {

/// The rows of the candidates, each where it comes first.
pub open spec fn distinct_rows(ranked: Seq<(i64, usize)>) -> Seq<usize>
    decreases ranked.len(),
{
    if ranked.len() == 0 {
        Seq::empty()
    } else {
        let earlier = distinct_rows(ranked.drop_last());
        if earlier.contains(ranked.last().1) {
            earlier
        } else {
            earlier.push(ranked.last().1)
        }
    }
}

/// `pool` are the rows to reseed empty clusters with, the farthest first.
pub open spec fn is_pool(candidates: Seq<(i64, usize)>, pool: Seq<usize>) -> bool {
    exists|ranked: Seq<(i64, usize)>| #[trigger]
        is_ranking(candidates, ranked) && pool == distinct_rows(ranked)
}

/// The rows that the empty ones of the clusters are reseeded with, in their order,
/// and what is left in a generator that held `state`: as long as the pool lasts
/// they are its rows, and then rows drawn at random.
pub open spec fn reseeds(
    counts: Seq<usize>,
    pool: Seq<usize>,
    total_rows: usize,
    state: Seq<u64>,
) -> (Seq<usize>, Seq<u64>)
    decreases counts.len(),
{
    if counts.len() == 0 {
        (Seq::empty(), state)
    } else {
        let (rows, between) = reseeds(counts.drop_last(), pool, total_rows, state);
        if counts.last() > 0 {
            (rows, between)
        } else if rows.len() < pool.len() {
            (rows.push(pool[rows.len() as int]), between)
        } else {
            let (drawn, after) = index_outcome(usize::BITS, between, total_rows);
            (rows.push(drawn), after)
        }
    }
}

/// `mean` holds each of `sums` times the reciprocal of `count`.
pub open spec fn is_mean<A: Arithmetic>(
    sums: Seq<A::Value>,
    count: usize,
    mean: Seq<A::Value>,
) -> bool {
    exists|divisor: A::Value, inverse: A::Value| #[trigger]
        call_ensures(A::from_count, (count,), divisor) && #[trigger] call_ensures(
            A::reciprocal,
            (divisor,),
            inverse,
        ) && is_scaled::<A>(sums, inverse, mean)
}

/// How many of the clusters are empty.
pub open spec fn empty_count(counts: Seq<usize>) -> nat {
    counts.to_multiset().count(0)
}

/// `centroid` is the new centroid of cluster `c`: the mean of its points, or the
/// point that an empty cluster is reseeded with, which is the next of
/// `replacements`.
pub open spec fn is_moved<A: Arithmetic>(
    data: Seq<A::Value>,
    dim: int,
    counts: Seq<usize>,
    sums: Seq<A::Value>,
    replacements: Seq<usize>,
    c: int,
    centroid: Seq<A::Value>,
) -> bool {
    if counts[c] > 0 {
        is_mean::<A>(row(sums, c, dim), counts[c], centroid)
    } else {
        centroid == row(data, replacements[empty_count(counts.take(c)) as int] as int, dim)
    }
}

/// The first `k` centroids are moved, and nothing else has changed.
pub open spec fn are_moved<A: Arithmetic>(
    data: Seq<A::Value>,
    dim: int,
    counts: Seq<usize>,
    sums: Seq<A::Value>,
    replacements: Seq<usize>,
    k: int,
    before: Seq<A::Value>,
    after: Seq<A::Value>,
) -> bool {
    &&& after.len() == before.len()
    &&& forall|c: int|
        0 <= c < k ==> is_moved::<A>(
            data,
            dim,
            counts,
            sums,
            replacements,
            c,
            #[trigger] row(after, c, dim),
        )
    &&& after.skip(k * dim) == before.skip(k * dim)
}

/// The centroids are moved by what `summary` says of the points, and `left` is what
/// that leaves in a generator that held `state`.
pub open spec fn is_updated<A: Arithmetic>(
    data: Seq<A::Value>,
    dim: int,
    summary: AssignmentSummary<A::Value>,
    k: int,
    before: Seq<A::Value>,
    state: Seq<u64>,
    after: Seq<A::Value>,
    left: Seq<u64>,
) -> bool {
    exists|pool: Seq<usize>| #[trigger]
        is_pool(summary.candidates@, pool) && ({
            let (replacements, rest) = reseeds(
                summary.counts@.take(k),
                pool,
                (data.len() as int / dim) as usize,
                state,
            );
            are_moved::<A>(
                data,
                dim,
                summary.counts@,
                summary.sums@,
                replacements,
                k,
                before,
                after,
            ) && left == rest && are_rows(
                replacements,
                data.len() as int / dim,
                empty_count(summary.counts@.take(k)),
            )
        })
}

/// `list` names as many rows, each of them below `total`.
pub open spec fn are_rows(list: Seq<usize>, total: int, count: nat) -> bool {
    &&& list.len() == count
    &&& forall|i: int| 0 <= i < list.len() ==> #[trigger] list[i] < total
}

/// `centroid` is a copy of one of the points.
pub open spec fn is_point<T>(data: Seq<T>, dim: int, centroid: Seq<T>) -> bool {
    exists|r: int| 0 <= r < data.len() as int / dim && centroid == #[trigger] row(data, r, dim)
}

/// The pool names each row once, and only rows of candidates.
pub(crate) proof fn lemma_distinct_rows(ranked: Seq<(i64, usize)>)
    ensures
        distinct_rows(ranked).no_duplicates(),
        forall|i: int|
            0 <= i < ranked.len() ==> distinct_rows(ranked).contains((#[trigger] ranked[i]).1),
        forall|row: usize| #[trigger]
            distinct_rows(ranked).contains(row) ==> exists|i: int|
                0 <= i < ranked.len() && (#[trigger] ranked[i]).1 == row,
    decreases ranked.len(),
{
    if ranked.len() > 0 {
        let init = ranked.drop_last();
        let earlier = distinct_rows(init);
        let all = distinct_rows(ranked);
        lemma_distinct_rows(init);
        assert forall|i: int| 0 <= i < ranked.len() implies all.contains(
            (#[trigger] ranked[i]).1,
        ) by {
            if i < init.len() {
                assert(init[i] == ranked[i]);
                assert(earlier.contains(ranked[i].1));
                let j = choose|j: int| 0 <= j < earlier.len() && earlier[j] == ranked[i].1;
                assert(all[j] == ranked[i].1);
            } else if !earlier.contains(ranked.last().1) {
                assert(all[earlier.len() as int] == ranked[i].1);
            }
        }
        assert forall|row: usize| #[trigger] all.contains(row) implies exists|i: int|
            0 <= i < ranked.len() && (#[trigger] ranked[i]).1 == row by {
            if earlier.contains(row) {
                let i = choose|i: int| 0 <= i < init.len() && (#[trigger] init[i]).1 == row;
                assert(ranked[i].1 == row);
            } else {
                assert(ranked[ranked.len() - 1].1 == row);
            }
        }
    }
}

/// As many rows are chosen as there are empty clusters.
pub(crate) proof fn lemma_reseeds_len(
    counts: Seq<usize>,
    pool: Seq<usize>,
    total_rows: usize,
    state: Seq<u64>,
)
    ensures
        reseeds(counts, pool, total_rows, state).0.len() == empty_count(counts),
    decreases counts.len(),
{
    broadcast use vstd::seq_lib::group_to_multiset_ensures;

    if counts.len() == 0 {
        assert(!counts.contains(0));
    } else {
        lemma_reseeds_len(counts.drop_last(), pool, total_rows, state);
        assert(counts.drop_last().push(counts.last()) =~= counts);
        assert(counts.to_multiset() =~= counts.drop_last().to_multiset().insert(counts.last()));
    }
}

/// The rows of the candidates, the farthest first and each once.
pub fn reseed_pool(candidates: &Vec<(i64, usize)>, total_rows: usize) -> (pool: Vec<usize>)
    requires
        forall|i: int|
            0 <= i < candidates@.len() ==> (#[trigger] candidates@[i]).1 < total_rows,
    ensures
        is_pool(candidates@, pool@),
        forall|i: int| 0 <= i < pool@.len() ==> #[trigger] pool@[i] < total_rows,
{
    let mut ranked: Vec<(i64, usize)> = Vec::with_capacity(candidates.len());
    append_range(&mut ranked, candidates.as_slice(), 0, candidates.len());
    assert(ranked@ =~= candidates@);
    rank_candidates(&mut ranked);
    proof {
        lemma_rearranged(candidates@, ranked@);
        assert forall|i: int| 0 <= i < ranked@.len() implies (#[trigger] ranked@[i]).1
            < total_rows by {
            assert(ranked@.contains(ranked@[i]));
            assert(candidates@.contains(ranked@[i]));
        }
    }
    let mut used: Vec<bool> = repeated(false, total_rows);
    let mut pool: Vec<usize> = Vec::new();
    let mut i: usize = 0;
    while i < ranked.len()
        invariant
            i <= ranked@.len(),
            used@.len() == total_rows,
            forall|j: int|
                0 <= j < ranked@.len() ==> (#[trigger] ranked@[j]).1 < total_rows,
            pool@ == distinct_rows(ranked@.take(i as int)),
            forall|r: int|
                0 <= r < total_rows ==> #[trigger] used@[r] == pool@.contains(r as usize),
            forall|j: int| 0 <= j < pool@.len() ==> #[trigger] pool@[j] < total_rows,
        decreases ranked@.len() - i,
    {
        let index: usize = ranked[i].1;
        let ghost earlier = pool@;
        assert(ranked@.take(i + 1).drop_last() =~= ranked@.take(i as int));
        assert(ranked@[i as int].1 < total_rows);
        if !used[index] {
            used.set(index, true);
            pool.push(index);
            assert forall|r: int| 0 <= r < total_rows implies #[trigger] used@[r] == pool@.contains(
                r as usize,
            ) by {
                if r == index {
                    assert(pool@[earlier.len() as int] == index);
                } else {
                    if earlier.contains(r as usize) {
                        let j = choose|j: int| 0 <= j < earlier.len() && earlier[j] == r as usize;
                        assert(pool@[j] == r as usize);
                    }
                    if pool@.contains(r as usize) {
                        let j = choose|j: int| 0 <= j < pool@.len() && pool@[j] == r as usize;
                        assert(earlier[j] == r as usize);
                    }
                }
            }
        }
        i = i + 1;
    }
    assert(ranked@.take(i as int) =~= ranked@);
    pool
}

/// Overwrites `dim` centroid values from `offset` on with scaled sums.
fn write_scaled<A: Arithmetic>(
    centroids: &mut Vec<A::Value>,
    offset: usize,
    sums: &Vec<A::Value>,
    dim: usize,
    factor: A::Value,
)
    requires
        offset + dim <= old(centroids)@.len(),
        offset + dim <= sums@.len(),
    ensures
        final(centroids)@.len() == old(centroids)@.len(),
        is_scaled::<A>(
            sums@.subrange(offset as int, offset + dim),
            factor,
            final(centroids)@.subrange(offset as int, offset + dim),
        ),
        forall|i: int|
            0 <= i < old(centroids)@.len() && !(offset <= i < offset + dim)
                ==> #[trigger] final(centroids)@[i] == old(centroids)@[i],
{
    let size: usize = centroids.len();
    let ghost before = centroids@;
    let mut d: usize = 0;
    while d < dim
        invariant
            d <= dim,
            centroids@.len() == size,
            before.len() == size,
            offset + dim <= size,
            offset + dim <= sums@.len(),
            forall|i: int|
                offset <= i < offset + d ==> call_ensures(
                    A::times,
                    (sums@[i], factor),
                    #[trigger] centroids@[i],
                ),
            forall|i: int|
                0 <= i < size && !(offset <= i < offset + d) ==> #[trigger] centroids@[i]
                    == before[i],
        decreases dim - d,
    {
        let value = A::times(sums[offset + d], factor);
        centroids.set(offset + d, value);
        d = d + 1;
    }
}

/// One more cluster is empty or not.
pub(crate) proof fn lemma_empty_count_grows(counts: Seq<usize>, c: int)
    requires
        0 <= c < counts.len(),
    ensures
        empty_count(counts.take(c + 1)) == empty_count(counts.take(c)) + if counts[c] == 0 {
            1nat
        } else {
            0nat
        },
{
    broadcast use vstd::seq_lib::group_to_multiset_ensures;

    assert(counts.take(c).push(counts[c]) =~= counts.take(c + 1));
    assert(counts.take(c + 1).to_multiset() =~= counts.take(c).to_multiset().insert(counts[c]));
}

/// There are no more empty ones among the first clusters than among all.
pub(crate) proof fn lemma_empty_count_monotone(counts: Seq<usize>, c: int, k: int)
    requires
        0 <= c <= k <= counts.len(),
    ensures
        empty_count(counts.take(c)) <= empty_count(counts.take(k)),
    decreases k - c,
{
    if c < k {
        lemma_empty_count_grows(counts, c);
        lemma_empty_count_monotone(counts, c + 1, k);
    }
}

/// Chooses the rows that the empty ones of the first `k` clusters are reseeded with.
pub fn choose_replacements(
    counts: &Vec<usize>,
    k: usize,
    pool: &Vec<usize>,
    total_rows: usize,
    rng: &mut StdRng,
) -> (replacements: Vec<usize>)
    requires
        k <= counts@.len(),
        total_rows > 0 || forall|c: int| 0 <= c < k ==> #[trigger] counts@[c] > 0,
        forall|i: int| 0 <= i < pool@.len() ==> #[trigger] pool@[i] < total_rows,
    ensures
        replacements@ == reseeds(
            counts@.take(k as int),
            pool@,
            total_rows,
            generator_state(*old(rng)),
        ).0,
        generator_state(*final(rng)) == reseeds(
            counts@.take(k as int),
            pool@,
            total_rows,
            generator_state(*old(rng)),
        ).1,
        forall|i: int|
            0 <= i < replacements@.len() ==> #[trigger] replacements@[i] < total_rows,
{
    let ghost state = generator_state(*rng);
    let mut replacements: Vec<usize> = Vec::new();
    let mut cluster: usize = 0;
    assert(counts@.take(0) =~= Seq::<usize>::empty());
    while cluster < k
        invariant
            cluster <= k,
            k <= counts@.len(),
            total_rows > 0 || forall|c: int| 0 <= c < k ==> #[trigger] counts@[c] > 0,
            forall|i: int| 0 <= i < pool@.len() ==> #[trigger] pool@[i] < total_rows,
            replacements@ == reseeds(
                counts@.take(cluster as int),
                pool@,
                total_rows,
                state,
            ).0,
            generator_state(*rng) == reseeds(
                counts@.take(cluster as int),
                pool@,
                total_rows,
                state,
            ).1,
            forall|i: int|
                0 <= i < replacements@.len() ==> #[trigger] replacements@[i] < total_rows,
        decreases k - cluster,
    {
        assert(counts@.take(cluster + 1).drop_last() =~= counts@.take(cluster as int));
        assert(counts@.take(cluster + 1).last() == counts@[cluster as int]);
        if counts[cluster] == 0 {
            let taken: usize = replacements.len();
            let replacement: usize = if taken < pool.len() {
                pool[taken]
            } else {
                draw_index(rng, total_rows)
            };
            replacements.push(replacement);
        }
        cluster = cluster + 1;
    }
    replacements
}

/// Moves each centroid to the mean of its points, and that of a cluster without
/// points to the next of the rows in `replacements`.
pub fn move_centroids<A: Arithmetic>(
    centroids: &mut Vec<A::Value>,
    k: usize,
    dim: usize,
    data: &[A::Value],
    counts: &Vec<usize>,
    sums: &Vec<A::Value>,
    replacements: &Vec<usize>,
)
    requires
        k * dim <= old(centroids)@.len(),
        k <= counts@.len(),
        k * dim <= sums@.len(),
        empty_count(counts@.take(k as int)) <= replacements@.len(),
        forall|i: int|
            0 <= i < replacements@.len() ==> (#[trigger] replacements@[i]) * dim + dim
                <= data@.len(),
    ensures
        are_moved::<A>(
            data@,
            dim as int,
            counts@,
            sums@,
            replacements@,
            k as int,
            old(centroids)@,
            final(centroids)@,
        ),
{
    let size: usize = centroids.len();
    let data_size: usize = data.len();
    let available: usize = replacements.len();
    let ghost original = centroids@;
    let mut taken: usize = 0;
    let mut cluster: usize = 0;
    proof {
        broadcast use vstd::seq_lib::group_to_multiset_ensures;

        assert(!counts@.take(0).contains(0));
    }
    while cluster < k
        invariant
            cluster <= k,
            k <= counts@.len(),
            size == original.len(),
            centroids@.len() == size,
            k * dim <= size,
            k * dim <= sums@.len(),
            data_size == data@.len(),
            available == replacements@.len(),
            empty_count(counts@.take(k as int)) <= available,
            forall|i: int|
                0 <= i < replacements@.len() ==> (#[trigger] replacements@[i]) * dim + dim
                    <= data_size,
            taken == empty_count(counts@.take(cluster as int)),
            forall|c: int|
                0 <= c < cluster ==> is_moved::<A>(
                    data@,
                    dim as int,
                    counts@,
                    sums@,
                    replacements@,
                    c,
                    #[trigger] row(centroids@, c, dim as int),
                ),
            forall|i: int| cluster * dim <= i < size ==> #[trigger] centroids@[i] == original[i],
        decreases k - cluster,
    {
        proof {
            lemma_row_fits(cluster as int, k as int, dim as int);
            lemma_empty_count_grows(counts@, cluster as int);
            lemma_empty_count_monotone(counts@, cluster + 1, k as int);
        }
        let offset: usize = cluster * dim;
        let count: usize = counts[cluster];
        let ghost current = centroids@;
        if count > 0 {
            let divisor = A::from_count(count);
            let inverse = A::reciprocal(divisor);
            write_scaled::<A>(centroids, offset, sums, dim, inverse);
            assert(is_mean::<A>(
                row(sums@, cluster as int, dim as int),
                count,
                row(centroids@, cluster as int, dim as int),
            ));
        } else {
            let replacement: usize = replacements[taken];
            taken = taken + 1;
            assert(0 <= replacement * dim) by (nonlinear_arith);
            let source = slice_subrange(data, replacement * dim, replacement * dim + dim);
            overwrite(centroids, offset, source);
            assert(row(centroids@, cluster as int, dim as int) =~= row(
                data@,
                replacement as int,
                dim as int,
            ));
        }
        assert forall|c: int| 0 <= c < cluster + 1 implies is_moved::<A>(
            data@,
            dim as int,
            counts@,
            sums@,
            replacements@,
            c,
            #[trigger] row(centroids@, c, dim as int),
        ) by {
            if c < cluster {
                lemma_row_fits(c, cluster as int, dim as int);
                assert(row(centroids@, c, dim as int) =~= row(current, c, dim as int));
            }
        }
        cluster = cluster + 1;
    }
    proof {
        lemma_product_monotone(0, k as int, dim as int);
        assert(centroids@.skip(k * dim) =~= original.skip(k * dim));
    }
}

/// An empty cluster becomes one of the points.
pub(crate) proof fn lemma_empty_clusters_are_points<A: Arithmetic>(
    data: Seq<A::Value>,
    dim: int,
    counts: Seq<usize>,
    sums: Seq<A::Value>,
    replacements: Seq<usize>,
    k: int,
    before: Seq<A::Value>,
    after: Seq<A::Value>,
)
    requires
        k <= counts.len(),
        are_moved::<A>(data, dim, counts, sums, replacements, k, before, after),
        are_rows(replacements, data.len() as int / dim, empty_count(counts.take(k))),
    ensures
        forall|c: int|
            0 <= c < k && counts[c] == 0 ==> is_point(data, dim, #[trigger] row(after, c, dim)),
{
    assert forall|c: int| 0 <= c < k && counts[c] == 0 implies is_point(
        data,
        dim,
        #[trigger] row(after, c, dim),
    ) by {
        lemma_empty_count_grows(counts, c);
        lemma_empty_count_monotone(counts, c + 1, k);
        let place = empty_count(counts.take(c)) as int;
        assert(replacements[place] < data.len() as int / dim);
        assert(row(after, c, dim) == row(data, replacements[place] as int, dim));
    }
}

/// Moves each centroid to the mean of its points. A cluster without points is
/// reseeded with one of the farthest points, and with a random one when those have
/// run out.
pub fn update_centroids<A: Arithmetic>(
    centroids: &mut Vec<A::Value>,
    k: usize,
    dim: usize,
    data: &[A::Value],
    summary: &AssignmentSummary<A::Value>,
    rng: &mut StdRng,
)
    requires
        dim > 0,
        k * dim <= old(centroids)@.len(),
        k <= summary.counts@.len(),
        k * dim <= summary.sums@.len(),
        forall|i: int|
            0 <= i < summary.candidates@.len() ==> (#[trigger] summary.candidates@[i]).1
                < data@.len() as int / dim as int,
        data@.len() >= dim || forall|c: int| 0 <= c < k ==> #[trigger] summary.counts@[c] > 0,
    ensures
        is_updated::<A>(
            data@,
            dim as int,
            *summary,
            k as int,
            old(centroids)@,
            generator_state(*old(rng)),
            final(centroids)@,
            generator_state(*final(rng)),
        ),
        forall|c: int|
            0 <= c < k && summary.counts@[c] == 0 ==> is_point(
                data@,
                dim as int,
                #[trigger] row(final(centroids)@, c, dim as int),
            ),
{
    let data_size: usize = data.len();
    let total_rows: usize = data_size / dim;
    let ghost before = centroids@;
    let ghost state = generator_state(*rng);
    proof {
        vstd::arithmetic::div_mod::lemma_fundamental_div_mod(data_size as int, dim as int);
        vstd::arithmetic::div_mod::lemma_mod_bound(data_size as int, dim as int);
        assert(total_rows * dim <= data_size) by (nonlinear_arith)
            requires
                data_size == dim * total_rows + data_size as int % dim as int,
                0 <= data_size as int % dim as int,
        ;
        assert(data_size >= dim ==> total_rows > 0) by (nonlinear_arith)
            requires
                data_size == dim * total_rows + data_size as int % dim as int,
                data_size as int % (dim as int) < dim,
                total_rows >= 0,
        ;
    }
    let pool: Vec<usize> = reseed_pool(&summary.candidates, total_rows);
    let replacements: Vec<usize> = choose_replacements(
        &summary.counts,
        k,
        &pool,
        total_rows,
        rng,
    );
    proof {
        lemma_reseeds_len(summary.counts@.take(k as int), pool@, total_rows, state);
        assert forall|i: int| 0 <= i < replacements@.len() implies (#[trigger] replacements@[i])
            * dim + dim <= data@.len() by {
            lemma_row_fits(replacements@[i] as int, total_rows as int, dim as int);
        }
    }
    move_centroids::<A>(
        centroids,
        k,
        dim,
        data,
        &summary.counts,
        &summary.sums,
        &replacements,
    );
    proof {
        lemma_empty_clusters_are_points::<A>(
            data@,
            dim as int,
            summary.counts@,
            summary.sums@,
            replacements@,
            k as int,
            before,
            centroids@,
        );
    }
}

} // verus!
