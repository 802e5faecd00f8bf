//! The same points and the same configuration give the same clustering.
use crate::arithmetic::{are_norms, is_sum, Arithmetic};
use crate::batch::ChunkResult;
use crate::clustering::{
    are_restarts, are_told, can_cluster, is_best_restart, is_clustering, is_comparison,
    is_evaluated, is_outcome, is_restart, is_selection, is_trained, restart_seed, single_run,
    KMeansConfig, KMeansResult, Restart, DEFAULT_DECODE_BLOCK_SIZE,
    DEFAULT_MAX_POINTS_PER_CENTROID,
};
use crate::determinism::{
    is_deterministic, lemma_same_all_normalized, lemma_same_chunk_result, lemma_same_nearest_batch,
    lemma_same_norms, lemma_same_objective, lemma_same_ranking, lemma_same_rows, lemma_same_scaled,
    lemma_same_sum, lemma_same_transposed,
};
use crate::laws::law_every_row_has_one_batch;
use crate::layout::{contents, joined, numbers, row, rows_at, rows_of};
use crate::lloyd::{is_finished, is_lloyd_run, is_lloyd_step, is_viewed, Progress};
use crate::random::{seeded_state, shuffle_outcome, word_outcome};
use crate::ranking::is_ranking;
use crate::sampling::{initial_centroids, is_training_sample, sample_target};
use crate::sweep::{
    chunk_assignments, chunk_candidates, chunk_count, chunk_data, chunk_end, chunk_items,
    chunk_start, chunk_sums, is_assigned, is_merged, is_summarized, is_swept, lemma_chunks,
    AssignmentSummary,
};
use crate::update::{
    are_moved, are_rows, distinct_rows, empty_count, is_mean, is_moved, is_pool, is_updated,
    reseeds,
};
use vstd::prelude::*;

verus! {

proof fn lemma_same_summary<A: Arithmetic>(
    data: Seq<A::Value>,
    norms: Seq<A::Value>,
    dim: usize,
    columns: Seq<A::Value>,
    centroid_norms: Seq<A::Value>,
    block: usize,
    a: Seq<usize>,
    a_summary: AssignmentSummary<A::Value>,
    b: Seq<usize>,
    b_summary: AssignmentSummary<A::Value>,
)
    requires
        is_deterministic::<A>(),
        dim > 0,
        is_summarized::<A>(data, norms, dim, columns, centroid_norms, block, a, a_summary),
        is_summarized::<A>(data, norms, dim, columns, centroid_norms, block, b, b_summary),
    ensures
        a == b,
        a_summary.counts@ == b_summary.counts@,
        a_summary.sums@ == b_summary.sums@,
        a_summary.candidates@ == b_summary.candidates@,
{
    let rows = norms.len() as int;
    let k = centroid_norms.len() as int;
    let x = choose|x: Seq<ChunkResult<A::Value>>| #[trigger]
        is_swept::<A>(data, norms, dim, columns, centroid_norms, block, x) && is_merged::<A>(
            x,
            k,
            dim as int,
            a,
            a_summary,
        );
    let y = choose|y: Seq<ChunkResult<A::Value>>| #[trigger]
        is_swept::<A>(data, norms, dim, columns, centroid_norms, block, y) && is_merged::<A>(
            y,
            k,
            dim as int,
            b,
            b_summary,
        );
    assert forall|i: int| 0 <= i < x.len() implies (#[trigger] x[i]).assignments@
        == y[i].assignments@ && x[i].sums@ == y[i].sums@ && x[i].candidates@
        == y[i].candidates@ by {
        lemma_same_chunk_result::<A>(
            chunk_start(i, block as int) as usize,
            chunk_data(data, i, block as int, rows, dim as int),
            chunk_items(norms, i, block as int, rows),
            dim,
            columns,
            centroid_norms,
            x[i],
            y[i],
        );
    }
    assert(chunk_assignments(x) =~= chunk_assignments(y));
    assert(chunk_candidates(x) =~= chunk_candidates(y));
    assert forall|c: int| 0 <= c < k implies a_summary.counts@[c] == b_summary.counts@[c] by {
        assert(a_summary.counts@[c] == crate::batch::occurrences(a, c));
        assert(b_summary.counts@[c] == crate::batch::occurrences(b, c));
    }
    assert(a_summary.counts@ =~= b_summary.counts@);
    assert forall|p: int| 0 <= p < k * dim implies a_summary.sums@[p] == b_summary.sums@[p] by {
        assert(chunk_sums(x, p) =~= chunk_sums(y, p));
        assert(is_sum::<A>(chunk_sums(x, p), a_summary.sums@[p]));
        assert(is_sum::<A>(chunk_sums(y, p), b_summary.sums@[p]));
        lemma_same_sum::<A>(chunk_sums(x, p), a_summary.sums@[p], b_summary.sums@[p]);
    }
    assert(a_summary.sums@ =~= b_summary.sums@);
}

pub(crate) proof fn lemma_same_assigned<A: Arithmetic>(
    data: Seq<A::Value>,
    norms: Seq<A::Value>,
    dim: usize,
    columns: Seq<A::Value>,
    centroid_norms: Seq<A::Value>,
    block: usize,
    a: Seq<usize>,
    b: Seq<usize>,
)
    requires
        is_deterministic::<A>(),
        block > 0,
        is_assigned::<A>(data, norms, dim, columns, centroid_norms, block, a),
        is_assigned::<A>(data, norms, dim, columns, centroid_norms, block, b),
    ensures
        a == b,
{
    let rows = norms.len() as int;
    let size = block as int;
    lemma_chunks(rows, size);
    assert forall|r: int| 0 <= r < rows implies a[r] == b[r] by {
        law_every_row_has_one_batch(rows, size, r);
        let i = choose|i: int|
            0 <= i < chunk_count(rows, size) && #[trigger] chunk_start(i, size) <= r < chunk_end(
                i,
                size,
                rows,
            );
        assert(0 <= chunk_start(i, size) && chunk_end(i, size, rows) <= rows);
        lemma_same_nearest_batch::<A>(
            chunk_data(data, i, size, rows, dim as int),
            chunk_items(norms, i, size, rows),
            dim,
            columns,
            centroid_norms,
            chunk_items(a, i, size, rows),
            chunk_items(b, i, size, rows),
        );
        let place = r - chunk_start(i, size);
        assert(chunk_items(a, i, size, rows)[place] == a[r]);
        assert(chunk_items(b, i, size, rows)[place] == b[r]);
    }
    assert(a =~= b);
}

proof fn lemma_same_pool(candidates: Seq<(i64, usize)>, a: Seq<usize>, b: Seq<usize>)
    requires
        is_pool(candidates, a),
        is_pool(candidates, b),
    ensures
        a == b,
{
    let x = choose|x: Seq<(i64, usize)>| #[trigger]
        is_ranking(candidates, x) && a == distinct_rows(x);
    let y = choose|y: Seq<(i64, usize)>| #[trigger]
        is_ranking(candidates, y) && b == distinct_rows(y);
    lemma_same_ranking(candidates, x, y);
}

proof fn lemma_same_mean<A: Arithmetic>(
    sums: Seq<A::Value>,
    count: usize,
    a: Seq<A::Value>,
    b: Seq<A::Value>,
)
    requires
        is_deterministic::<A>(),
        is_mean::<A>(sums, count, a),
        is_mean::<A>(sums, count, b),
    ensures
        a == b,
{
    let (p, x) = choose|p: A::Value, x: A::Value| #[trigger]
        call_ensures(A::from_count, (count,), p) && #[trigger] call_ensures(
            A::reciprocal,
            (p,),
            x,
        ) && crate::centroids::is_scaled::<A>(sums, x, a);
    let (q, y) = choose|q: A::Value, y: A::Value| #[trigger]
        call_ensures(A::from_count, (count,), q) && #[trigger] call_ensures(
            A::reciprocal,
            (q,),
            y,
        ) && crate::centroids::is_scaled::<A>(sums, y, b);
    assert(p == q);
    assert(x == y);
    lemma_same_scaled::<A>(sums, x, a, b);
}

pub(crate) proof fn lemma_same_pools(candidates: Seq<(i64, usize)>)
    ensures
        forall|x: Seq<usize>, y: Seq<usize>| #[trigger]
            is_pool(candidates, x) && #[trigger] is_pool(candidates, y) ==> x == y,
{
    assert forall|x: Seq<usize>, y: Seq<usize>| #[trigger]
        is_pool(candidates, x) && #[trigger] is_pool(candidates, y) implies x == y by {
        lemma_same_pool(candidates, x, y);
    }
}

/// What an update makes of the first `k` centroids does not depend on what they were,
/// nor on the candidates beyond the rows that they have empty clusters reseeded with.
pub(crate) proof fn lemma_same_update<A: Arithmetic>(
    data: Seq<A::Value>,
    dim: int,
    a_summary: AssignmentSummary<A::Value>,
    b_summary: AssignmentSummary<A::Value>,
    k: int,
    a_before: Seq<A::Value>,
    b_before: Seq<A::Value>,
    state: Seq<u64>,
    a: Seq<A::Value>,
    a_left: Seq<u64>,
    b: Seq<A::Value>,
    b_left: Seq<u64>,
)
    requires
        is_deterministic::<A>(),
        a_summary.counts@ == b_summary.counts@,
        a_summary.sums@ == b_summary.sums@,
        forall|x: Seq<usize>, y: Seq<usize>|
            #![trigger is_pool(a_summary.candidates@, x), is_pool(b_summary.candidates@, y)]
            is_pool(a_summary.candidates@, x) && is_pool(b_summary.candidates@, y) ==> reseeds(
                a_summary.counts@.take(k),
                x,
                (data.len() as int / dim) as usize,
                state,
            ) == reseeds(
                a_summary.counts@.take(k),
                y,
                (data.len() as int / dim) as usize,
                state,
            ),
        is_updated::<A>(data, dim, a_summary, k, a_before, state, a, a_left),
        is_updated::<A>(data, dim, b_summary, k, b_before, state, b, b_left),
    ensures
        forall|c: int| 0 <= c < k ==> #[trigger] row(a, c, dim) == row(b, c, dim),
        a_left == b_left,
        a.len() == a_before.len(),
        b.len() == b_before.len(),
        a.skip(k * dim) == a_before.skip(k * dim),
        b.skip(k * dim) == b_before.skip(k * dim),
{
    let counts = a_summary.counts@;
    let sums = a_summary.sums@;
    let rows = (data.len() as int / dim) as usize;
    let empty = empty_count(counts.take(k));
    let x = choose|x: Seq<usize>| #[trigger]
        is_pool(a_summary.candidates@, x) && ({
            let (chosen, rest) = reseeds(counts.take(k), x, rows, state);
            are_moved::<A>(data, dim, counts, sums, chosen, k, a_before, a) && a_left == rest
                && are_rows(chosen, data.len() as int / dim, empty)
        });
    let y = choose|y: Seq<usize>| #[trigger]
        is_pool(b_summary.candidates@, y) && ({
            let (chosen, rest) = reseeds(b_summary.counts@.take(k), y, rows, state);
            are_moved::<A>(
                data,
                dim,
                b_summary.counts@,
                b_summary.sums@,
                chosen,
                k,
                b_before,
                b,
            ) && b_left == rest && are_rows(chosen, data.len() as int / dim, empty)
        });
    let chosen = reseeds(counts.take(k), x, rows, state).0;
    assert forall|c: int| 0 <= c < k implies #[trigger] row(a, c, dim) == row(b, c, dim) by {
        assert(is_moved::<A>(data, dim, counts, sums, chosen, c, row(a, c, dim)));
        assert(is_moved::<A>(data, dim, counts, sums, chosen, c, row(b, c, dim)));
        if counts[c] > 0 {
            lemma_same_mean::<A>(row(sums, c, dim), counts[c], row(a, c, dim), row(b, c, dim));
        }
    }
}

pub(crate) proof fn lemma_same_views<A: Arithmetic>(
    centroids: Seq<A::Value>,
    k: int,
    dim: int,
    a: Seq<A::Value>,
    a_norms: Seq<A::Value>,
    b: Seq<A::Value>,
    b_norms: Seq<A::Value>,
)
    requires
        is_deterministic::<A>(),
        k > 0,
        is_viewed::<A>(centroids, k, dim, a, a_norms),
        is_viewed::<A>(centroids, k, dim, b, b_norms),
    ensures
        a == b,
        a_norms == b_norms,
{
    lemma_same_transposed(centroids, k, dim, a, b);
    lemma_same_norms::<A>(centroids, k, dim, a_norms, b_norms);
}

/// The norms that stand beside the columns are those of the centroids.
pub proof fn law_views_hold_the_norms<A: Arithmetic>(
    centroids: Seq<A::Value>,
    k: int,
    dim: int,
    columns: Seq<A::Value>,
    centroid_norms: Seq<A::Value>,
    norms: Seq<A::Value>,
)
    requires
        is_deterministic::<A>(),
        is_viewed::<A>(centroids, k, dim, columns, centroid_norms),
        are_norms::<A>(centroids, k, dim, norms),
    ensures
        centroid_norms == norms,
{
    lemma_same_norms::<A>(centroids, k, dim, centroid_norms, norms);
}

proof fn lemma_same_step<A: Arithmetic>(
    data: Seq<A::Value>,
    norms: Seq<A::Value>,
    k: int,
    dim: usize,
    spherical: bool,
    block: usize,
    before: Progress<A::Value>,
    a: Progress<A::Value>,
    b: Progress<A::Value>,
)
    requires
        is_deterministic::<A>(),
        k > 0,
        dim > 0,
        k * dim <= before.centroids.len(),
        norms.len() <= before.assigned.len(),
        is_lloyd_step::<A>(data, norms, k, dim, spherical, block, before, a),
        is_lloyd_step::<A>(data, norms, k, dim, spherical, block, before, b),
    ensures
        a == b,
        a.centroids.len() == before.centroids.len(),
        a.assigned.len() == before.assigned.len(),
{
    let rows = norms.len() as int;
    let (ac, an, asum, am) = choose|
        columns: Seq<A::Value>,
        centroid_norms: Seq<A::Value>,
        summary: AssignmentSummary<A::Value>,
        moved: Seq<A::Value>,
    | #[trigger]
        is_viewed::<A>(before.centroids, k, dim as int, columns, centroid_norms)
            && #[trigger] is_summarized::<A>(
            data,
            norms,
            dim,
            columns,
            centroid_norms,
            block,
            a.assigned.take(rows),
            summary,
        ) && #[trigger] is_updated::<A>(
            data,
            dim as int,
            summary,
            k,
            before.centroids,
            before.generator,
            moved,
            a.generator,
        ) && is_finished::<A>(moved, k, dim as int, spherical, a.centroids);
    let (bc, bn, bsum, bm) = choose|
        columns: Seq<A::Value>,
        centroid_norms: Seq<A::Value>,
        summary: AssignmentSummary<A::Value>,
        moved: Seq<A::Value>,
    | #[trigger]
        is_viewed::<A>(before.centroids, k, dim as int, columns, centroid_norms)
            && #[trigger] is_summarized::<A>(
            data,
            norms,
            dim,
            columns,
            centroid_norms,
            block,
            b.assigned.take(rows),
            summary,
        ) && #[trigger] is_updated::<A>(
            data,
            dim as int,
            summary,
            k,
            before.centroids,
            before.generator,
            moved,
            b.generator,
        ) && is_finished::<A>(moved, k, dim as int, spherical, b.centroids);
    lemma_same_views::<A>(before.centroids, k, dim as int, ac, an, bc, bn);
    lemma_same_summary::<A>(
        data,
        norms,
        dim,
        ac,
        an,
        block,
        a.assigned.take(rows),
        asum,
        b.assigned.take(rows),
        bsum,
    );
    lemma_same_pools(asum.candidates@);
    lemma_same_update::<A>(
        data,
        dim as int,
        asum,
        bsum,
        k,
        before.centroids,
        before.centroids,
        before.generator,
        am,
        a.generator,
        bm,
        b.generator,
    );
    lemma_same_rows(am, bm, k, dim as int);
    if spherical {
        lemma_same_all_normalized::<A>(am, k, dim as int, a.centroids, b.centroids);
    }
    assert(a.assigned =~= a.assigned.take(rows) + a.assigned.skip(rows));
    assert(b.assigned =~= b.assigned.take(rows) + b.assigned.skip(rows));
    assert(a =~= b);
}

/// A run of steps is decided by the state that it begins in: two runs of as many steps
/// from one state end in the same state.
pub proof fn law_runs_are_reproducible<A: Arithmetic>(
    data: Seq<A::Value>,
    norms: Seq<A::Value>,
    k: int,
    dim: usize,
    spherical: bool,
    block: usize,
    steps: nat,
    before: Progress<A::Value>,
    a: Progress<A::Value>,
    b: Progress<A::Value>,
)
    requires
        is_deterministic::<A>(),
        k > 0,
        dim > 0,
        k * dim <= before.centroids.len(),
        norms.len() <= before.assigned.len(),
        is_lloyd_run::<A>(data, norms, k, dim, spherical, block, steps, before, a),
        is_lloyd_run::<A>(data, norms, k, dim, spherical, block, steps, before, b),
    ensures
        a == b,
        a.centroids.len() == before.centroids.len(),
        a.assigned.len() == before.assigned.len(),
    decreases steps,
{
    if steps > 0 {
        let fewer = (steps - 1) as nat;
        let x = choose|x: Progress<A::Value>|
            is_lloyd_run::<A>(data, norms, k, dim, spherical, block, fewer, before, x)
                && #[trigger] is_lloyd_step::<A>(data, norms, k, dim, spherical, block, x, a);
        let y = choose|y: Progress<A::Value>|
            is_lloyd_run::<A>(data, norms, k, dim, spherical, block, fewer, before, y)
                && #[trigger] is_lloyd_step::<A>(data, norms, k, dim, spherical, block, y, b);
        law_runs_are_reproducible::<A>(data, norms, k, dim, spherical, block, fewer, before, x, y);
        lemma_same_step::<A>(data, norms, k, dim, spherical, block, x, a, b);
    }
}

proof fn lemma_same_trained<A: Arithmetic>(
    training: Seq<A::Value>,
    rows: usize,
    k: int,
    dim: usize,
    config: KMeansConfig,
    seed: u64,
    a: Seq<A::Value>,
    b: Seq<A::Value>,
)
    requires
        is_deterministic::<A>(),
        k > 0,
        dim > 0,
        is_trained::<A>(training, rows, k, dim, config, seed, a),
        is_trained::<A>(training, rows, k, dim, config, seed, b),
    ensures
        a == b,
{
    let start = Progress {
        centroids: initial_centroids(training, rows, dim as int, k, seeded_state(seed)),
        assigned: Seq::new(rows as nat, |i: int| 0usize),
        generator: shuffle_outcome(seeded_state(seed), numbers(rows)).1,
    };
    let (m, x) = choose|m: Seq<A::Value>, x: Progress<A::Value>| #[trigger]
        are_norms::<A>(training, rows as int, dim as int, m) && #[trigger] is_lloyd_run::<A>(
            training,
            m,
            k,
            dim,
            config.spherical,
            config.decode_block_size,
            config.niter as nat,
            start,
            x,
        ) && a == x.centroids;
    let (n, y) = choose|n: Seq<A::Value>, y: Progress<A::Value>| #[trigger]
        are_norms::<A>(training, rows as int, dim as int, n) && #[trigger] is_lloyd_run::<A>(
            training,
            n,
            k,
            dim,
            config.spherical,
            config.decode_block_size,
            config.niter as nat,
            start,
            y,
        ) && b == y.centroids;
    lemma_same_norms::<A>(training, rows as int, dim as int, m, n);
    law_runs_are_reproducible::<A>(
        training,
        m,
        k,
        dim,
        config.spherical,
        config.decode_block_size,
        config.niter as nat,
        start,
        x,
        y,
    );
}

proof fn lemma_same_evaluated<A: Arithmetic>(
    data: Seq<A::Value>,
    rows: int,
    k: int,
    dim: usize,
    block: usize,
    centroids: Seq<A::Value>,
    a: Seq<usize>,
    a_objective: A::Total,
    b: Seq<usize>,
    b_objective: A::Total,
)
    requires
        is_deterministic::<A>(),
        k > 0,
        block > 0,
        is_evaluated::<A>(data, rows, k, dim, block, centroids, a, a_objective),
        is_evaluated::<A>(data, rows, k, dim, block, centroids, b, b_objective),
    ensures
        a == b,
        a_objective == b_objective,
{
    let (m, ac, an) = choose|
        norms: Seq<A::Value>,
        columns: Seq<A::Value>,
        centroid_norms: Seq<A::Value>,
    | #[trigger]
        are_norms::<A>(data, rows, dim as int, norms) && #[trigger] is_viewed::<A>(
            centroids,
            k,
            dim as int,
            columns,
            centroid_norms,
        ) && is_assigned::<A>(data, norms, dim, columns, centroid_norms, block, a);
    let (n, bc, bn) = choose|
        norms: Seq<A::Value>,
        columns: Seq<A::Value>,
        centroid_norms: Seq<A::Value>,
    | #[trigger]
        are_norms::<A>(data, rows, dim as int, norms) && #[trigger] is_viewed::<A>(
            centroids,
            k,
            dim as int,
            columns,
            centroid_norms,
        ) && is_assigned::<A>(data, norms, dim, columns, centroid_norms, block, b);
    lemma_same_norms::<A>(data, rows, dim as int, m, n);
    lemma_same_views::<A>(centroids, k, dim as int, ac, an, bc, bn);
    lemma_same_assigned::<A>(data, m, dim, ac, an, block, a, b);
    lemma_same_objective::<A>(data, centroids, a, rows, dim as int, a_objective, b_objective);
}

/// Two results hold the same centroids, assignments and objective.
pub open spec fn is_same_result<V, T>(a: KMeansResult<V, T>, b: KMeansResult<V, T>) -> bool {
    &&& contents(a.centroids@) == contents(b.centroids@)
    &&& a.assignments@ == b.assignments@
    &&& a.objective == b.objective
}

pub(crate) proof fn lemma_same_restart<A: Arithmetic>(
    data: Seq<A::Value>,
    rows: int,
    training: Seq<A::Value>,
    training_rows: usize,
    k: int,
    dim: usize,
    config: KMeansConfig,
    seed: u64,
    a: KMeansResult<A::Value, A::Total>,
    b: KMeansResult<A::Value, A::Total>,
)
    requires
        is_deterministic::<A>(),
        k > 0,
        dim > 0,
        config.decode_block_size > 0,
        is_restart::<A>(data, rows, training, training_rows, k, dim, config, seed, a),
        is_restart::<A>(data, rows, training, training_rows, k, dim, config, seed, b),
    ensures
        is_same_result(a, b),
{
    let block = config.decode_block_size;
    let x = choose|x: Seq<A::Value>| #[trigger]
        is_trained::<A>(training, training_rows, k, dim, config, seed, x) && is_evaluated::<A>(
            data,
            rows,
            k,
            dim,
            block,
            x,
            a.assignments@,
            a.objective,
        ) && contents(a.centroids@) == rows_of(x, k, dim as int);
    let y = choose|y: Seq<A::Value>| #[trigger]
        is_trained::<A>(training, training_rows, k, dim, config, seed, y) && is_evaluated::<A>(
            data,
            rows,
            k,
            dim,
            block,
            y,
            b.assignments@,
            b.objective,
        ) && contents(b.centroids@) == rows_of(y, k, dim as int);
    lemma_same_trained::<A>(training, training_rows, k, dim, config, seed, x, y);
    lemma_same_evaluated::<A>(
        data,
        rows,
        k,
        dim,
        block,
        x,
        a.assignments@,
        a.objective,
        b.assignments@,
        b.objective,
    );
}

pub(crate) proof fn lemma_same_sample(
    total: usize,
    k: int,
    max_points_per_centroid: int,
    state: Seq<u64>,
    a: Seq<usize>,
    a_left: Seq<u64>,
    b: Seq<usize>,
    b_left: Seq<u64>,
)
    requires
        is_training_sample(total, k, max_points_per_centroid, state, a, a_left),
        is_training_sample(total, k, max_points_per_centroid, state, b, b_left),
    ensures
        a == b,
        a_left == b_left,
{
    if sample_target(total as int, k, max_points_per_centroid) != total {
        let leq = |x: usize, y: usize| x <= y;
        vstd::seq_lib::lemma_sorted_unique(a, b, leq);
    }
}

proof fn lemma_same_comparison<A: Arithmetic>(p: A::Total, q: A::Total, a: bool, b: bool)
    requires
        is_deterministic::<A>(),
        is_comparison::<A>(p, q, a),
        is_comparison::<A>(p, q, b),
    ensures
        a == b,
{
}

pub(crate) proof fn lemma_same_selection<A: Arithmetic>(
    a: Seq<Restart<A::Total>>,
    a_chosen: int,
    b: Seq<Restart<A::Total>>,
    b_chosen: int,
)
    requires
        is_deterministic::<A>(),
        a.len() == b.len(),
        forall|i: int| 0 <= i < a.len() ==> (#[trigger] a[i]).objective == b[i].objective,
        is_selection::<A>(a, a_chosen),
        is_selection::<A>(b, b_chosen),
    ensures
        a == b,
        a_chosen == b_chosen,
    decreases a.len(),
{
    if a.len() == 1 {
        assert(a[0].objective == b[0].objective);
        assert(a =~= b);
    } else {
        let x = choose|x: int|
            0 <= x < a.len() - 1 && is_selection::<A>(a.drop_last(), x)
                && #[trigger] is_comparison::<A>(
                a.last().objective,
                a[x].objective,
                a.last().new_best,
            ) && a_chosen == if a.last().new_best {
                a.len() - 1
            } else {
                x
            };
        let y = choose|y: int|
            0 <= y < b.len() - 1 && is_selection::<A>(b.drop_last(), y)
                && #[trigger] is_comparison::<A>(
                b.last().objective,
                b[y].objective,
                b.last().new_best,
            ) && b_chosen == if b.last().new_best {
                b.len() - 1
            } else {
                y
            };
        lemma_same_selection::<A>(a.drop_last(), x, b.drop_last(), y);
        assert(a[a.len() - 1].objective == b[b.len() - 1].objective);
        assert(a[x].objective == b[x].objective);
        lemma_same_comparison::<A>(
            a.last().objective,
            a[x].objective,
            a.last().new_best,
            b.last().new_best,
        );
        assert(a =~= a.drop_last().push(a.last()));
        assert(b =~= b.drop_last().push(b.last()));
    }
}

proof fn lemma_same_best_restart<A: Arithmetic>(
    data: Seq<A::Value>,
    rows: int,
    training: Seq<A::Value>,
    training_rows: usize,
    k: int,
    dim: usize,
    config: KMeansConfig,
    a_restarts: Seq<Restart<A::Total>>,
    a: KMeansResult<A::Value, A::Total>,
    b_restarts: Seq<Restart<A::Total>>,
    b: KMeansResult<A::Value, A::Total>,
)
    requires
        is_deterministic::<A>(),
        k > 0,
        dim > 0,
        config.decode_block_size > 0,
        is_best_restart::<A>(
            data,
            rows,
            training,
            training_rows,
            k,
            dim,
            config,
            a_restarts,
            a,
        ),
        is_best_restart::<A>(
            data,
            rows,
            training,
            training_rows,
            k,
            dim,
            config,
            b_restarts,
            b,
        ),
    ensures
        a_restarts == b_restarts,
        is_same_result(a, b),
{
    let (x, i) = choose|x: Seq<KMeansResult<A::Value, A::Total>>, i: int| #[trigger]
        are_restarts::<A>(data, rows, training, training_rows, k, dim, config, x) && are_told(
            x,
            a_restarts,
        ) && #[trigger] is_selection::<A>(a_restarts, i) && 0 <= i < x.len() && a == x[i];
    let (y, j) = choose|y: Seq<KMeansResult<A::Value, A::Total>>, j: int| #[trigger]
        are_restarts::<A>(data, rows, training, training_rows, k, dim, config, y) && are_told(
            y,
            b_restarts,
        ) && #[trigger] is_selection::<A>(b_restarts, j) && 0 <= j < y.len() && b == y[j];
    assert forall|n: int| 0 <= n < x.len() implies is_same_result(#[trigger] x[n], y[n]) by {
        lemma_same_restart::<A>(
            data,
            rows,
            training,
            training_rows,
            k,
            dim,
            config,
            restart_seed(config.seed, n),
            x[n],
            y[n],
        );
    }
    assert forall|n: int| 0 <= n < a_restarts.len() implies (#[trigger] a_restarts[n]).objective
        == b_restarts[n].objective by {
        assert(is_same_result(x[n], y[n]));
        assert(b_restarts[n].objective == y[n].objective);
    }
    lemma_same_selection::<A>(a_restarts, i, b_restarts, j);
    assert(is_same_result(x[i], y[i]));
}

proof fn lemma_same_outcome<A: Arithmetic>(
    a_data: Seq<Vec<A::Value>>,
    b_data: Seq<Vec<A::Value>>,
    k: usize,
    config: KMeansConfig,
    a_rows: usize,
    a_restarts: Seq<Restart<A::Total>>,
    a: KMeansResult<A::Value, A::Total>,
    b_rows: usize,
    b_restarts: Seq<Restart<A::Total>>,
    b: KMeansResult<A::Value, A::Total>,
)
    requires
        is_deterministic::<A>(),
        contents(a_data) == contents(b_data),
        can_cluster(
            a_data,
            k,
            config.niter,
            config.nredo,
            config.max_points_per_centroid,
            config.decode_block_size,
        ),
        is_outcome::<A>(a_data, k, config, a_rows, a_restarts, a),
        is_outcome::<A>(b_data, k, config, b_rows, b_restarts, b),
    ensures
        a_rows == b_rows,
        a_restarts == b_restarts,
        is_same_result(a, b),
{
    assert(a_data.len() == contents(a_data).len());
    assert(b_data.len() == contents(b_data).len());
    assert(contents(a_data)[0] == contents(b_data)[0]);
    let flattened = joined(contents(a_data));
    let width = a_data[0]@.len() as int;
    assert(width <= a_data.len() * width) by (nonlinear_arith)
        requires
            0 <= width,
            a_data.len() >= 1,
    ;
    let dim = width as usize;
    let (x, x_left) = choose|x: Seq<usize>, x_left: Seq<u64>| #[trigger]
        is_training_sample(
            a_data.len() as usize,
            k as int,
            config.max_points_per_centroid as int,
            seeded_state(config.seed),
            x,
            x_left,
        ) && a_rows == x.len() && is_best_restart::<A>(
            flattened,
            a_data.len() as int,
            joined(rows_at(flattened, x, dim as int)),
            a_rows,
            k as int,
            dim,
            config,
            a_restarts,
            a,
        );
    let (y, y_left) = choose|y: Seq<usize>, y_left: Seq<u64>| #[trigger]
        is_training_sample(
            b_data.len() as usize,
            k as int,
            config.max_points_per_centroid as int,
            seeded_state(config.seed),
            y,
            y_left,
        ) && b_rows == y.len() && is_best_restart::<A>(
            flattened,
            b_data.len() as int,
            joined(rows_at(flattened, y, dim as int)),
            b_rows,
            k as int,
            dim,
            config,
            b_restarts,
            b,
        );
    lemma_same_sample(
        a_data.len() as usize,
        k as int,
        config.max_points_per_centroid as int,
        seeded_state(config.seed),
        x,
        x_left,
        y,
        y_left,
    );
    lemma_same_best_restart::<A>(
        flattened,
        a_data.len() as int,
        joined(rows_at(flattened, x, dim as int)),
        a_rows,
        k as int,
        dim,
        config,
        a_restarts,
        a,
        b_restarts,
        b,
    );
}

/// Clustering is decided by the points and the configuration, its seed among it: two
/// runs on the same points and with the same configuration give the same centroids,
/// assignments and objective, where each operation of the arithmetic has one outcome
/// for one input.
pub proof fn law_clustering_is_reproducible<A: Arithmetic>(
    a_data: Seq<Vec<A::Value>>,
    b_data: Seq<Vec<A::Value>>,
    k: usize,
    config: KMeansConfig,
    a: KMeansResult<A::Value, A::Total>,
    b: KMeansResult<A::Value, A::Total>,
)
    requires
        is_deterministic::<A>(),
        contents(a_data) == contents(b_data),
        can_cluster(
            a_data,
            k,
            config.niter,
            config.nredo,
            config.max_points_per_centroid,
            config.decode_block_size,
        ),
        is_clustering::<A>(a_data, k, config, a),
        is_clustering::<A>(b_data, k, config, b),
    ensures
        is_same_result(a, b),
{
    let (m, x) = choose|m: usize, x: Seq<Restart<A::Total>>| #[trigger]
        is_outcome::<A>(a_data, k, config, m, x, a);
    let (n, y) = choose|n: usize, y: Seq<Restart<A::Total>>| #[trigger]
        is_outcome::<A>(b_data, k, config, n, y, b);
    lemma_same_outcome::<A>(a_data, b_data, k, config, m, x, a, n, y, b);
}

/// A single run with a drawn seed gives what a run gives that is configured with that
/// seed.
pub proof fn law_drawn_seed_is_the_configured_seed<A: Arithmetic>(
    data: Seq<Vec<A::Value>>,
    k: usize,
    max_iter: usize,
    state: Seq<u64>,
    config: KMeansConfig,
    drawn: KMeansResult<A::Value, A::Total>,
    configured: KMeansResult<A::Value, A::Total>,
)
    requires
        is_deterministic::<A>(),
        config == (KMeansConfig {
            niter: max_iter,
            nredo: 1,
            seed: word_outcome(state).0,
            spherical: false,
            max_points_per_centroid: DEFAULT_MAX_POINTS_PER_CENTROID,
            decode_block_size: DEFAULT_DECODE_BLOCK_SIZE,
        }),
        can_cluster(
            data,
            k,
            config.niter,
            config.nredo,
            config.max_points_per_centroid,
            config.decode_block_size,
        ),
        is_clustering::<A>(data, k, single_run(max_iter, word_outcome(state).0), drawn),
        is_clustering::<A>(data, k, config, configured),
    ensures
        is_same_result(drawn, configured),
{
    law_clustering_is_reproducible::<A>(data, data, k, config, drawn, configured);
}

} // verus!
