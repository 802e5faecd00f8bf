//! How the centroids of a restart come about, and what the result says of all points.
use crate::arithmetic::{are_norms, is_objective, Arithmetic};
use crate::assignment::{is_batch_assigned, lemma_assigned_below};
use crate::batch_laws::are_numbers_within;
use crate::choice_laws::law_first_centroids_are_the_front_of_a_shuffle;
use crate::clustering::{
    are_restarts, are_told, can_cluster, is_best_restart, is_clustering, is_evaluated, is_outcome,
    is_report, is_restart, is_selection, is_trained, restart_seed, KMeansConfig, KMeansReport,
    KMeansResult, Restart,
};
use crate::descent::{are_rows_within, distance_bound, gap_number, measures_exactly};
use crate::determinism::{is_deterministic, lemma_same_norms};
use crate::exact_laws::{
    gap_bound, law_objective_is_over_all_points_and_coordinates, lemma_same_terms, sum_over,
    totals_exactly,
};
use crate::laws::law_every_row_has_one_batch;
use crate::layout::{
    contents, joined, lemma_cell_exists, lemma_row_fits, numbers, row, rows_at, rows_of,
};
use crate::layout_laws::law_point_is_in_place;
use crate::lloyd::{is_finished, is_lloyd_run, is_lloyd_step, is_viewed, Progress};
use crate::nearest_laws::{has_one_key_for_one_square, law_pass_assigns_to_the_first_nearest};
use crate::random::{seeded_state, shuffle_outcome};
use crate::ranking::lemma_rearranged;
use crate::reproducibility::law_runs_are_reproducible;
use crate::sampling::{initial_centroids, is_training_sample};
use crate::sweep::{
    chunk_count, chunk_data, chunk_end, chunk_items, chunk_start, is_assigned, is_summarized,
    lemma_chunks, AssignmentSummary,
};
use crate::update::is_updated;
use vstd::prelude::*;

verus! {

/// A run of `steps` steps passes through as many states after the first, each one step from
/// the one before.
pub proof fn law_run_is_a_chain_of_steps<A: Arithmetic>(
    data: Seq<A::Value>,
    norms: Seq<A::Value>,
    k: int,
    dim: usize,
    spherical: bool,
    block: usize,
    steps: nat,
    before: Progress<A::Value>,
    after: Progress<A::Value>,
)
    requires
        is_lloyd_run::<A>(data, norms, k, dim, spherical, block, steps, before, after),
    ensures
        exists|states: Seq<Progress<A::Value>>| #[trigger]
            states.len() == steps + 1 && states[0] == before && states[steps as int] == after
                && forall|i: int|
                #![trigger states[i]]
                0 <= i < steps ==> is_lloyd_step::<A>(
                    data,
                    norms,
                    k,
                    dim,
                    spherical,
                    block,
                    states[i],
                    states[i + 1],
                ),
    decreases steps,
{
    if steps == 0 {
        let states = seq![before];
        assert(states.len() == steps + 1);
    } else {
        let fewer = (steps - 1) as nat;
        let between = choose|between: Progress<A::Value>|
            is_lloyd_run::<A>(data, norms, k, dim, spherical, block, fewer, before, between)
                && #[trigger] is_lloyd_step::<A>(
                data,
                norms,
                k,
                dim,
                spherical,
                block,
                between,
                after,
            );
        law_run_is_a_chain_of_steps::<A>(
            data,
            norms,
            k,
            dim,
            spherical,
            block,
            fewer,
            before,
            between,
        );
        let states = choose|states: Seq<Progress<A::Value>>| #[trigger]
            states.len() == fewer + 1 && states[0] == before && states[fewer as int] == between
                && forall|i: int|
                #![trigger states[i]]
                0 <= i < fewer ==> is_lloyd_step::<A>(
                    data,
                    norms,
                    k,
                    dim,
                    spherical,
                    block,
                    states[i],
                    states[i + 1],
                );
        let grown = states.push(after);
        assert(grown.len() == steps + 1);
        assert forall|i: int|
            #![trigger grown[i]]
            0 <= i < steps implies is_lloyd_step::<A>(
            data,
            norms,
            k,
            dim,
            spherical,
            block,
            grown[i],
            grown[i + 1],
        ) by {
            if i < fewer {
                assert(grown[i] == states[i]);
                assert(grown[i + 1] == states[i + 1]);
            } else {
                assert(grown[i] == between);
            }
        }
    }
}

/// The centroids of a restart come of the points at the front of a shuffle of the training
/// rows by exactly `niter` steps: with the scaling and the batches that the configuration
/// says, on all training points, and with what the shuffle leaves in the generator.
pub proof fn law_training_takes_niter_steps<A: Arithmetic>(
    training: Seq<A::Value>,
    rows: usize,
    k: int,
    dim: usize,
    config: KMeansConfig,
    seed: u64,
    centroids: Seq<A::Value>,
)
    requires
        0 <= k <= rows,
        rows * dim <= training.len(),
        is_trained::<A>(training, rows, k, dim, config, seed, centroids),
    ensures
        exists|norms: Seq<A::Value>, states: Seq<Progress<A::Value>>| #[trigger]
            are_norms::<A>(training, rows as int, dim as int, norms) && #[trigger] states.len()
                == config.niter + 1 && states[config.niter as int].centroids == centroids
                && states[0].centroids.len() == k * dim && (forall|c: int|
                #![trigger states[0].centroids.subrange(c * dim, c * dim + dim)]
                0 <= c < k ==> ({
                    let source = shuffle_outcome(
                        seeded_state(seed),
                        Seq::new(rows as nat, |i: int| i as usize),
                    ).0[c];
                    &&& source < rows
                    &&& states[0].centroids.subrange(c * dim, c * dim + dim) == training.subrange(
                        source * dim,
                        source * dim + dim,
                    )
                })) && states[0].assigned == Seq::new(rows as nat, |i: int| 0usize)
                && states[0].generator == shuffle_outcome(
                seeded_state(seed),
                Seq::new(rows as nat, |i: int| i as usize),
            ).1 && forall|i: int|
                #![trigger states[i]]
                0 <= i < config.niter ==> is_lloyd_step::<A>(
                    training,
                    norms,
                    k,
                    dim,
                    config.spherical,
                    config.decode_block_size,
                    states[i],
                    states[i + 1],
                ),
{
    let start = Progress {
        centroids: initial_centroids(training, rows, dim as int, k, seeded_state(seed)),
        assigned: Seq::new(rows as nat, |i: int| 0usize),
        generator: shuffle_outcome(seeded_state(seed), numbers(rows)).1,
    };
    let (norms, end) = choose|norms: Seq<A::Value>, end: Progress<A::Value>| #[trigger]
        are_norms::<A>(training, rows as int, dim as int, norms) && #[trigger] is_lloyd_run::<A>(
            training,
            norms,
            k,
            dim,
            config.spherical,
            config.decode_block_size,
            config.niter as nat,
            start,
            end,
        ) && centroids == end.centroids;
    law_run_is_a_chain_of_steps::<A>(
        training,
        norms,
        k,
        dim,
        config.spherical,
        config.decode_block_size,
        config.niter as nat,
        start,
        end,
    );
    let states = choose|states: Seq<Progress<A::Value>>| #[trigger]
        states.len() == config.niter as nat + 1 && states[0] == start && states[config.niter as int]
            == end && forall|i: int|
            #![trigger states[i]]
            0 <= i < config.niter ==> is_lloyd_step::<A>(
                training,
                norms,
                k,
                dim,
                config.spherical,
                config.decode_block_size,
                states[i],
                states[i + 1],
            );
    let shuffled = shuffle_outcome(seeded_state(seed), numbers(rows)).0;
    lemma_rearranged(numbers(rows), shuffled);
    assert forall|i: int| 0 <= i < rows implies #[trigger] shuffled[i] < rows by {
        assert(shuffled.contains(shuffled[i]));
        assert(numbers(rows).contains(shuffled[i]));
    }
    law_first_centroids_are_the_front_of_a_shuffle(
        training,
        rows,
        dim as int,
        k,
        seeded_state(seed),
        shuffled,
    );
    assert forall|c: int|
        #![trigger states[0].centroids.subrange(c * dim, c * dim + dim)]
        0 <= c < k implies shuffled[c] < rows && states[0].centroids.subrange(
        c * dim,
        c * dim + dim,
    ) == training.subrange(shuffled[c] * dim, shuffled[c] * dim + dim) by {
        lemma_row_fits(c, k, dim as int);
        lemma_row_fits(shuffled[c] as int, rows as int, dim as int);
        let there = start.centroids.subrange(c * dim, c * dim + dim);
        let source = training.subrange(shuffled[c] * dim, shuffled[c] * dim + dim);
        assert forall|d: int| 0 <= d < dim implies there[d] == source[d] by {
            assert(start.centroids[c * dim + d] == training[shuffled[c] * dim + d]);
        }
        assert(there =~= source);
    }
    assert(states.len() == config.niter + 1);
}

/// One more iteration is exactly one more step: what a restart ends at with `niter` one
/// higher is one step on from what it ends at now.
pub proof fn law_one_more_iteration_is_one_more_step<A: Arithmetic>(
    training: Seq<A::Value>,
    rows: usize,
    k: int,
    dim: usize,
    config: KMeansConfig,
    more: KMeansConfig,
    seed: u64,
    centroids: Seq<A::Value>,
    more_centroids: Seq<A::Value>,
)
    requires
        is_deterministic::<A>(),
        k > 0,
        dim > 0,
        more.niter == config.niter + 1,
        more.spherical == config.spherical,
        more.decode_block_size == config.decode_block_size,
        is_trained::<A>(training, rows, k, dim, config, seed, centroids),
        is_trained::<A>(training, rows, k, dim, more, seed, more_centroids),
    ensures
        exists|norms: Seq<A::Value>, x: Progress<A::Value>, y: Progress<A::Value>|
            are_norms::<A>(training, rows as int, dim as int, norms)
                && #[trigger] is_lloyd_step::<A>(
                training,
                norms,
                k,
                dim,
                config.spherical,
                config.decode_block_size,
                x,
                y,
            ) && x.centroids == centroids && y.centroids == more_centroids,
{
    let start = Progress {
        centroids: initial_centroids(training, rows, dim as int, k, seeded_state(seed)),
        assigned: Seq::new(rows as nat, |i: int| 0usize),
        generator: shuffle_outcome(seeded_state(seed), numbers(rows)).1,
    };
    let block = config.decode_block_size;
    let steps = config.niter as nat;
    let (norms, x) = choose|norms: Seq<A::Value>, x: Progress<A::Value>| #[trigger]
        are_norms::<A>(training, rows as int, dim as int, norms) && #[trigger] is_lloyd_run::<A>(
            training,
            norms,
            k,
            dim,
            config.spherical,
            block,
            steps,
            start,
            x,
        ) && centroids == x.centroids;
    let (other, y) = choose|other: Seq<A::Value>, y: Progress<A::Value>| #[trigger]
        are_norms::<A>(training, rows as int, dim as int, other) && #[trigger] is_lloyd_run::<A>(
            training,
            other,
            k,
            dim,
            config.spherical,
            block,
            more.niter as nat,
            start,
            y,
        ) && more_centroids == y.centroids;
    lemma_same_norms::<A>(training, rows as int, dim as int, norms, other);
    assert((more.niter - 1) as nat == steps);
    let last = choose|last: Progress<A::Value>|
        is_lloyd_run::<A>(
            training,
            norms,
            k,
            dim,
            config.spherical,
            block,
            steps,
            start,
            last,
        ) && #[trigger] is_lloyd_step::<A>(
            training,
            norms,
            k,
            dim,
            config.spherical,
            block,
            last,
            y,
        );
    law_runs_are_reproducible::<A>(
        training,
        norms,
        k,
        dim,
        config.spherical,
        block,
        steps,
        start,
        x,
        last,
    );
}

/// A step keeps the number of the centroids.
proof fn lemma_step_keeps_length<A: Arithmetic>(
    data: Seq<A::Value>,
    norms: Seq<A::Value>,
    k: int,
    dim: usize,
    spherical: bool,
    block: usize,
    before: Progress<A::Value>,
    after: Progress<A::Value>,
)
    requires
        is_lloyd_step::<A>(data, norms, k, dim, spherical, block, before, after),
    ensures
        after.centroids.len() == before.centroids.len(),
{
    let rows = norms.len() as int;
    let (columns, centroid_norms, summary, moved) = choose|
        columns: Seq<A::Value>,
        centroid_norms: Seq<A::Value>,
        summary: AssignmentSummary<A::Value>,
        moved: Seq<A::Value>,
    | #[trigger]
        is_viewed::<A>(before.centroids, k, dim as int, columns, centroid_norms)
            && #[trigger] is_summarized::<A>(
            data,
            norms,
            dim,
            columns,
            centroid_norms,
            block,
            after.assigned.take(rows),
            summary,
        ) && #[trigger] is_updated::<A>(
            data,
            dim as int,
            summary,
            k,
            before.centroids,
            before.generator,
            moved,
            after.generator,
        ) && is_finished::<A>(moved, k, dim as int, spherical, after.centroids);
}

proof fn lemma_run_keeps_length<A: Arithmetic>(
    data: Seq<A::Value>,
    norms: Seq<A::Value>,
    k: int,
    dim: usize,
    spherical: bool,
    block: usize,
    steps: nat,
    before: Progress<A::Value>,
    after: Progress<A::Value>,
)
    requires
        is_lloyd_run::<A>(data, norms, k, dim, spherical, block, steps, before, after),
    ensures
        after.centroids.len() == before.centroids.len(),
    decreases steps,
{
    if steps > 0 {
        let fewer = (steps - 1) as nat;
        let between = choose|between: Progress<A::Value>|
            is_lloyd_run::<A>(data, norms, k, dim, spherical, block, fewer, before, between)
                && #[trigger] is_lloyd_step::<A>(
                data,
                norms,
                k,
                dim,
                spherical,
                block,
                between,
                after,
            );
        lemma_run_keeps_length::<A>(
            data,
            norms,
            k,
            dim,
            spherical,
            block,
            fewer,
            before,
            between,
        );
        lemma_step_keeps_length::<A>(data, norms, k, dim, spherical, block, between, after);
    }
}

/// A full pass assigns every point to a cluster there is.
proof fn lemma_pass_below<A: Arithmetic>(
    data: Seq<A::Value>,
    norms: Seq<A::Value>,
    dim: usize,
    columns: Seq<A::Value>,
    centroid_norms: Seq<A::Value>,
    block: usize,
    assigned: Seq<usize>,
)
    requires
        block > 0,
        centroid_norms.len() > 0,
        is_assigned::<A>(data, norms, dim, columns, centroid_norms, block, assigned),
    ensures
        forall|r: int| 0 <= r < norms.len() ==> #[trigger] assigned[r] < centroid_norms.len(),
{
    let rows = norms.len() as int;
    lemma_chunks(rows, block as int);
    assert forall|r: int| 0 <= r < rows implies #[trigger] assigned[r] < centroid_norms.len() by {
        law_every_row_has_one_batch(rows, block as int, r);
        let i = choose|i: int|
            0 <= i < chunk_count(rows, block as int) && #[trigger] chunk_start(i, block as int)
                <= r < chunk_end(i, block as int, rows);
        let part = chunk_data(data, i, block as int, rows, dim as int);
        let part_norms = chunk_items(norms, i, block as int, rows);
        let part_assigned = chunk_items(assigned, i, block as int, rows);
        let keys = choose|keys: Seq<i64>| #[trigger]
            is_batch_assigned::<A>(
                part,
                part_norms,
                dim,
                columns,
                centroid_norms,
                part_assigned,
                keys,
            );
        lemma_assigned_below::<A>(
            part,
            part_norms,
            dim,
            columns,
            centroid_norms,
            part_assigned,
            keys,
        );
        assert(part_assigned[r - chunk_start(i, block as int)] == assigned[r]);
    }
}

/// A restart in full: it hands out the centroids that training ends at, and assigns and
/// scores all points by those same centroids.
pub proof fn law_restart_trains_assigns_and_scores<A: Arithmetic>(
    data: Seq<A::Value>,
    rows: int,
    training: Seq<A::Value>,
    training_rows: usize,
    k: int,
    dim: usize,
    config: KMeansConfig,
    seed: u64,
    result: KMeansResult<A::Value, A::Total>,
)
    requires
        k > 0,
        config.decode_block_size > 0,
        is_restart::<A>(data, rows, training, training_rows, k, dim, config, seed, result),
    ensures
        exists|centroids: Seq<A::Value>| #[trigger]
            is_trained::<A>(training, training_rows, k, dim, config, seed, centroids)
                && centroids.len() == k * dim && result.centroids@.len() == k && (forall|c: int|
                0 <= c < k ==> (#[trigger] result.centroids@[c])@ == centroids.subrange(
                    c * dim,
                    c * dim + dim,
                )) && is_objective::<A>(
                data,
                centroids,
                result.assignments@,
                rows,
                dim as int,
                result.objective,
            ) && (exists|
                norms: Seq<A::Value>,
                columns: Seq<A::Value>,
                centroid_norms: Seq<A::Value>,
            | #[trigger]
                are_norms::<A>(data, rows, dim as int, norms) && #[trigger] is_viewed::<A>(
                    centroids,
                    k,
                    dim as int,
                    columns,
                    centroid_norms,
                ) && is_assigned::<A>(
                    data,
                    norms,
                    dim,
                    columns,
                    centroid_norms,
                    config.decode_block_size,
                    result.assignments@,
                )),
        result.assignments@.len() == rows,
        forall|r: int| 0 <= r < rows ==> #[trigger] result.assignments@[r] < k,
{
    let centroids = choose|centroids: Seq<A::Value>| #[trigger]
        is_trained::<A>(training, training_rows, k, dim, config, seed, centroids)
            && is_evaluated::<A>(
            data,
            rows,
            k,
            dim,
            config.decode_block_size,
            centroids,
            result.assignments@,
            result.objective,
        ) && contents(result.centroids@) == rows_of(centroids, k, dim as int);
    let start = Progress {
        centroids: initial_centroids(
            training,
            training_rows,
            dim as int,
            k,
            seeded_state(seed),
        ),
        assigned: Seq::new(training_rows as nat, |i: int| 0usize),
        generator: shuffle_outcome(seeded_state(seed), numbers(training_rows)).1,
    };
    let (m, end) = choose|m: Seq<A::Value>, end: Progress<A::Value>| #[trigger]
        are_norms::<A>(training, training_rows as int, dim as int, m)
            && #[trigger] is_lloyd_run::<A>(
            training,
            m,
            k,
            dim,
            config.spherical,
            config.decode_block_size,
            config.niter as nat,
            start,
            end,
        ) && centroids == end.centroids;
    lemma_run_keeps_length::<A>(
        training,
        m,
        k,
        dim,
        config.spherical,
        config.decode_block_size,
        config.niter as nat,
        start,
        end,
    );
    let (norms, columns, centroid_norms) = choose|
        norms: Seq<A::Value>,
        columns: Seq<A::Value>,
        centroid_norms: Seq<A::Value>,
    | #[trigger]
        are_norms::<A>(data, rows, dim as int, norms) && #[trigger] is_viewed::<A>(
            centroids,
            k,
            dim as int,
            columns,
            centroid_norms,
        ) && is_assigned::<A>(
            data,
            norms,
            dim,
            columns,
            centroid_norms,
            config.decode_block_size,
            result.assignments@,
        );
    lemma_pass_below::<A>(
        data,
        norms,
        dim,
        columns,
        centroid_norms,
        config.decode_block_size,
        result.assignments@,
    );
    assert(result.centroids@.len() == contents(result.centroids@).len());
    assert forall|c: int| 0 <= c < k implies (#[trigger] result.centroids@[c])@
        == centroids.subrange(c * dim, c * dim + dim) by {
        assert(contents(result.centroids@)[c] == rows_of(centroids, k, dim as int)[c]);
    }
}

/// Clustering in full: the result is that of one of `nredo` restarts, each with a seed of its
/// own, on the points of one sample. What is told of each is its own objective.
pub proof fn law_clustering_runs_every_restart<A: Arithmetic>(
    data: Seq<Vec<A::Value>>,
    k: usize,
    config: KMeansConfig,
    training_rows: usize,
    restarts: Seq<Restart<A::Total>>,
    result: KMeansResult<A::Value, A::Total>,
)
    requires
        is_outcome::<A>(data, k, config, training_rows, restarts, result),
    ensures
        exists|
            indices: Seq<usize>,
            left: Seq<u64>,
            results: Seq<KMeansResult<A::Value, A::Total>>,
            chosen: int,
        | #[trigger]
            is_training_sample(
                data.len() as usize,
                k as int,
                config.max_points_per_centroid as int,
                seeded_state(config.seed),
                indices,
                left,
            ) && training_rows == indices.len() && #[trigger] results.len() == config.nredo
                && restarts.len() == config.nredo && #[trigger] is_selection::<A>(
                restarts,
                chosen,
            ) && 0 <= chosen < config.nredo && result == results[chosen] && forall|i: int|
                #![trigger results[i]]
                0 <= i < config.nredo ==> restarts[i].objective == results[i].objective
                    && is_restart::<A>(
                    joined(contents(data)),
                    data.len() as int,
                    joined(
                        rows_at(
                            joined(contents(data)),
                            indices,
                            data[0]@.len() as usize as int,
                        ),
                    ),
                    training_rows,
                    k as int,
                    data[0]@.len() as usize,
                    config,
                    ((config.seed + i * 0x9e3779b97f4a7c15) % 0x1_0000_0000_0000_0000) as u64,
                    results[i],
                ),
{
    let flattened = joined(contents(data));
    let dim = data[0]@.len() as usize;
    let (indices, left) = choose|indices: Seq<usize>, left: Seq<u64>| #[trigger]
        is_training_sample(
            data.len() as usize,
            k as int,
            config.max_points_per_centroid as int,
            seeded_state(config.seed),
            indices,
            left,
        ) && training_rows == indices.len() && is_best_restart::<A>(
            flattened,
            data.len() as int,
            joined(rows_at(flattened, indices, dim as int)),
            training_rows,
            k as int,
            dim,
            config,
            restarts,
            result,
        );
    let training = joined(rows_at(flattened, indices, dim as int));
    let (results, chosen) = choose|
        results: Seq<KMeansResult<A::Value, A::Total>>,
        chosen: int,
    | #[trigger]
        are_restarts::<A>(
            flattened,
            data.len() as int,
            training,
            training_rows,
            k as int,
            dim,
            config,
            results,
        ) && are_told(results, restarts) && #[trigger] is_selection::<A>(restarts, chosen) && 0
            <= chosen < results.len() && result == results[chosen];
    assert forall|i: int|
        #![trigger results[i]]
        0 <= i < config.nredo implies restarts[i].objective == results[i].objective
        && is_restart::<A>(
        flattened,
        data.len() as int,
        training,
        training_rows,
        k as int,
        dim,
        config,
        ((config.seed + i * 0x9e3779b97f4a7c15) % 0x1_0000_0000_0000_0000) as u64,
        results[i],
    ) by {
        assert(is_restart::<A>(
            flattened,
            data.len() as int,
            training,
            training_rows,
            k as int,
            dim,
            config,
            restart_seed(config.seed, i),
            results[i],
        ));
        assert(restarts[i].objective == results[i].objective);
    }
    assert(results.len() == config.nredo);
}

/// The centroids of the result, one row after the other.
proof fn lemma_result_comes_of_centroids<A: Arithmetic>(
    data: Seq<Vec<A::Value>>,
    k: usize,
    config: KMeansConfig,
    result: KMeansResult<A::Value, A::Total>,
) -> (centroids: Seq<A::Value>)
    requires
        can_cluster(
            data,
            k,
            config.niter,
            config.nredo,
            config.max_points_per_centroid,
            config.decode_block_size,
        ),
        is_clustering::<A>(data, k, config, result),
    ensures
        data[0]@.len() <= usize::MAX,
        centroids.len() == k * data[0]@.len(),
        result.centroids@.len() == k,
        forall|c: int|
            0 <= c < k ==> (#[trigger] result.centroids@[c])@ == row(
                centroids,
                c,
                data[0]@.len() as int,
            ),
        is_objective::<A>(
            joined(contents(data)),
            centroids,
            result.assignments@,
            data.len() as int,
            data[0]@.len() as int,
            result.objective,
        ),
        exists|norms: Seq<A::Value>, columns: Seq<A::Value>, centroid_norms: Seq<A::Value>|
            #[trigger]
            are_norms::<A>(
                joined(contents(data)),
                data.len() as int,
                data[0]@.len() as int,
                norms,
            ) && #[trigger] is_viewed::<A>(
                centroids,
                k as int,
                data[0]@.len() as int,
                columns,
                centroid_norms,
            ) && is_assigned::<A>(
                joined(contents(data)),
                norms,
                data[0]@.len() as usize,
                columns,
                centroid_norms,
                config.decode_block_size,
                result.assignments@,
            ),
        result.assignments@.len() == data.len(),
        forall|r: int| 0 <= r < data.len() ==> #[trigger] result.assignments@[r] < k,
{
    let flattened = joined(contents(data));
    let width = data[0]@.len() as int;
    assert(width <= data.len() * width) by (nonlinear_arith)
        requires
            0 <= width,
            data.len() >= 1,
    ;
    let dim = width as usize;
    let (training_rows, restarts) = choose|
        training_rows: usize,
        restarts: Seq<Restart<A::Total>>,
    | #[trigger]
        is_outcome::<A>(data, k, config, training_rows, restarts, result);
    let (indices, left) = choose|indices: Seq<usize>, left: Seq<u64>| #[trigger]
        is_training_sample(
            data.len() as usize,
            k as int,
            config.max_points_per_centroid as int,
            seeded_state(config.seed),
            indices,
            left,
        ) && training_rows == indices.len() && is_best_restart::<A>(
            flattened,
            data.len() as int,
            joined(rows_at(flattened, indices, dim as int)),
            training_rows,
            k as int,
            dim,
            config,
            restarts,
            result,
        );
    let training = joined(rows_at(flattened, indices, dim as int));
    let (results, chosen) = choose|
        results: Seq<KMeansResult<A::Value, A::Total>>,
        chosen: int,
    | #[trigger]
        are_restarts::<A>(
            flattened,
            data.len() as int,
            training,
            training_rows,
            k as int,
            dim,
            config,
            results,
        ) && are_told(results, restarts) && #[trigger] is_selection::<A>(restarts, chosen) && 0
            <= chosen < results.len() && result == results[chosen];
    let seed = restart_seed(config.seed, chosen);
    assert(is_restart::<A>(
        flattened,
        data.len() as int,
        training,
        training_rows,
        k as int,
        dim,
        config,
        seed,
        results[chosen],
    ));
    law_restart_trains_assigns_and_scores::<A>(
        flattened,
        data.len() as int,
        training,
        training_rows,
        k as int,
        dim,
        config,
        seed,
        result,
    );
    let centroids = choose|centroids: Seq<A::Value>| #[trigger]
        is_trained::<A>(training, training_rows, k as int, dim, config, seed, centroids)
            && centroids.len() == k * dim && result.centroids@.len() == k && (forall|c: int|
            0 <= c < k ==> (#[trigger] result.centroids@[c])@ == centroids.subrange(
                c * dim,
                c * dim + dim,
            )) && is_objective::<A>(
            flattened,
            centroids,
            result.assignments@,
            data.len() as int,
            dim as int,
            result.objective,
        ) && (exists|
            norms: Seq<A::Value>,
            columns: Seq<A::Value>,
            centroid_norms: Seq<A::Value>,
        | #[trigger]
            are_norms::<A>(flattened, data.len() as int, dim as int, norms)
                && #[trigger] is_viewed::<A>(
                centroids,
                k as int,
                dim as int,
                columns,
                centroid_norms,
            ) && is_assigned::<A>(
                flattened,
                norms,
                dim,
                columns,
                centroid_norms,
                config.decode_block_size,
                result.assignments@,
            ));
    centroids
}

/// Every coordinate of every point and of every centroid of the result is a number within
/// `limit`.
pub open spec fn are_all_within<V, T>(
    coordinate: spec_fn(V) -> Option<int>,
    data: Seq<Vec<V>>,
    result: KMeansResult<V, T>,
    limit: int,
) -> bool {
    &&& forall|r: int, d: int|
        #![trigger data[r]@[d]]
        0 <= r < data.len() && 0 <= d < data[r]@.len() ==> coordinate(data[r]@[d]) is Some
            && -limit <= coordinate(data[r]@[d]).unwrap() <= limit
    &&& forall|c: int, d: int|
        #![trigger result.centroids@[c]@[d]]
        0 <= c < result.centroids@.len() && 0 <= d < result.centroids@[c]@.len() ==> coordinate(
            result.centroids@[c]@[d],
        ) is Some && -limit <= coordinate(result.centroids@[c]@[d]).unwrap() <= limit
}

/// What is within a limit place by place is so in one list.
proof fn lemma_all_within<V, T>(
    coordinate: spec_fn(V) -> Option<int>,
    data: Seq<Vec<V>>,
    result: KMeansResult<V, T>,
    limit: int,
    k: int,
    dim: int,
    centroids: Seq<V>,
)
    requires
        dim > 0,
        0 <= k,
        are_all_within(coordinate, data, result, limit),
        forall|i: int| 0 <= i < data.len() ==> (#[trigger] data[i])@.len() == dim,
        centroids.len() == k * dim,
        result.centroids@.len() == k,
        forall|c: int| 0 <= c < k ==> (#[trigger] result.centroids@[c])@ == row(centroids, c, dim),
    ensures
        are_numbers_within(coordinate, joined(contents(data)), limit),
        are_numbers_within(coordinate, centroids, limit),
        are_rows_within(coordinate, centroids, k, dim, limit),
{
    law_point_is_in_place(data, dim);
    let flattened = joined(contents(data));
    assert forall|i: int| 0 <= i < flattened.len() implies coordinate(#[trigger] flattened[i])
        is Some && -limit <= coordinate(flattened[i]).unwrap() <= limit by {
        lemma_cell_exists(i, data.len() as int, dim);
        let r = i / dim;
        let d = i % dim;
        assert(data[r]@.len() == dim);
        assert(flattened[r * dim + d] == data[r]@[d]);
    }
    assert forall|i: int| 0 <= i < centroids.len() implies coordinate(#[trigger] centroids[i])
        is Some && -limit <= coordinate(centroids[i]).unwrap() <= limit by {
        lemma_cell_exists(i, k, dim);
        let c = i / dim;
        let d = i % dim;
        lemma_row_fits(c, k, dim);
        assert(result.centroids@[c]@ == row(centroids, c, dim));
        assert(result.centroids@[c]@[d] == centroids[i]);
    }
    assert forall|c: int| 0 <= c < k implies are_numbers_within(
        coordinate,
        #[trigger] row(centroids, c, dim),
        limit,
    ) by {
        lemma_row_fits(c, k, dim);
        let own = row(centroids, c, dim);
        assert forall|d: int| 0 <= d < own.len() implies coordinate(#[trigger] own[d]) is Some
            && -limit <= coordinate(own[d]).unwrap() <= limit by {
            assert(own[d] == centroids[c * dim + d]);
        }
    }
}

/// The objective of a clustering is the sum, over all points handed in and all their
/// coordinates, of the squared difference to the centroid of the cluster that the result
/// assigns the point to. It is zero only where every point equals its centroid.
pub proof fn law_objective_of_the_result<A: Arithmetic>(
    coordinate: spec_fn(A::Value) -> Option<int>,
    total: spec_fn(A::Total) -> Option<int>,
    limit: int,
    data: Seq<Vec<A::Value>>,
    k: usize,
    config: KMeansConfig,
    result: KMeansResult<A::Value, A::Total>,
)
    requires
        0 <= limit,
        totals_exactly::<A>(
            coordinate,
            total,
            limit,
            data.len() * gap_bound(data[0]@.len() as int, limit),
        ),
        are_all_within(coordinate, data, result, limit),
        can_cluster(
            data,
            k,
            config.niter,
            config.nredo,
            config.max_points_per_centroid,
            config.decode_block_size,
        ),
        is_clustering::<A>(data, k, config, result),
    ensures
        total(result.objective) == Some(
            sum_over(
                data.len() as int,
                |r: int|
                    sum_over(
                        data[0]@.len() as int,
                        |d: int|
                            (coordinate(data[r]@[d]).unwrap() - coordinate(
                                result.centroids@[result.assignments@[r] as int]@[d],
                            ).unwrap()) * (coordinate(data[r]@[d]).unwrap() - coordinate(
                                result.centroids@[result.assignments@[r] as int]@[d],
                            ).unwrap()),
                    ),
            ),
        ),
        total(result.objective) == Some(0int) <==> forall|r: int, d: int|
            #![trigger data[r]@[d]]
            0 <= r < data.len() && 0 <= d < data[0]@.len() ==> coordinate(data[r]@[d])
                == coordinate(result.centroids@[result.assignments@[r] as int]@[d]),
{
    let rows = data.len() as int;
    let dim = data[0]@.len() as int;
    let flattened = joined(contents(data));
    let centroids = lemma_result_comes_of_centroids::<A>(data, k, config, result);
    let assigned = result.assignments@;
    law_point_is_in_place(data, dim);
    lemma_all_within(coordinate, data, result, limit, k as int, dim, centroids);
    assert forall|r: int| 0 <= r < rows implies (#[trigger] assigned[r]) * dim + dim
        <= centroids.len() by {
        lemma_row_fits(assigned[r] as int, k as int, dim);
    }
    law_objective_is_over_all_points_and_coordinates::<A>(
        coordinate,
        total,
        limit,
        flattened,
        centroids,
        assigned,
        rows,
        dim,
        result.objective,
    );
    let flat = |r: int|
        sum_over(
            dim,
            |d: int|
                (coordinate(flattened[r * dim + d]).unwrap() - coordinate(
                    centroids[assigned[r] * dim + d],
                ).unwrap()) * (coordinate(flattened[r * dim + d]).unwrap() - coordinate(
                    centroids[assigned[r] * dim + d],
                ).unwrap()),
        );
    let nested = |r: int|
        sum_over(
            data[0]@.len() as int,
            |d: int|
                (coordinate(data[r]@[d]).unwrap() - coordinate(
                    result.centroids@[result.assignments@[r] as int]@[d],
                ).unwrap()) * (coordinate(data[r]@[d]).unwrap() - coordinate(
                    result.centroids@[result.assignments@[r] as int]@[d],
                ).unwrap()),
        );
    assert forall|r: int, d: int|
        #![trigger data[r]@[d]]
        0 <= r < rows && 0 <= d < dim implies flattened[r * dim + d] == data[r]@[d]
        && centroids[assigned[r] * dim + d] == result.centroids@[assigned[r] as int]@[d] by {
        let c = assigned[r] as int;
        lemma_row_fits(c, k as int, dim);
        assert(result.centroids@[c]@ == row(centroids, c, dim));
    }
    assert forall|r: int| 0 <= r < rows implies #[trigger] flat(r) == nested(r) by {
        let a = |d: int|
            (coordinate(flattened[r * dim + d]).unwrap() - coordinate(
                centroids[assigned[r] * dim + d],
            ).unwrap()) * (coordinate(flattened[r * dim + d]).unwrap() - coordinate(
                centroids[assigned[r] * dim + d],
            ).unwrap());
        let b = |d: int|
            (coordinate(data[r]@[d]).unwrap() - coordinate(
                result.centroids@[result.assignments@[r] as int]@[d],
            ).unwrap()) * (coordinate(data[r]@[d]).unwrap() - coordinate(
                result.centroids@[result.assignments@[r] as int]@[d],
            ).unwrap());
        assert forall|d: int| 0 <= d < dim implies #[trigger] a(d) == b(d) by {
            assert(flattened[r * dim + d] == data[r]@[d]);
        }
        lemma_same_terms(dim, a, b);
    }
    lemma_same_terms(rows, flat, nested);
    if forall|r: int, d: int|
        #![trigger data[r]@[d]]
        0 <= r < rows && 0 <= d < dim ==> coordinate(data[r]@[d]) == coordinate(
            result.centroids@[assigned[r] as int]@[d],
        ) {
        assert forall|r: int, d: int| 0 <= r < rows && 0 <= d < dim implies coordinate(
            #[trigger] flattened[r * dim + d],
        ) == coordinate(centroids[assigned[r] * dim + d]) by {
            let there = data[r]@[d];
        }
    }
}

/// A clustering assigns every point handed in to the first of its own centroids whose squared
/// distance, over all coordinates, is the least.
pub proof fn law_result_assigns_to_the_first_nearest<A: Arithmetic>(
    coordinate: spec_fn(A::Value) -> Option<int>,
    square: spec_fn(A::Value) -> Option<int>,
    limit: int,
    data: Seq<Vec<A::Value>>,
    k: usize,
    config: KMeansConfig,
    result: KMeansResult<A::Value, A::Total>,
)
    requires
        0 <= limit,
        measures_exactly::<A>(
            coordinate,
            square,
            limit,
            distance_bound(data[0]@.len() as int, limit),
        ),
        has_one_key_for_one_square::<A>(square),
        are_all_within(coordinate, data, result, limit),
        can_cluster(
            data,
            k,
            config.niter,
            config.nredo,
            config.max_points_per_centroid,
            config.decode_block_size,
        ),
        is_clustering::<A>(data, k, config, result),
    ensures
        result.centroids@.len() == k,
        result.assignments@.len() == data.len(),
        forall|r: int|
            #![trigger result.assignments@[r]]
            0 <= r < data.len() ==> result.assignments@[r] < k && forall|c: int|
                #![trigger result.centroids@[c]]
                0 <= c < k ==> gap_number(
                    coordinate,
                    data[r]@,
                    result.centroids@[result.assignments@[r] as int]@,
                    data[0]@.len() as int,
                ) <= gap_number(
                    coordinate,
                    data[r]@,
                    result.centroids@[c]@,
                    data[0]@.len() as int,
                ) && (c < result.assignments@[r] ==> gap_number(
                    coordinate,
                    data[r]@,
                    result.centroids@[result.assignments@[r] as int]@,
                    data[0]@.len() as int,
                ) < gap_number(
                    coordinate,
                    data[r]@,
                    result.centroids@[c]@,
                    data[0]@.len() as int,
                )),
{
    let rows = data.len() as int;
    let dim = data[0]@.len() as int;
    let flattened = joined(contents(data));
    let centroids = lemma_result_comes_of_centroids::<A>(data, k, config, result);
    let assigned = result.assignments@;
    law_point_is_in_place(data, dim);
    lemma_all_within(coordinate, data, result, limit, k as int, dim, centroids);
    let (norms, columns, centroid_norms) = choose|
        norms: Seq<A::Value>,
        columns: Seq<A::Value>,
        centroid_norms: Seq<A::Value>,
    | #[trigger]
        are_norms::<A>(flattened, rows, dim, norms) && #[trigger] is_viewed::<A>(
            centroids,
            k as int,
            dim,
            columns,
            centroid_norms,
        ) && is_assigned::<A>(
            flattened,
            norms,
            dim as usize,
            columns,
            centroid_norms,
            config.decode_block_size,
            assigned,
        );
    law_pass_assigns_to_the_first_nearest::<A>(
        coordinate,
        square,
        limit,
        flattened,
        norms,
        k,
        dim as usize,
        centroids,
        columns,
        centroid_norms,
        config.decode_block_size,
        assigned,
    );
    assert forall|r: int|
        #![trigger result.assignments@[r]]
        0 <= r < rows implies result.assignments@[r] < k && forall|c: int|
        #![trigger result.centroids@[c]]
        0 <= c < k ==> gap_number(
            coordinate,
            data[r]@,
            result.centroids@[result.assignments@[r] as int]@,
            dim,
        ) <= gap_number(coordinate, data[r]@, result.centroids@[c]@, dim) && (c
            < result.assignments@[r] ==> gap_number(
            coordinate,
            data[r]@,
            result.centroids@[result.assignments@[r] as int]@,
            dim,
        ) < gap_number(coordinate, data[r]@, result.centroids@[c]@, dim)) by {
        lemma_row_fits(r, rows, dim);
        assert forall|d: int| 0 <= d < dim implies row(flattened, r, dim)[d] == data[r]@[d] by {
            assert(flattened[r * dim + d] == data[r]@[d]);
        }
        assert(data[r]@.len() == dim);
        assert(row(flattened, r, dim) =~= data[r]@);
        let own = assigned[r] as int;
        assert(result.centroids@[own]@ == row(centroids, own, dim));
        assert forall|c: int|
            #![trigger result.centroids@[c]]
            0 <= c < k implies result.centroids@[c]@ == row(centroids, c, dim) by {}
    }
}

/// The result of clustering is the outcome of restarts that are run as the configuration
/// says, in each of its fields, and a report tells of those same restarts.
pub proof fn law_clustering_follows_its_configuration<A: Arithmetic>(
    data: Seq<Vec<A::Value>>,
    k: usize,
    config: KMeansConfig,
    result: KMeansResult<A::Value, A::Total>,
    report: KMeansReport<A::Value, A::Total>,
)
    ensures
        is_clustering::<A>(data, k, config, result) <==> exists|
            training_rows: usize,
            restarts: Seq<Restart<A::Total>>,
        | #[trigger]
            is_outcome::<A>(data, k, config, training_rows, restarts, result),
        is_report::<A>(data, k, config, report) <==> is_outcome::<A>(
            data,
            k,
            config,
            report.training_rows,
            report.restarts@,
            report.result,
        ),
{
}

} // verus!
