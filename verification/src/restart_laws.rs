//! What holds of the restarts and of the one that is kept.
use crate::arithmetic::Arithmetic;
use crate::clustering::{
    are_restarts, are_told, can_cluster, is_best_restart, is_clustering, is_comparison,
    is_outcome, is_report, is_restart, is_selection, is_trained, restart_seed, KMeansConfig,
    KMeansReport, KMeansResult, Restart,
};
use crate::determinism::is_deterministic;
use crate::layout::{contents, joined, rows_at};
use crate::random::seeded_state;
use crate::reproducibility::{
    is_same_result, lemma_same_restart, lemma_same_sample, lemma_same_selection,
};
use crate::sampling::{is_training_sample, sample_target};
use vstd::prelude::*;

verus! {

/// The place of a total in the order of all totals, where it has one.
pub open spec fn has_key<A: Arithmetic>(total: A::Total, key: Option<i64>) -> bool {
    call_ensures(A::total_key, (total,), key)
}

/// `chosen` is the first of those with the least key. Keys that are not ordered are
/// passed over, but for the first one: nothing is below it.
pub open spec fn is_earliest_least(keys: Seq<Option<i64>>, chosen: int) -> bool {
    &&& 0 <= chosen < keys.len()
    &&& keys[0] is None ==> chosen == 0
    &&& keys[0] is Some ==> {
        &&& keys[chosen] is Some
        &&& forall|i: int|
            0 <= i < keys.len() ==> ((#[trigger] keys[i]) is Some ==> keys[chosen].unwrap()
                <= keys[i].unwrap())
        &&& forall|i: int|
            0 <= i < chosen ==> ((#[trigger] keys[i]) is Some ==> keys[chosen].unwrap()
                < keys[i].unwrap())
    }
}

/// The selected one of the restarts is the first of those with the least objective.
pub(crate) proof fn lemma_selection_is_least<A: Arithmetic>(
    restarts: Seq<Restart<A::Total>>,
    keys: Seq<Option<i64>>,
    chosen: int,
)
    requires
        is_deterministic::<A>(),
        keys.len() == restarts.len(),
        forall|i: int|
            0 <= i < restarts.len() ==> has_key::<A>(
                (#[trigger] restarts[i]).objective,
                keys[i],
            ),
        is_selection::<A>(restarts, chosen),
    ensures
        is_earliest_least(keys, chosen),
    decreases restarts.len(),
{
    if restarts.len() > 1 {
        let last = restarts.last();
        let earlier = choose|earlier: int|
            0 <= earlier < restarts.len() - 1 && is_selection::<A>(restarts.drop_last(), earlier)
                && #[trigger] is_comparison::<A>(
                last.objective,
                restarts[earlier].objective,
                last.new_best,
            ) && chosen == if last.new_best {
                restarts.len() - 1
            } else {
                earlier
            };
        let init = restarts.drop_last();
        let init_keys = keys.drop_last();
        assert forall|i: int| 0 <= i < init.len() implies has_key::<A>(
            (#[trigger] init[i]).objective,
            init_keys[i],
        ) by {
            assert(init[i] == restarts[i]);
        }
        lemma_selection_is_least::<A>(init, init_keys, earlier);
        let newest = keys[restarts.len() - 1];
        assert(has_key::<A>(restarts[restarts.len() - 1].objective, newest));
        assert(has_key::<A>(restarts[earlier].objective, keys[earlier]));
        assert(last.new_best == (newest is Some && keys[earlier] is Some && newest.unwrap()
            < keys[earlier].unwrap()));
        assert(init_keys[0] == keys[0]);
        if keys[0] is Some {
            assert forall|i: int| 0 <= i < keys.len() implies ((#[trigger] keys[i]) is Some
                ==> keys[chosen].unwrap() <= keys[i].unwrap()) by {
                if i < init.len() {
                    assert(init_keys[i] == keys[i]);
                }
            }
            assert forall|i: int| 0 <= i < chosen implies ((#[trigger] keys[i]) is Some
                ==> keys[chosen].unwrap() < keys[i].unwrap()) by {
                assert(init_keys[i] == keys[i]);
            }
        }
    }
}

/// The objective of what is kept is the first of those that are the least.
pub proof fn law_best_restart_is_kept<A: Arithmetic>(
    data: Seq<Vec<A::Value>>,
    k: usize,
    config: KMeansConfig,
    report: KMeansReport<A::Value, A::Total>,
    keys: Seq<Option<i64>>,
)
    requires
        is_deterministic::<A>(),
        is_report::<A>(data, k, config, report),
        keys.len() == report.restarts@.len(),
        forall|i: int|
            0 <= i < keys.len() ==> has_key::<A>(
                (#[trigger] report.restarts@[i]).objective,
                keys[i],
            ),
    ensures
        keys.len() == config.nredo,
        exists|chosen: int| #[trigger]
            is_earliest_least(keys, chosen) && report.result.objective
                == report.restarts@[chosen].objective,
{
    let flattened = joined(contents(data));
    let dim = data[0]@.len() as usize;
    let (indices, left) = choose|indices: Seq<usize>, left: Seq<u64>| #[trigger]
        is_training_sample(
            data.len() as usize,
            k as int,
            config.max_points_per_centroid as int,
            seeded_state(config.seed),
            indices,
            left,
        ) && report.training_rows == indices.len() && is_best_restart::<A>(
            flattened,
            data.len() as int,
            joined(rows_at(flattened, indices, dim as int)),
            report.training_rows,
            k as int,
            dim,
            config,
            report.restarts@,
            report.result,
        );
    let (results, chosen) = choose|
        results: Seq<KMeansResult<A::Value, A::Total>>,
        chosen: int,
    | #[trigger]
        are_restarts::<A>(
            flattened,
            data.len() as int,
            joined(rows_at(flattened, indices, dim as int)),
            report.training_rows,
            k as int,
            dim,
            config,
            results,
        ) && are_told(results, report.restarts@) && #[trigger] is_selection::<A>(
            report.restarts@,
            chosen,
        ) && 0 <= chosen < results.len() && report.result == results[chosen];
    lemma_selection_is_least::<A>(report.restarts@, keys, chosen);
    assert(report.restarts@[chosen].objective == results[chosen].objective);
}

/// A restart reads of the configuration the number of steps, the scaling and the size
/// of the batches.
proof fn lemma_restart_reads<A: Arithmetic>(
    data: Seq<A::Value>,
    rows: int,
    training: Seq<A::Value>,
    training_rows: usize,
    k: int,
    dim: usize,
    config: KMeansConfig,
    other: KMeansConfig,
    seed: u64,
    result: KMeansResult<A::Value, A::Total>,
)
    requires
        config.niter == other.niter,
        config.spherical == other.spherical,
        config.decode_block_size == other.decode_block_size,
        is_restart::<A>(data, rows, training, training_rows, k, dim, config, seed, result),
    ensures
        is_restart::<A>(data, rows, training, training_rows, k, dim, other, seed, result),
{
    assert forall|centroids: Seq<A::Value>| #[trigger]
        is_trained::<A>(
            training,
            training_rows,
            k,
            dim,
            config,
            seed,
            centroids,
        ) implies is_trained::<A>(training, training_rows, k, dim, other, seed, centroids) by {}
}

/// What is kept of the restarts is what the first of those with the least objective
/// gives: each restart for itself, by its own seed and on the same training points.
pub proof fn law_earliest_best_restart_is_kept<A: Arithmetic>(
    data: Seq<A::Value>,
    rows: int,
    training: Seq<A::Value>,
    training_rows: usize,
    k: int,
    dim: usize,
    config: KMeansConfig,
    restarts: Seq<Restart<A::Total>>,
    result: KMeansResult<A::Value, A::Total>,
    singles: Seq<KMeansResult<A::Value, A::Total>>,
    keys: Seq<Option<i64>>,
)
    requires
        is_deterministic::<A>(),
        k > 0,
        dim > 0,
        config.decode_block_size > 0,
        is_best_restart::<A>(
            data,
            rows,
            training,
            training_rows,
            k,
            dim,
            config,
            restarts,
            result,
        ),
        singles.len() == config.nredo,
        are_restarts::<A>(data, rows, training, training_rows, k, dim, config, singles),
        keys.len() == config.nredo,
        forall|i: int|
            0 <= i < keys.len() ==> has_key::<A>((#[trigger] singles[i]).objective, keys[i]),
    ensures
        exists|chosen: int| #[trigger]
            is_earliest_least(keys, chosen) && is_same_result(result, singles[chosen]),
{
    let (results, chosen) = choose|
        results: Seq<KMeansResult<A::Value, A::Total>>,
        chosen: int,
    | #[trigger]
        are_restarts::<A>(data, rows, training, training_rows, k, dim, config, results)
            && are_told(results, restarts) && #[trigger] is_selection::<A>(restarts, chosen)
            && 0 <= chosen < results.len() && result == results[chosen];
    assert forall|i: int| 0 <= i < results.len() implies is_same_result(
        #[trigger] results[i],
        singles[i],
    ) by {
        lemma_same_restart::<A>(
            data,
            rows,
            training,
            training_rows,
            k,
            dim,
            config,
            restart_seed(config.seed, i),
            results[i],
            singles[i],
        );
    }
    assert forall|i: int| 0 <= i < restarts.len() implies has_key::<A>(
        (#[trigger] restarts[i]).objective,
        keys[i],
    ) by {
        assert(is_same_result(results[i], singles[i]));
        assert(has_key::<A>(singles[i].objective, keys[i]));
    }
    lemma_selection_is_least::<A>(restarts, keys, chosen);
    assert(is_same_result(results[chosen], singles[chosen]));
}

/// The configuration of a single run with the seed of restart `index`.
pub open spec fn single_restart(config: KMeansConfig, index: int) -> KMeansConfig {
    KMeansConfig { nredo: 1, seed: restart_seed(config.seed, index), ..config }
}

/// A single run is the one restart that it consists of.
proof fn lemma_single_run<A: Arithmetic>(
    data: Seq<Vec<A::Value>>,
    k: usize,
    config: KMeansConfig,
    index: int,
    indices: Seq<usize>,
    left: Seq<u64>,
    result: KMeansResult<A::Value, A::Total>,
)
    requires
        sample_target(data.len() as int, k as int, config.max_points_per_centroid as int)
            == data.len(),
        data.len() <= usize::MAX,
        is_training_sample(
            data.len() as usize,
            k as int,
            config.max_points_per_centroid as int,
            seeded_state(config.seed),
            indices,
            left,
        ),
        is_clustering::<A>(data, k, single_restart(config, index), result),
    ensures
        is_restart::<A>(
            joined(contents(data)),
            data.len() as int,
            joined(rows_at(joined(contents(data)), indices, data[0]@.len() as usize as int)),
            indices.len() as usize,
            k as int,
            data[0]@.len() as usize,
            config,
            restart_seed(config.seed, index),
            result,
        ),
{
    let single = single_restart(config, index);
    let flattened = joined(contents(data));
    let dim = data[0]@.len() as usize;
    let (training_rows, restarts) = choose|
        training_rows: usize,
        restarts: Seq<Restart<A::Total>>,
    | #[trigger]
        is_outcome::<A>(data, k, single, training_rows, restarts, result);
    let training = joined(rows_at(flattened, indices, dim as int));
    assert(is_best_restart::<A>(
        flattened,
        data.len() as int,
        training,
        training_rows,
        k as int,
        dim,
        single,
        restarts,
        result,
    ));
    let (results, chosen) = choose|
        results: Seq<KMeansResult<A::Value, A::Total>>,
        chosen: int,
    | #[trigger]
        are_restarts::<A>(
            flattened,
            data.len() as int,
            training,
            training_rows,
            k as int,
            dim,
            single,
            results,
        ) && are_told(results, restarts) && #[trigger] is_selection::<A>(restarts, chosen) && 0
            <= chosen < results.len() && result == results[chosen];
    assert(restart_seed(single.seed, 0) == single.seed);
    assert(is_restart::<A>(
        flattened,
        data.len() as int,
        training,
        training_rows,
        k as int,
        dim,
        single,
        restart_seed(single.seed, 0),
        results[0],
    ));
    lemma_restart_reads::<A>(
        flattened,
        data.len() as int,
        training,
        training_rows,
        k as int,
        dim,
        single,
        config,
        single.seed,
        result,
    );
}

/// Where all points are trained on, clustering with several restarts gives what the
/// first of those single runs gives whose objective is the least. Each single run has
/// the seed of its restart.
pub proof fn law_result_is_the_earliest_best_single_run<A: Arithmetic>(
    data: Seq<Vec<A::Value>>,
    k: usize,
    config: KMeansConfig,
    result: KMeansResult<A::Value, A::Total>,
    singles: Seq<KMeansResult<A::Value, A::Total>>,
    keys: Seq<Option<i64>>,
)
    requires
        is_deterministic::<A>(),
        can_cluster(
            data,
            k,
            config.niter,
            config.nredo,
            config.max_points_per_centroid,
            config.decode_block_size,
        ),
        sample_target(data.len() as int, k as int, config.max_points_per_centroid as int)
            == data.len(),
        is_clustering::<A>(data, k, config, result),
        singles.len() == config.nredo,
        forall|i: int|
            0 <= i < singles.len() ==> is_clustering::<A>(
                data,
                k,
                single_restart(config, i),
                #[trigger] singles[i],
            ),
        keys.len() == config.nredo,
        forall|i: int|
            0 <= i < keys.len() ==> has_key::<A>((#[trigger] singles[i]).objective, keys[i]),
    ensures
        exists|chosen: int| #[trigger]
            is_earliest_least(keys, chosen) && is_same_result(result, singles[chosen]),
{
    let flattened = joined(contents(data));
    let width = data[0]@.len() as int;
    assert(width <= data.len() * width) by (nonlinear_arith)
        requires
            0 <= width,
            data.len() >= 1,
    ;
    let dim = width as usize;
    let (training_rows, restarts) = choose|
        training_rows: usize,
        restarts: Seq<Restart<A::Total>>,
    | #[trigger]
        is_outcome::<A>(data, k, config, training_rows, restarts, result);
    let (indices, left) = choose|indices: Seq<usize>, left: Seq<u64>| #[trigger]
        is_training_sample(
            data.len() as usize,
            k as int,
            config.max_points_per_centroid as int,
            seeded_state(config.seed),
            indices,
            left,
        ) && training_rows == indices.len() && is_best_restart::<A>(
            flattened,
            data.len() as int,
            joined(rows_at(flattened, indices, dim as int)),
            training_rows,
            k as int,
            dim,
            config,
            restarts,
            result,
        );
    let training = joined(rows_at(flattened, indices, dim as int));
    assert forall|i: int| 0 <= i < singles.len() implies is_restart::<A>(
        flattened,
        data.len() as int,
        training,
        training_rows,
        k as int,
        dim,
        config,
        restart_seed(config.seed, i),
        #[trigger] singles[i],
    ) by {
        lemma_single_run::<A>(data, k, config, i, indices, left, singles[i]);
    }
    law_earliest_best_restart_is_kept::<A>(
        flattened,
        data.len() as int,
        training,
        training_rows,
        k as int,
        dim,
        config,
        restarts,
        result,
        singles,
        keys,
    );
}

/// The selection among the first restarts stands, unless a later one is below it.
proof fn lemma_selection_of_first<A: Arithmetic>(
    restarts: Seq<Restart<A::Total>>,
    chosen: int,
    count: int,
)
    requires
        is_deterministic::<A>(),
        0 < count <= restarts.len(),
        is_selection::<A>(restarts, chosen),
    ensures
        0 <= chosen < restarts.len(),
        exists|earlier: int| #[trigger]
            is_selection::<A>(restarts.take(count), earlier) && 0 <= earlier < count && (earlier
                == chosen || is_comparison::<A>(
                restarts[chosen].objective,
                restarts[earlier].objective,
                true,
            )),
    decreases restarts.len(),
{
    if count == restarts.len() {
        assert(restarts.take(count) =~= restarts);
        assert(is_selection::<A>(restarts.take(count), chosen));
    } else {
        let last = restarts.last();
        let before = choose|before: int|
            0 <= before < restarts.len() - 1 && is_selection::<A>(restarts.drop_last(), before)
                && #[trigger] is_comparison::<A>(
                last.objective,
                restarts[before].objective,
                last.new_best,
            ) && chosen == if last.new_best {
                restarts.len() - 1
            } else {
                before
            };
        let init = restarts.drop_last();
        lemma_selection_of_first::<A>(init, before, count);
        assert(init.take(count) =~= restarts.take(count));
        let earlier = choose|earlier: int| #[trigger]
            is_selection::<A>(init.take(count), earlier) && 0 <= earlier < count && (earlier
                == before || is_comparison::<A>(
                init[before].objective,
                init[earlier].objective,
                true,
            ));
        assert(is_selection::<A>(restarts.take(count), earlier));
        assert(init[before] == restarts[before] && init[earlier] == restarts[earlier]);
        assert(last == restarts[restarts.len() - 1]);
    }
}

/// More restarts are never worse: what is kept of them is what is kept of the first of
/// them, or its objective is below. And the first restarts are the same.
pub proof fn law_more_restarts_are_never_worse<A: Arithmetic>(
    data: Seq<Vec<A::Value>>,
    k: usize,
    config: KMeansConfig,
    nredo: usize,
    few_rows: usize,
    few_restarts: Seq<Restart<A::Total>>,
    few: KMeansResult<A::Value, A::Total>,
    many_rows: usize,
    many_restarts: Seq<Restart<A::Total>>,
    many: KMeansResult<A::Value, A::Total>,
)
    requires
        is_deterministic::<A>(),
        can_cluster(
            data,
            k,
            config.niter,
            config.nredo,
            config.max_points_per_centroid,
            config.decode_block_size,
        ),
        config.nredo <= nredo,
        is_outcome::<A>(data, k, config, few_rows, few_restarts, few),
        is_outcome::<A>(
            data,
            k,
            (KMeansConfig { nredo, ..config }),
            many_rows,
            many_restarts,
            many,
        ),
    ensures
        few_rows == many_rows,
        few_restarts == many_restarts.take(config.nredo as int),
        is_same_result(few, many) || is_comparison::<A>(many.objective, few.objective, true),
{
    let more = KMeansConfig { nredo, ..config };
    let flattened = joined(contents(data));
    let width = data[0]@.len() as int;
    assert(width <= data.len() * width) by (nonlinear_arith)
        requires
            0 <= width,
            data.len() >= 1,
    ;
    let dim = width as usize;
    let total = data.len() as int;
    let (x, x_left) = choose|x: Seq<usize>, x_left: Seq<u64>| #[trigger]
        is_training_sample(
            total as usize,
            k as int,
            config.max_points_per_centroid as int,
            seeded_state(config.seed),
            x,
            x_left,
        ) && few_rows == x.len() && is_best_restart::<A>(
            flattened,
            total,
            joined(rows_at(flattened, x, dim as int)),
            few_rows,
            k as int,
            dim,
            config,
            few_restarts,
            few,
        );
    let (y, y_left) = choose|y: Seq<usize>, y_left: Seq<u64>| #[trigger]
        is_training_sample(
            total as usize,
            k as int,
            more.max_points_per_centroid as int,
            seeded_state(more.seed),
            y,
            y_left,
        ) && many_rows == y.len() && is_best_restart::<A>(
            flattened,
            total,
            joined(rows_at(flattened, y, dim as int)),
            many_rows,
            k as int,
            dim,
            more,
            many_restarts,
            many,
        );
    lemma_same_sample(
        total as usize,
        k as int,
        config.max_points_per_centroid as int,
        seeded_state(config.seed),
        x,
        x_left,
        y,
        y_left,
    );
    let training = joined(rows_at(flattened, x, dim as int));
    let (a, i) = choose|a: Seq<KMeansResult<A::Value, A::Total>>, i: int| #[trigger]
        are_restarts::<A>(flattened, total, training, few_rows, k as int, dim, config, a)
            && are_told(a, few_restarts) && #[trigger] is_selection::<A>(few_restarts, i) && 0 <= i
            < a.len() && few == a[i];
    let (b, j) = choose|b: Seq<KMeansResult<A::Value, A::Total>>, j: int| #[trigger]
        are_restarts::<A>(flattened, total, training, many_rows, k as int, dim, more, b)
            && are_told(b, many_restarts) && #[trigger] is_selection::<A>(many_restarts, j) && 0
            <= j < b.len() && many == b[j];
    assert forall|n: int| 0 <= n < a.len() implies is_same_result(#[trigger] a[n], b[n]) by {
        assert(is_restart::<A>(
            flattened,
            total,
            training,
            many_rows,
            k as int,
            dim,
            more,
            restart_seed(more.seed, n),
            b[n],
        ));
        lemma_restart_reads::<A>(
            flattened,
            total,
            training,
            many_rows,
            k as int,
            dim,
            more,
            config,
            restart_seed(config.seed, n),
            b[n],
        );
        lemma_same_restart::<A>(
            flattened,
            total,
            training,
            few_rows,
            k as int,
            dim,
            config,
            restart_seed(config.seed, n),
            a[n],
            b[n],
        );
    }
    let count = config.nredo as int;
    let first = many_restarts.take(count);
    lemma_selection_of_first::<A>(many_restarts, j, count);
    let earlier = choose|earlier: int| #[trigger]
        is_selection::<A>(many_restarts.take(count), earlier) && 0 <= earlier < count && (earlier
            == j || is_comparison::<A>(
            many_restarts[j].objective,
            many_restarts[earlier].objective,
            true,
        ));
    assert forall|n: int| 0 <= n < few_restarts.len() implies (
    #[trigger] few_restarts[n]).objective == first[n].objective by {
        assert(is_same_result(a[n], b[n]));
        assert(many_restarts[n].objective == b[n].objective);
    }
    lemma_same_selection::<A>(few_restarts, i, first, earlier);
    assert(is_same_result(a[i], b[i]));
    assert(many_restarts[j].objective == b[j].objective);
    assert(many_restarts[i].objective == b[i].objective);
}

} // verus!
