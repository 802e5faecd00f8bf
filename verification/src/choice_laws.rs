//! What is chosen: the points to train on, the first centroids, the rows that empty clusters
//! are reseeded with, and the restart that is kept.
use crate::arithmetic::Arithmetic;
use crate::centroids::is_scaled;
use crate::clustering::{
    can_cluster, can_restart, is_comparison, is_selection, is_within_limits, obstacle,
    restart_seed, validation, InputError, KMeansConfig, KMeansError, KMeansResult, Restart,
    Training,
};
use crate::determinism::is_deterministic;
use crate::layout::{contents, lemma_row_fits, numbers, row};
use crate::layout_laws::law_gathered_row_is_in_place;
use crate::lloyd::can_iterate;
use crate::random::{index_outcome, shuffle_outcome};
use crate::ranking::{is_ranking, lemma_rearranged, ranks_before};
use crate::reproducibility::is_same_result;
use crate::restart_laws::{has_key, lemma_selection_is_least};
use crate::sampling::{initial_centroids, is_training_sample, shuffled_rows};
use crate::sweep::{can_sweep, AssignmentSummary};
use crate::update::{
    are_moved, are_rows, distinct_rows, empty_count, is_mean, is_pool, is_updated,
    lemma_distinct_rows, lemma_empty_count_grows, lemma_empty_count_monotone, reseeds,
};
use vstd::prelude::*;

verus! {

/// Ascending rows are at least as far apart as their places.
proof fn lemma_all_rows_in_order(indices: Seq<usize>, i: int, j: int)
    requires
        0 <= i <= j < indices.len(),
        forall|i: int, j: int| 0 <= i < j < indices.len() ==> indices[i] < indices[j],
    ensures
        indices[i] + (j - i) <= indices[j],
        indices[i] >= i,
    decreases j,
{
    if i < j {
        lemma_all_rows_in_order(indices, i, j - 1);
        assert(indices[j - 1] < indices[j]);
    } else if i > 0 {
        lemma_all_rows_in_order(indices, i - 1, j - 1);
        assert(indices[i - 1] < indices[i]);
    }
}

/// The points to train on: as many as there are clusters times the points that each may
/// have, but not fewer than clusters and not more than points. Where that is all of them,
/// they are taken in their order and nothing is drawn. Else they are those that come first
/// when the generator shuffles the rows, in ascending order.
pub proof fn law_sample_is_the_front_of_a_shuffle(
    total: usize,
    k: int,
    max_points_per_centroid: int,
    state: Seq<u64>,
    indices: Seq<usize>,
    after: Seq<u64>,
)
    requires
        0 <= k,
        0 <= max_points_per_centroid,
        is_training_sample(total, k, max_points_per_centroid, state, indices, after),
    ensures
        indices.len() == if total <= k || total <= k * max_points_per_centroid {
            total as int
        } else if k * max_points_per_centroid < k {
            k
        } else {
            k * max_points_per_centroid
        },
        forall|i: int, j: int| 0 <= i < j < indices.len() ==> indices[i] < indices[j],
        forall|i: int| 0 <= i < indices.len() ==> #[trigger] indices[i] < total,
        indices.len() == total ==> forall|i: int| 0 <= i < total ==> #[trigger] indices[i] == i,
        indices.len() == total && k <= total ==> after == state,
        indices.len() < total || k > total ==> after == shuffle_outcome(
            state,
            Seq::new(total as nat, |i: int| i as usize),
        ).1,
        indices.len() < total ==> forall|r: usize| #[trigger]
            indices.contains(r) <==> shuffle_outcome(
                state,
                Seq::new(total as nat, |i: int| i as usize),
            ).0.take(indices.len() as int).contains(r),
{
    let product = k * max_points_per_centroid;
    assert(0 <= product) by (nonlinear_arith)
        requires
            0 <= k,
            0 <= max_points_per_centroid,
            product == k * max_points_per_centroid,
    ;
    assert forall|i: int| 0 <= i < total && indices.len() == total implies #[trigger] indices[i]
        == i by {
        lemma_all_rows_in_order(indices, i, i);
        lemma_all_rows_in_order(indices, i, total - 1);
    }
    if indices.len() < total {
        let shuffled = shuffle_outcome(state, numbers(total)).0;
        lemma_rearranged(shuffled.take(indices.len() as int), indices);
    }
}

/// The first centroids: centroid `c` is the point of the row that comes at place `c` when
/// the generator shuffles the rows.
pub proof fn law_first_centroids_are_the_front_of_a_shuffle<T>(
    data: Seq<T>,
    rows: usize,
    dim: int,
    k: int,
    state: Seq<u64>,
    shuffled: Seq<usize>,
)
    requires
        0 <= dim,
        0 <= k <= rows,
        rows * dim <= data.len(),
        shuffled == shuffle_outcome(state, Seq::new(rows as nat, |i: int| i as usize)).0,
        shuffled.len() == rows,
        forall|i: int| 0 <= i < rows ==> #[trigger] shuffled[i] < rows,
    ensures
        initial_centroids(data, rows, dim, k, state).len() == k * dim,
        forall|c: int, d: int|
            #![trigger initial_centroids(data, rows, dim, k, state)[c * dim + d]]
            0 <= c < k && 0 <= d < dim ==> initial_centroids(data, rows, dim, k, state)[c * dim
                + d] == data[shuffled[c] * dim + d],
{
    let order = shuffled.take(k);
    assert(shuffled_rows(state, rows, k) == order);
    assert forall|i: int| 0 <= i < order.len() implies (#[trigger] order[i]) * dim + dim
        <= data.len() by {
        assert(order[i] == shuffled[i]);
        lemma_row_fits(order[i] as int, rows as int, dim);
    }
    law_gathered_row_is_in_place(data, order, dim);
}

/// The seed of restart `index`: that of the configuration and as many times the stride, as
/// far as the word reaches.
pub proof fn law_restart_seed_is_strides_away(seed: u64, index: int)
    requires
        0 <= index,
    ensures
        restart_seed(seed, index) == (seed + index * 0x9e3779b97f4a7c15) % 0x1_0000_0000_0000_0000,
{
    vstd::arithmetic::div_mod::lemma_mod_bound(
        seed + index * 0x9e3779b97f4a7c15,
        0x1_0000_0000_0000_0000,
    );
}

/// The restart that is kept: the first, unless its objective is not ordered, has none below
/// it and none before it as low. A later restart is told to be a new best where it is below
/// all ordered ones before it.
pub proof fn law_kept_restart_is_the_first_least<A: Arithmetic>(
    restarts: Seq<Restart<A::Total>>,
    chosen: int,
    keys: Seq<Option<i64>>,
)
    requires
        is_deterministic::<A>(),
        is_selection::<A>(restarts, chosen),
        keys.len() == restarts.len(),
        forall|i: int|
            0 <= i < restarts.len() ==> call_ensures(
                A::total_key,
                ((#[trigger] restarts[i]).objective,),
                keys[i],
            ),
    ensures
        0 <= chosen < restarts.len(),
        keys[0] is None ==> chosen == 0,
        keys[0] is Some ==> keys[chosen] is Some,
        forall|i: int|
            0 <= i < keys.len() && keys[0] is Some && (#[trigger] keys[i]) is Some
                ==> keys[chosen].unwrap() <= keys[i].unwrap(),
        forall|i: int|
            0 <= i < chosen && keys[0] is Some && (#[trigger] keys[i]) is Some
                ==> keys[chosen].unwrap() < keys[i].unwrap(),
        forall|i: int|
            0 <= i < restarts.len() ==> ((#[trigger] restarts[i]).new_best <==> 0 < i && keys[0]
                is Some && keys[i] is Some && forall|j: int|
                0 <= j < i && (#[trigger] keys[j]) is Some ==> keys[i].unwrap()
                    < keys[j].unwrap()),
    decreases restarts.len(),
{
    assert forall|i: int| 0 <= i < restarts.len() implies has_key::<A>(
        (#[trigger] restarts[i]).objective,
        keys[i],
    ) by {}
    lemma_selection_is_least::<A>(restarts, keys, chosen);
    if restarts.len() > 1 {
        let last = restarts.last();
        let earlier = choose|earlier: int|
            0 <= earlier < restarts.len() - 1 && is_selection::<A>(restarts.drop_last(), earlier)
                && #[trigger] is_comparison::<A>(
                last.objective,
                restarts[earlier].objective,
                last.new_best,
            ) && chosen == if last.new_best {
                restarts.len() - 1
            } else {
                earlier
            };
        let init = restarts.drop_last();
        let init_keys = keys.drop_last();
        assert forall|i: int| 0 <= i < init.len() implies call_ensures(
            A::total_key,
            ((#[trigger] init[i]).objective,),
            init_keys[i],
        ) by {
            assert(init[i] == restarts[i]);
        }
        law_kept_restart_is_the_first_least::<A>(init, earlier, init_keys);
        let n = restarts.len() - 1;
        assert(has_key::<A>(restarts[n].objective, keys[n]));
        assert(has_key::<A>(restarts[earlier].objective, keys[earlier]));
        assert(init_keys[0] == keys[0]);
        assert forall|i: int| 0 <= i < restarts.len() implies ((#[trigger] restarts[i]).new_best
            <==> 0 < i && keys[0] is Some && keys[i] is Some && forall|j: int|
            0 <= j < i && (#[trigger] keys[j]) is Some ==> keys[i].unwrap() < keys[j].unwrap()) by {
            if i < n {
                assert(init[i] == restarts[i]);
                assert(init_keys[i] == keys[i]);
                assert forall|j: int| 0 <= j < i implies #[trigger] keys[j] == init_keys[j] by {}
                if init[i].new_best {
                    assert forall|j: int|
                        0 <= j < i && (#[trigger] keys[j]) is Some implies keys[i].unwrap()
                        < keys[j].unwrap() by {
                        assert(init_keys[j] == keys[j]);
                    }
                }
                if 0 < i && keys[0] is Some && keys[i] is Some && (forall|j: int|
                    0 <= j < i && (#[trigger] keys[j]) is Some ==> keys[i].unwrap()
                        < keys[j].unwrap()) {
                    assert forall|j: int|
                        0 <= j < i && (#[trigger] init_keys[j]) is Some implies init_keys[
                        i].unwrap() < init_keys[j].unwrap() by {
                        assert(init_keys[j] == keys[j]);
                    }
                }
            } else {
                assert(restarts[i] == last);
                assert(last.new_best == (keys[n] is Some && keys[earlier] is Some
                    && keys[n].unwrap() < keys[earlier].unwrap()));
                assert(keys[earlier] == init_keys[earlier]);
                if last.new_best {
                    assert forall|j: int|
                        0 <= j < i && (#[trigger] keys[j]) is Some implies keys[i].unwrap()
                        < keys[j].unwrap() by {
                        assert(init_keys[j] == keys[j]);
                    }
                }
            }
        }
    }
}

/// What looking over the inputs comes to, case by case and in this order.
pub proof fn law_inputs_are_looked_over_in_order<V>(data: Seq<Vec<V>>, k: usize, max_iter: usize)
    ensures
        data.len() == 0 <==> validation(data, k, max_iter) == Err::<usize, InputError>(
            InputError::EmptyData,
        ),
        data.len() > 0 && k == 0 <==> validation(data, k, max_iter) == Err::<usize, InputError>(
            InputError::ZeroClusters,
        ),
        data.len() > 0 && k > 0 && max_iter == 0 <==> validation(data, k, max_iter) == Err::<
            usize,
            InputError,
        >(InputError::ZeroIterations),
        data.len() > 0 && k > data.len() && max_iter > 0 <==> validation(data, k, max_iter)
            == Err::<usize, InputError>(InputError::TooManyClusters),
        0 < k <= data.len() && max_iter > 0 && (exists|i: int|
            0 <= i < data.len() && (#[trigger] data[i])@.len() != data[0]@.len()) <==> validation(
            data,
            k,
            max_iter,
        ) == Err::<usize, InputError>(InputError::MixedDimensions),
        0 < k <= data.len() && max_iter > 0 && (forall|i: int|
            0 <= i < data.len() ==> (#[trigger] data[i])@.len() == data[0]@.len()) <==> validation(
            data,
            k,
            max_iter,
        ) is Ok,
{
}

/// What clustering asks of its inputs, and no more: points of one dimension that is not
/// zero, as many clusters as points at most, at least one cluster, step, restart and row in
/// a batch, and sizes that the machine can count.
pub proof fn law_what_can_be_clustered<V>(data: Seq<Vec<V>>, k: usize, config: KMeansConfig)
    ensures
        can_cluster(
            data,
            k,
            config.niter,
            config.nredo,
            config.max_points_per_centroid,
            config.decode_block_size,
        ) <==> {
            &&& 0 < k <= data.len()
            &&& config.niter > 0
            &&& config.nredo > 0
            &&& config.decode_block_size > 0
            &&& data[0]@.len() > 0
            &&& forall|i: int|
                0 <= i < data.len() ==> (#[trigger] data[i])@.len() == data[0]@.len()
            &&& data.len() * data[0]@.len() <= usize::MAX
            &&& k * config.max_points_per_centroid <= usize::MAX
            &&& data.len() + config.decode_block_size <= usize::MAX
            &&& (if config.decode_block_size < data.len() {
                config.decode_block_size as int
            } else {
                data.len() as int
            }) * k <= usize::MAX
        },
        obstacle(data, k, config) is None <==> can_cluster(
            data,
            k,
            config.niter,
            config.nredo,
            config.max_points_per_centroid,
            config.decode_block_size,
        ),
        obstacle(data, k, config) == Some(KMeansError::Limits) <==> validation(
            data,
            k,
            config.niter,
        ) is Ok && !can_cluster(
            data,
            k,
            config.niter,
            config.nredo,
            config.max_points_per_centroid,
            config.decode_block_size,
        ),
        forall|error: InputError|
            obstacle(data, k, config) == Some(KMeansError::Input(error)) <==> #[trigger]
            validation(data, k, config.niter) == Err::<usize, InputError>(error),
{
}

/// What a restart asks, and no more.
pub proof fn law_what_can_be_restarted<V>(training: Training<V>, config: KMeansConfig)
    ensures
        can_restart(training, config) <==> {
            &&& 0 < training.k <= training.sample_rows <= training.rows
            &&& training.points@.len() == training.rows * training.dim
            &&& training.sample@.len() == training.sample_rows * training.dim
            &&& training.dim > 0
            &&& config.nredo > 0
            &&& config.decode_block_size > 0
            &&& training.rows * training.dim <= usize::MAX
            &&& training.k * config.max_points_per_centroid <= usize::MAX
            &&& training.rows + config.decode_block_size <= usize::MAX
            &&& (if config.decode_block_size < training.rows {
                config.decode_block_size as int
            } else {
                training.rows as int
            }) * training.k <= usize::MAX
        },
{
}

/// How many clusters before `c` are empty: with the next one they are one more exactly where
/// it has no points.
pub proof fn law_empty_clusters_are_counted(counts: Seq<usize>, c: int)
    requires
        0 <= c < counts.len(),
    ensures
        empty_count(counts.take(0)) == 0,
        empty_count(counts.take(c + 1)) == empty_count(counts.take(c)) + if counts[c] == 0 {
            1int
        } else {
            0int
        },
{
    broadcast use vstd::seq_lib::group_to_multiset_ensures;

    assert(counts.take(0).to_multiset().len() == 0);
    assert(counts.take(c + 1) =~= counts.take(c).push(counts[c]));
    assert(counts.take(c + 1).to_multiset() =~= counts.take(c).to_multiset().insert(counts[c]));
}

/// The pool names each row of the candidates once. A row comes before another where one of
/// its candidates is farther than all of the other's, or as far and the row is the lower.
pub proof fn law_pool_goes_by_distance(candidates: Seq<(i64, usize)>, pool: Seq<usize>)
    requires
        is_pool(candidates, pool),
    ensures
        pool.no_duplicates(),
        forall|r: usize| #[trigger]
            pool.contains(r) <==> exists|i: int|
                0 <= i < candidates.len() && (#[trigger] candidates[i]).1 == r,
        forall|p: int, q: int|
            #![trigger pool[p], pool[q]]
            0 <= p < q < pool.len() ==> pool[p] != pool[q] && exists|a: (i64, usize)| #[trigger]
                candidates.contains(a) && a.1 == pool[p] && forall|b: (i64, usize)| #[trigger]
                    candidates.contains(b) && b.1 == pool[q] ==> a.0 > b.0 || (a.0 == b.0 && a.1
                        < b.1),
{
    let ranked = choose|ranked: Seq<(i64, usize)>| #[trigger]
        is_ranking(candidates, ranked) && pool == distinct_rows(ranked);
    lemma_distinct_rows(ranked);
    lemma_rearranged(candidates, ranked);
    assert forall|r: usize| #[trigger] pool.contains(r) <==> exists|i: int|
        0 <= i < candidates.len() && (#[trigger] candidates[i]).1 == r by {
        if pool.contains(r) {
            let i = choose|i: int| 0 <= i < ranked.len() && (#[trigger] ranked[i]).1 == r;
            assert(ranked.contains(ranked[i]));
            let j = choose|j: int| 0 <= j < candidates.len() && candidates[j] == ranked[i];
            assert(candidates[j].1 == r);
        }
        if exists|i: int| 0 <= i < candidates.len() && (#[trigger] candidates[i]).1 == r {
            let i = choose|i: int| 0 <= i < candidates.len() && (#[trigger] candidates[i]).1 == r;
            assert(candidates.contains(candidates[i]));
            assert(ranked.contains(candidates[i]));
            let j = choose|j: int| 0 <= j < ranked.len() && ranked[j] == candidates[i];
            assert(pool.contains(ranked[j].1));
        }
    }
    assert forall|p: int, q: int|
        #![trigger pool[p], pool[q]]
        0 <= p < q < pool.len() implies pool[p] != pool[q] && exists|a: (i64, usize)| #[trigger]
        candidates.contains(a) && a.1 == pool[p] && forall|b: (i64, usize)| #[trigger]
            candidates.contains(b) && b.1 == pool[q] ==> a.0 > b.0 || (a.0 == b.0 && a.1
                < b.1) by {
        let i = lemma_first_place(ranked, p);
        let a = ranked[i];
        assert(ranked.contains(a));
        assert(candidates.contains(a));
        assert forall|b: (i64, usize)| #[trigger]
            candidates.contains(b) && b.1 == pool[q] implies a.0 > b.0 || (a.0 == b.0 && a.1
            < b.1) by {
            assert(ranked.contains(b));
            let j = choose|j: int| 0 <= j < ranked.len() && ranked[j] == b;
            lemma_later_rows_come_later(ranked, i, j, p, q);
            assert(ranks_before(ranked[i], ranked[j]));
        }
    }
}

/// The place at which the row of place `p` of the pool comes first.
proof fn lemma_first_place(ranked: Seq<(i64, usize)>, p: int) -> (i: int)
    requires
        0 <= p < distinct_rows(ranked).len(),
    ensures
        0 <= i < ranked.len(),
        ranked[i].1 == distinct_rows(ranked)[p],
        distinct_rows(ranked.take(i)) == distinct_rows(ranked).take(p),
    decreases ranked.len(),
{
    let init = ranked.drop_last();
    if p < distinct_rows(init).len() {
        let i = lemma_first_place(init, p);
        assert(init.take(i) =~= ranked.take(i));
        assert(distinct_rows(init).take(p) =~= distinct_rows(ranked).take(p));
        i
    } else {
        assert(ranked.take(ranked.len() - 1) =~= init);
        assert(distinct_rows(ranked).take(p) =~= distinct_rows(init));
        ranked.len() - 1
    }
}

/// A candidate of a row that comes later in the pool comes later in the ranking than the
/// first of a row that comes earlier.
proof fn lemma_later_rows_come_later(
    ranked: Seq<(i64, usize)>,
    i: int,
    j: int,
    p: int,
    q: int,
)
    requires
        0 <= p < q < distinct_rows(ranked).len(),
        0 <= i < ranked.len(),
        0 <= j < ranked.len(),
        ranked[i].1 == distinct_rows(ranked)[p],
        ranked[j].1 == distinct_rows(ranked)[q],
        distinct_rows(ranked.take(i)) == distinct_rows(ranked).take(p),
    ensures
        i < j,
{
    lemma_distinct_rows(ranked);
    if j <= i {
        if j < i {
            lemma_distinct_rows(ranked.take(i));
            assert(ranked.take(i)[j] == ranked[j]);
            let early = distinct_rows(ranked.take(i));
            assert(early.contains(ranked[j].1));
            let at = choose|at: int| 0 <= at < early.len() && early[at] == ranked[j].1;
            assert(distinct_rows(ranked)[at] == ranked[j].1);
        }
    }
}

/// The rows for empty clusters: as long as the pool lasts its rows in their order, and then
/// rows that the generator draws one after the other.
pub proof fn law_reseeds_take_the_pool_and_then_draw(
    counts: Seq<usize>,
    pool: Seq<usize>,
    total_rows: usize,
    state: Seq<u64>,
)
    ensures
        reseeds(counts, pool, total_rows, state).0.len() == empty_count(counts),
        forall|i: int|
            0 <= i < empty_count(counts) && i < pool.len() ==> #[trigger] reseeds(
                counts,
                pool,
                total_rows,
                state,
            ).0[i] == pool[i],
        exists|states: Seq<Seq<u64>>| #[trigger]
            states.len() > 0 && states[0] == state && states.last() == reseeds(
                counts,
                pool,
                total_rows,
                state,
            ).1 && states.len() - 1 == (if empty_count(counts) <= pool.len() {
                0int
            } else {
                empty_count(counts) - pool.len()
            }) && forall|i: int|
                #![trigger states[i]]
                0 <= i < states.len() - 1 ==> reseeds(counts, pool, total_rows, state).0[pool.len()
                    + i] == index_outcome(usize::BITS, states[i], total_rows).0 && states[i + 1]
                    == index_outcome(usize::BITS, states[i], total_rows).1,
    decreases counts.len(),
{
    broadcast use vstd::seq_lib::group_to_multiset_ensures;

    let (rows, left) = reseeds(counts, pool, total_rows, state);
    if counts.len() == 0 {
        assert(counts.to_multiset().len() == 0);
        let states = seq![state];
        assert(states.len() > 0 && states[0] == state && states.last() == left);
    } else {
        let init = counts.drop_last();
        law_reseeds_take_the_pool_and_then_draw(init, pool, total_rows, state);
        assert(init.push(counts.last()) =~= counts);
        assert(counts.to_multiset() =~= init.to_multiset().insert(counts.last()));
        let (earlier, between) = reseeds(init, pool, total_rows, state);
        let states = choose|states: Seq<Seq<u64>>| #[trigger]
            states.len() > 0 && states[0] == state && states.last() == between && states.len() - 1
                == (if empty_count(init) <= pool.len() {
                0int
            } else {
                empty_count(init) - pool.len()
            }) && forall|i: int|
                #![trigger states[i]]
                0 <= i < states.len() - 1 ==> earlier[pool.len() + i] == index_outcome(
                    usize::BITS,
                    states[i],
                    total_rows,
                ).0 && states[i + 1] == index_outcome(usize::BITS, states[i], total_rows).1;
        if counts.last() > 0 {
            assert(rows == earlier && left == between);
            assert(states.len() > 0);
        } else if earlier.len() < pool.len() {
            assert(rows == earlier.push(pool[earlier.len() as int]));
            assert(states.len() > 0);
        } else {
            let drawn = index_outcome(usize::BITS, between, total_rows);
            assert(rows == earlier.push(drawn.0) && left == drawn.1);
            let grown = states.push(drawn.1);
            assert(grown.len() > 0);
            assert forall|i: int|
                #![trigger grown[i]]
                0 <= i < grown.len() - 1 implies rows[pool.len() + i] == index_outcome(
                usize::BITS,
                grown[i],
                total_rows,
            ).0 && grown[i + 1] == index_outcome(usize::BITS, grown[i], total_rows).1 by {
                if i < states.len() - 1 {
                    assert(grown[i] == states[i]);
                    assert(grown[i + 1] == states[i + 1]);
                }
            }
        }
    }
}

/// An update in full: a cluster that has points goes to its sum times the reciprocal of
/// their count, and an empty one to the point that the next of the replacements names. The
/// replacements follow the pool and the generator. The centroids after the first `k` are
/// left.
pub proof fn law_update_moves_every_cluster<A: Arithmetic>(
    data: Seq<A::Value>,
    dim: int,
    counts: Seq<usize>,
    sums: Seq<A::Value>,
    candidates: Seq<(i64, usize)>,
    summary: AssignmentSummary<A::Value>,
    k: int,
    before: Seq<A::Value>,
    state: Seq<u64>,
    after: Seq<A::Value>,
    left: Seq<u64>,
)
    requires
        dim > 0,
        0 <= k <= counts.len(),
        k * dim <= sums.len(),
        k * dim <= before.len(),
        counts == summary.counts@,
        sums == summary.sums@,
        candidates == summary.candidates@,
        is_updated::<A>(data, dim, summary, k, before, state, after, left),
    ensures
        after.len() == before.len(),
        forall|i: int| k * dim <= i < before.len() ==> #[trigger] after[i] == before[i],
        forall|c: int|
            #![trigger counts[c]]
            0 <= c < k && counts[c] > 0 ==> exists|divisor: A::Value, inverse: A::Value| #[trigger]
                call_ensures(A::from_count, (counts[c],), divisor) && #[trigger] call_ensures(
                    A::reciprocal,
                    (divisor,),
                    inverse,
                ) && forall|d: int|
                    0 <= d < dim ==> call_ensures(
                        A::times,
                        (sums[c * dim + d], inverse),
                        #[trigger] after[c * dim + d],
                    ),
        exists|pool: Seq<usize>| #[trigger]
            is_pool(candidates, pool) && left == reseeds(
                counts.take(k),
                pool,
                (data.len() as int / dim) as usize,
                state,
            ).1 && forall|c: int|
                #![trigger counts[c]]
                0 <= c < k && counts[c] == 0 ==> ({
                    let source = reseeds(
                        counts.take(k),
                        pool,
                        (data.len() as int / dim) as usize,
                        state,
                    ).0[empty_count(counts.take(c)) as int];
                    &&& source < data.len() as int / dim
                    &&& after.subrange(c * dim, c * dim + dim) == data.subrange(
                        source * dim,
                        source * dim + dim,
                    )
                }),
{
    let rows = data.len() as int / dim;
    let pool = choose|pool: Seq<usize>| #[trigger]
        is_pool(summary.candidates@, pool) && ({
            let (replacements, rest) = reseeds(counts.take(k), pool, rows as usize, state);
            are_moved::<A>(data, dim, counts, sums, replacements, k, before, after) && left == rest
                && are_rows(replacements, rows, empty_count(counts.take(k)))
        });
    let replacements = reseeds(counts.take(k), pool, rows as usize, state).0;
    assert forall|i: int| k * dim <= i < before.len() implies #[trigger] after[i] == before[i] by {
        assert(0 <= k * dim) by (nonlinear_arith)
            requires
                0 <= k,
                0 < dim,
        ;
        assert(after.skip(k * dim)[i - k * dim] == before.skip(k * dim)[i - k * dim]);
    }
    assert forall|c: int|
        #![trigger counts[c]]
        0 <= c < k && counts[c] > 0 implies exists|divisor: A::Value, inverse: A::Value| #[trigger]
        call_ensures(A::from_count, (counts[c],), divisor) && #[trigger] call_ensures(
            A::reciprocal,
            (divisor,),
            inverse,
        ) && forall|d: int|
            0 <= d < dim ==> call_ensures(
                A::times,
                (sums[c * dim + d], inverse),
                #[trigger] after[c * dim + d],
            ) by {
        lemma_row_fits(c, k, dim);
        let own = row(sums, c, dim);
        let centroid = row(after, c, dim);
        assert(is_mean::<A>(own, counts[c], centroid));
        let (divisor, inverse) = choose|divisor: A::Value, inverse: A::Value| #[trigger]
            call_ensures(A::from_count, (counts[c],), divisor) && #[trigger] call_ensures(
                A::reciprocal,
                (divisor,),
                inverse,
            ) && is_scaled::<A>(own, inverse, centroid);
        assert forall|d: int| 0 <= d < dim implies call_ensures(
            A::times,
            (sums[c * dim + d], inverse),
            #[trigger] after[c * dim + d],
        ) by {
            assert(call_ensures(A::times, (own[d], inverse), centroid[d]));
        }
    }
    assert forall|c: int|
        #![trigger counts[c]]
        0 <= c < k && counts[c] == 0 implies ({
        let source = replacements[empty_count(counts.take(c)) as int];
        &&& source < rows
        &&& after.subrange(c * dim, c * dim + dim) == data.subrange(
            source * dim,
            source * dim + dim,
        )
    }) by {
        lemma_empty_count_grows(counts, c);
        lemma_empty_count_monotone(counts, c + 1, k);
        let source = replacements[empty_count(counts.take(c)) as int];
        assert(row(after, c, dim) == row(data, source as int, dim));
    }
}

/// What a pass over the points asks of its inputs, and no more.
pub proof fn law_what_can_be_swept(
    data_len: int,
    rows: int,
    k: int,
    dim: int,
    columns_len: int,
    norms_len: int,
    block: int,
)
    ensures
        can_sweep(data_len, rows, k, dim, columns_len, norms_len, block) <==> {
            &&& block > 0
            &&& rows * dim <= data_len
            &&& dim * k <= columns_len
            &&& k <= norms_len
            &&& rows + block <= usize::MAX
            &&& (if block < rows {
                block
            } else {
                rows
            }) * k <= usize::MAX
        },
{
}

/// What the steps ask of their inputs, and no more.
pub proof fn law_what_can_be_iterated(
    data_len: int,
    rows: int,
    k: int,
    dim: int,
    centroids_len: int,
    assignments_len: int,
    block: int,
)
    ensures
        can_iterate(data_len, rows, k, dim, centroids_len, assignments_len, block) <==> {
            &&& block > 0
            &&& dim > 0
            &&& rows * dim <= data_len
            &&& rows + block <= usize::MAX
            &&& (if block < rows {
                block
            } else {
                rows
            }) * k <= usize::MAX
            &&& rows > 0 ==> k > 0
            &&& k > 0 ==> dim <= data_len
            &&& k * dim <= centroids_len
            &&& rows <= assignments_len
        },
{
}

/// Two results that are the same have the same centroids, coordinate by coordinate, the same
/// assignments and the same objective.
pub proof fn law_same_results_are_equal_throughout<V, T>(
    a: KMeansResult<V, T>,
    b: KMeansResult<V, T>,
)
    requires
        is_same_result(a, b),
    ensures
        a.centroids@.len() == b.centroids@.len(),
        forall|c: int|
            0 <= c < a.centroids@.len() ==> (#[trigger] a.centroids@[c])@ == b.centroids@[c]@,
        a.assignments@ == b.assignments@,
        a.objective == b.objective,
{
    assert(a.centroids@.len() == contents(a.centroids@).len());
    assert(b.centroids@.len() == contents(b.centroids@).len());
    assert forall|c: int| 0 <= c < a.centroids@.len() implies (#[trigger] a.centroids@[c])@
        == b.centroids@[c]@ by {
        assert(contents(a.centroids@)[c] == contents(b.centroids@)[c]);
    }
}

/// The sizes that the machine can count: there are coordinates, restarts and rows in a batch,
/// and no product of sizes that is formed leaves the range of the machine.
pub proof fn law_limits_are_those_of_the_machine(
    rows: int,
    dim: int,
    k: int,
    nredo: int,
    max_points_per_centroid: int,
    block: int,
)
    ensures
        is_within_limits(rows, dim, k, nredo, max_points_per_centroid, block) <==> {
            &&& dim > 0
            &&& nredo > 0
            &&& block > 0
            &&& rows * dim <= usize::MAX
            &&& k * max_points_per_centroid <= usize::MAX
            &&& rows + block <= usize::MAX
            &&& (if block < rows {
                block
            } else {
                rows
            }) * k <= usize::MAX
        },
{
}

} // verus!
