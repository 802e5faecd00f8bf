//! What the keys stand for: the order of values and of totals.
use crate::arithmetic::Arithmetic;
use crate::assignment::{
    are_distance_keys, are_rows_nearest, clamped, is_batch_assigned, is_cell_key,
    is_distance_key, is_nearest, is_product, is_row_nearest,
};
use crate::batch_laws::{is_entry, lemma_row_in_batch};
use crate::clustering::{
    are_restarts, are_told, is_best_restart, is_comparison, is_report, is_selection, KMeansConfig,
    KMeansReport, KMeansResult, Restart,
};
use crate::laws::law_every_row_has_one_batch;
use crate::layout::{contents, joined, row, rows_at};
use crate::random::seeded_state;
use crate::sampling::is_training_sample;
use crate::sweep::{
    chunk_count, chunk_data, chunk_end, chunk_items, chunk_start, is_assigned, lemma_chunks,
};
use vstd::prelude::*;

verus! {

/// Nothing is less than itself, and what is less than a lesser is less.
pub open spec fn is_strict_order<T>(less: spec_fn(T, T) -> bool) -> bool {
    &&& forall|a: T| !#[trigger] less(a, a)
    &&& forall|a: T, b: T, c: T|
        #![trigger less(a, b), less(b, c)]
        less(a, b) && less(b, c) ==> less(a, c)
}

/// The keys of values follow their order: the key of a smaller value is smaller, zero has
/// the key 0 and infinity the key `i64::MAX`, and a value without a key is neither less
/// than another nor another than it.
pub open spec fn orders_values<A: Arithmetic>(
    less: spec_fn(A::Value, A::Value) -> bool,
    infinity: A::Value,
) -> bool {
    &&& is_strict_order(less)
    &&& forall|a: A::Value, b: A::Value, a_key: Option<i64>, b_key: Option<i64>| #[trigger]
        call_ensures(A::key, (a,), a_key) && #[trigger] call_ensures(A::key, (b,), b_key) ==> less(
            a,
            b,
        ) == (a_key is Some && b_key is Some && a_key.unwrap() < b_key.unwrap())
    &&& forall|a: A::Value, zero: A::Value, key: Option<i64>| #[trigger]
        call_ensures(A::key, (a,), key) && #[trigger] call_ensures(A::zero, (), zero) ==> less(
            a,
            zero,
        ) == (key is Some && key.unwrap() < 0) && less(zero, a) == (key is Some && key.unwrap()
            > 0) && (a == zero ==> key == Some(0i64))
    &&& forall|a: A::Value, key: Option<i64>| #[trigger]
        call_ensures(A::key, (a,), key) ==> less(a, infinity) == (key is Some && key.unwrap()
            < i64::MAX) && (a == infinity ==> key == Some(i64::MAX))
}

/// The keys of totals follow their order.
pub open spec fn orders_totals<A: Arithmetic>(less: spec_fn(A::Total, A::Total) -> bool) -> bool {
    &&& is_strict_order(less)
    &&& forall|a: A::Total, b: A::Total, a_key: Option<i64>, b_key: Option<i64>| #[trigger]
        call_ensures(A::total_key, (a,), a_key) && #[trigger] call_ensures(
            A::total_key,
            (b,),
            b_key,
        ) ==> less(a, b) == (a_key is Some && b_key is Some && a_key.unwrap() < b_key.unwrap())
}

/// `distance` is the squared distance of a point and a centroid with the given squared
/// norms and dot product.
pub open spec fn is_distance<A: Arithmetic>(
    norm: A::Value,
    centroid_norm: A::Value,
    dot: A::Value,
    distance: A::Value,
) -> bool {
    exists|norms: A::Value, two: A::Value, twice: A::Value| #[trigger]
        call_ensures(A::plus, (norm, centroid_norm), norms) && #[trigger] call_ensures(
            A::two,
            (),
            two,
        ) && #[trigger] call_ensures(A::times, (two, dot), twice) && call_ensures(
            A::minus,
            (norms, twice),
            distance,
        )
}

/// The same with the dot product read in row `r` and column `c` of `products`.
pub open spec fn is_distance_at<A: Arithmetic>(
    norm: A::Value,
    centroid_norms: Seq<A::Value>,
    products: A::Products,
    r: int,
    c: int,
    distance: A::Value,
) -> bool {
    exists|dot: A::Value| #[trigger]
        is_entry::<A>(products, centroid_norms.len() as int, r, c, dot) && is_distance::<A>(
            norm,
            centroid_norms[c],
            dot,
            distance,
        )
}

/// `distances` holds the squared distance of the point of row `r` to each centroid.
pub open spec fn are_distances<A: Arithmetic>(
    norm: A::Value,
    centroid_norms: Seq<A::Value>,
    products: A::Products,
    r: int,
    distances: Seq<A::Value>,
) -> bool {
    &&& distances.len() == centroid_norms.len()
    &&& forall|c: int|
        0 <= c < distances.len() ==> is_distance_at::<A>(
            norm,
            centroid_norms,
            products,
            r,
            c,
            #[trigger] distances[c],
        )
}

/// The distance `a` is less than `b`, where both count as zero if they are below it.
pub open spec fn is_nearer<V>(less: spec_fn(V, V) -> bool, zero: V, a: V, b: V) -> bool {
    less(a, b) && less(zero, b)
}

/// `cluster` is the first of those at the least distance, or the first of all where no
/// distance is below infinity.
pub open spec fn is_first_at_least_distance<V>(
    less: spec_fn(V, V) -> bool,
    zero: V,
    infinity: V,
    distances: Seq<V>,
    cluster: int,
) -> bool {
    if exists|c: int| 0 <= c < distances.len() && less(#[trigger] distances[c], infinity) {
        &&& 0 <= cluster < distances.len()
        &&& less(distances[cluster], infinity)
        &&& forall|c: int|
            0 <= c < distances.len() ==> !is_nearer(
                less,
                zero,
                #[trigger] distances[c],
                distances[cluster],
            )
        &&& forall|c: int|
            0 <= c < cluster && less(#[trigger] distances[c], infinity) ==> is_nearer(
                less,
                zero,
                distances[cluster],
                distances[c],
            )
    } else {
        cluster == 0
    }
}

/// `distance` is that distance, and `key` its key.
spec fn is_keyed_distance<A: Arithmetic>(
    norm: A::Value,
    centroid_norms: Seq<A::Value>,
    products: A::Products,
    r: int,
    c: int,
    distance: A::Value,
    key: Option<i64>,
) -> bool {
    &&& is_distance_at::<A>(norm, centroid_norms, products, r, c, distance)
    &&& exists|raw: Option<i64>| #[trigger]
        call_ensures(A::key, (distance,), raw) && key == clamped(raw)
}

/// The cluster that is chosen for a row of a batch is at the least distance.
proof fn lemma_chosen_is_least<A: Arithmetic>(
    less: spec_fn(A::Value, A::Value) -> bool,
    zero: A::Value,
    infinity: A::Value,
    norm: A::Value,
    centroid_norms: Seq<A::Value>,
    products: A::Products,
    r: int,
    cluster: usize,
    best: i64,
) -> (distances: Seq<A::Value>)
    requires
        orders_values::<A>(less, infinity),
        call_ensures(A::zero, (), zero),
        is_row_nearest::<A>(norm, centroid_norms, products, r, cluster, best),
    ensures
        are_distances::<A>(norm, centroid_norms, products, r, distances),
        is_first_at_least_distance(less, zero, infinity, distances, cluster as int),
{
    let k = centroid_norms.len();
    let keys = choose|keys: Seq<Option<i64>>| #[trigger]
        are_distance_keys::<A>(norm, centroid_norms, products, r, keys) && keys.len()
            == centroid_norms.len() && is_nearest(keys, cluster as int, best);
    let of_centroid = |c: int|
        choose|distance: A::Value| #[trigger]
            is_keyed_distance::<A>(norm, centroid_norms, products, r, c, distance, keys[c]);
    let distances = Seq::new(k, of_centroid);
    assert forall|c: int| 0 <= c < k implies is_keyed_distance::<A>(
        norm,
        centroid_norms,
        products,
        r,
        c,
        #[trigger] distances[c],
        keys[c],
    ) by {
        let place = (r * centroid_norms.len() + c) as usize;
        assert(is_cell_key::<A>(norm, centroid_norms[c], products, place, keys[c]));
        let dot = choose|dot: A::Value| #[trigger]
            call_ensures(A::entry, (&products, place), dot) && is_distance_key::<A>(
                norm,
                centroid_norms[c],
                dot,
                keys[c],
            );
        let (norms, two, twice, distance, raw) = choose|
            norms: A::Value,
            two: A::Value,
            twice: A::Value,
            distance: A::Value,
            raw: Option<i64>,
        | #[trigger]
            call_ensures(A::plus, (norm, centroid_norms[c]), norms) && #[trigger] call_ensures(
                A::two,
                (),
                two,
            ) && #[trigger] call_ensures(A::times, (two, dot), twice) && #[trigger] call_ensures(
                A::minus,
                (norms, twice),
                distance,
            ) && #[trigger] call_ensures(A::key, (distance,), raw) && keys[c] == clamped(raw);
        assert(is_distance::<A>(norm, centroid_norms[c], dot, distance));
        assert(is_entry::<A>(products, k as int, r, c, dot));
        assert(is_distance_at::<A>(norm, centroid_norms, products, r, c, distance));
        assert(is_keyed_distance::<A>(
            norm,
            centroid_norms,
            products,
            r,
            c,
            distance,
            keys[c],
        ));
    }
    let raws = Seq::new(
        k,
        |c: int|
            choose|raw: Option<i64>| #[trigger]
                call_ensures(A::key, (distances[c],), raw) && keys[c] == clamped(raw),
    );
    assert forall|c: int| 0 <= c < k implies call_ensures(
        A::key,
        (distances[c],),
        #[trigger] raws[c],
    ) && keys[c] == clamped(raws[c]) by {
        assert(is_keyed_distance::<A>(
            norm,
            centroid_norms,
            products,
            r,
            c,
            distances[c],
            keys[c],
        ));
    }
    assert forall|c: int| 0 <= c < k implies less(#[trigger] distances[c], infinity) == (
    raws[c] is Some && raws[c].unwrap() < i64::MAX) by {
        assert(call_ensures(A::key, (distances[c],), raws[c]));
    }
    assert forall|a: int, b: int| 0 <= a < k && 0 <= b < k implies is_nearer(
        less,
        zero,
        #[trigger] distances[a],
        #[trigger] distances[b],
    ) == (keys[a] is Some && keys[b] is Some && keys[a].unwrap() < keys[b].unwrap()) by {
        assert(call_ensures(A::key, (distances[a],), raws[a]));
        assert(call_ensures(A::key, (distances[b],), raws[b]));
    }
    if exists|c: int| 0 <= c < k && less(#[trigger] distances[c], infinity) {
        let c = choose|c: int| 0 <= c < k && less(#[trigger] distances[c], infinity);
        assert(keys[c] is Some && keys[c].unwrap() < i64::MAX);
        assert(best < i64::MAX);
        assert(keys[cluster as int] == Some(best));
        assert(keys[cluster as int] == clamped(raws[cluster as int]));
        assert forall|c: int| 0 <= c < cluster && less(#[trigger] distances[c], infinity) implies
            is_nearer(less, zero, distances[cluster as int], distances[c]) by {
            assert(keys[c] == clamped(raws[c]));
            assert(keys[c] != Some(best));
        }
    } else {
        if best < i64::MAX {
            assert(keys[cluster as int] == Some(best));
            assert(keys[cluster as int] == clamped(raws[cluster as int]));
            assert(less(distances[cluster as int], infinity));
        }
    }
    distances
}

/// `cluster` is the first of those at the least distance from a point, as some batch that
/// the point stands in has the distances.
pub open spec fn is_at_least_distance<A: Arithmetic>(
    less: spec_fn(A::Value, A::Value) -> bool,
    zero: A::Value,
    infinity: A::Value,
    point: Seq<A::Value>,
    norm: A::Value,
    dim: usize,
    columns: Seq<A::Value>,
    centroid_norms: Seq<A::Value>,
    cluster: int,
) -> bool {
    exists|
        rows: usize,
        batch: Seq<A::Value>,
        products: A::Products,
        r: int,
        distances: Seq<A::Value>,
    |
        0 <= r < rows && row(batch, r, dim as int) == point && #[trigger] is_product::<A>(
            rows,
            dim,
            centroid_norms.len() as usize,
            batch,
            columns,
            products,
        ) && #[trigger] are_distances::<A>(norm, centroid_norms, products, r, distances)
            && is_first_at_least_distance(less, zero, infinity, distances, cluster)
}

/// Every point is assigned to the first of the clusters at the least distance, where the
/// keys of values follow their order.
pub proof fn law_assigned_cluster_is_at_the_least_distance<A: Arithmetic>(
    less: spec_fn(A::Value, A::Value) -> bool,
    zero: A::Value,
    infinity: A::Value,
    data: Seq<A::Value>,
    norms: Seq<A::Value>,
    dim: usize,
    columns: Seq<A::Value>,
    centroid_norms: Seq<A::Value>,
    block: usize,
    assigned: Seq<usize>,
)
    requires
        orders_values::<A>(less, infinity),
        call_ensures(A::zero, (), zero),
        block > 0,
        data.len() == norms.len() * dim,
        norms.len() <= usize::MAX,
        is_assigned::<A>(data, norms, dim, columns, centroid_norms, block, assigned),
    ensures
        forall|r: int|
            0 <= r < norms.len() ==> is_at_least_distance::<A>(
                less,
                zero,
                infinity,
                row(data, r, dim as int),
                norms[r],
                dim,
                columns,
                centroid_norms,
                #[trigger] assigned[r] as int,
            ),
{
    let rows = norms.len() as int;
    lemma_chunks(rows, block as int);
    assert forall|r: int| 0 <= r < rows implies is_at_least_distance::<A>(
        less,
        zero,
        infinity,
        row(data, r, dim as int),
        norms[r],
        dim,
        columns,
        centroid_norms,
        #[trigger] assigned[r] as int,
    ) by {
        law_every_row_has_one_batch(rows, block as int, r);
        let i = choose|i: int|
            0 <= i < chunk_count(rows, block as int) && #[trigger] chunk_start(i, block as int)
                <= r < chunk_end(i, block as int, rows);
        lemma_row_in_batch(data, dim as int, rows, block as int, i, r);
        let part = chunk_data(data, i, block as int, rows, dim as int);
        let part_norms = chunk_items(norms, i, block as int, rows);
        let part_assigned = chunk_items(assigned, i, block as int, rows);
        let keys = choose|keys: Seq<i64>| #[trigger]
            is_batch_assigned::<A>(
                part,
                part_norms,
                dim,
                columns,
                centroid_norms,
                part_assigned,
                keys,
            );
        let p = choose|p: A::Products| #[trigger]
            is_product::<A>(
                part_norms.len() as usize,
                dim,
                centroid_norms.len() as usize,
                part,
                columns,
                p,
            ) && are_rows_nearest::<A>(part_norms, centroid_norms, p, part_assigned, keys);
        let s = r - chunk_start(i, block as int);
        assert(is_row_nearest::<A>(
            part_norms[s],
            centroid_norms,
            p,
            s,
            part_assigned[s],
            keys[s],
        ));
        let distances = lemma_chosen_is_least::<A>(
            less,
            zero,
            infinity,
            part_norms[s],
            centroid_norms,
            p,
            s,
            part_assigned[s],
            keys[s],
        );
        assert(part_norms[s] == norms[r]);
        assert(part_assigned[s] == assigned[r]);
        assert(are_distances::<A>(norms[r], centroid_norms, p, s, distances));
    }
}

proof fn lemma_none_below_the_selected<A: Arithmetic>(
    less: spec_fn(A::Total, A::Total) -> bool,
    restarts: Seq<Restart<A::Total>>,
    chosen: int,
)
    requires
        orders_totals::<A>(less),
        is_selection::<A>(restarts, chosen),
    ensures
        0 <= chosen < restarts.len(),
        forall|i: int|
            0 <= i < restarts.len() ==> !less(
                (#[trigger] restarts[i]).objective,
                restarts[chosen].objective,
            ),
    decreases restarts.len(),
{
    if restarts.len() > 1 {
        let last = restarts.last();
        let earlier = choose|earlier: int|
            0 <= earlier < restarts.len() - 1 && is_selection::<A>(restarts.drop_last(), earlier)
                && #[trigger] is_comparison::<A>(
                last.objective,
                restarts[earlier].objective,
                last.new_best,
            ) && chosen == if last.new_best {
                restarts.len() - 1
            } else {
                earlier
            };
        let init = restarts.drop_last();
        lemma_none_below_the_selected::<A>(less, init, earlier);
        assert(less(last.objective, restarts[earlier].objective) == last.new_best);
        assert forall|i: int| 0 <= i < restarts.len() implies !less(
            (#[trigger] restarts[i]).objective,
            restarts[chosen].objective,
        ) by {
            if i < init.len() {
                assert(init[i] == restarts[i]);
                assert(init[earlier] == restarts[earlier]);
                assert(!less(init[i].objective, init[earlier].objective));
            }
        }
    }
}

/// No restart has an objective below that of the result, where the keys of totals follow
/// their order.
pub proof fn law_no_objective_is_below_the_result<A: Arithmetic>(
    less: spec_fn(A::Total, A::Total) -> bool,
    data: Seq<Vec<A::Value>>,
    k: usize,
    config: KMeansConfig,
    report: KMeansReport<A::Value, A::Total>,
)
    requires
        orders_totals::<A>(less),
        is_report::<A>(data, k, config, report),
    ensures
        forall|i: int|
            0 <= i < report.restarts@.len() ==> !less(
                (#[trigger] report.restarts@[i]).objective,
                report.result.objective,
            ),
{
    let flattened = joined(contents(data));
    let dim = data[0]@.len() as usize;
    let (indices, left) = choose|indices: Seq<usize>, left: Seq<u64>| #[trigger]
        is_training_sample(
            data.len() as usize,
            k as int,
            config.max_points_per_centroid as int,
            seeded_state(config.seed),
            indices,
            left,
        ) && report.training_rows == indices.len() && is_best_restart::<A>(
            flattened,
            data.len() as int,
            joined(rows_at(flattened, indices, dim as int)),
            report.training_rows,
            k as int,
            dim,
            config,
            report.restarts@,
            report.result,
        );
    let (results, chosen) = choose|
        results: Seq<KMeansResult<A::Value, A::Total>>,
        chosen: int,
    | #[trigger]
        are_restarts::<A>(
            flattened,
            data.len() as int,
            joined(rows_at(flattened, indices, dim as int)),
            report.training_rows,
            k as int,
            dim,
            config,
            results,
        ) && are_told(results, report.restarts@) && #[trigger] is_selection::<A>(
            report.restarts@,
            chosen,
        ) && 0 <= chosen < results.len() && report.result == results[chosen];
    lemma_none_below_the_selected::<A>(less, report.restarts@, chosen);
    assert(report.restarts@[chosen].objective == results[chosen].objective);
}

} // verus!
