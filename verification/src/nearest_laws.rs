//! Every point goes to the nearest centroid, in numbers.
use crate::arithmetic::{are_norms, is_norm, Arithmetic};
use crate::assignment::{
    are_distance_keys, are_rows_nearest, is_batch_assigned, is_batch_nearest, is_cell_key,
    is_distance_key, is_nearest, is_product, is_row_nearest, lemma_assigned_below,
};
use crate::batch_laws::{are_numbers_within, lemma_row_in_batch};
use crate::descent::{
    are_rows_within, distance_bound, gap_number, is_key_of_square, lemma_key_is_exact,
    measures_exactly,
};
use crate::laws::law_every_row_has_one_batch;
use crate::layout::{lemma_product_monotone, lemma_row_fits, row};
use crate::lloyd::is_viewed;
use crate::sweep::{
    chunk_count, chunk_data, chunk_end, chunk_items, chunk_start, is_assigned, lemma_chunks,
};
use vstd::prelude::*;

verus! {

/// Values that stand for one square have one key.
pub open spec fn has_one_key_for_one_square<A: Arithmetic>(
    square: spec_fn(A::Value) -> Option<int>,
) -> bool {
    forall|a: A::Value, b: A::Value, a_key: Option<i64>, b_key: Option<i64>| #[trigger]
        call_ensures(A::key, (a,), a_key) && #[trigger] call_ensures(A::key, (b,), b_key)
            && square(a) is Some && square(a) == square(b) ==> a_key == b_key
}

/// A batch assigns each of its points to the first of the centroids whose squared distance,
/// over all coordinates, is the least. The key beside it is that of the distance.
pub proof fn law_batch_assigns_to_the_first_nearest<A: Arithmetic>(
    coordinate: spec_fn(A::Value) -> Option<int>,
    square: spec_fn(A::Value) -> Option<int>,
    limit: int,
    data: Seq<A::Value>,
    norms: Seq<A::Value>,
    k: usize,
    dim: usize,
    centroids: Seq<A::Value>,
    columns: Seq<A::Value>,
    centroid_norms: Seq<A::Value>,
    assigned: Seq<usize>,
    keys: Seq<i64>,
)
    requires
        0 <= limit,
        measures_exactly::<A>(coordinate, square, limit, distance_bound(dim as int, limit)),
        has_one_key_for_one_square::<A>(square),
        k > 0,
        norms.len() <= usize::MAX,
        data.len() == norms.len() * dim,
        k * dim <= centroids.len(),
        are_numbers_within(coordinate, data, limit),
        are_rows_within(coordinate, centroids, k as int, dim as int, limit),
        are_norms::<A>(data, norms.len() as int, dim as int, norms),
        is_viewed::<A>(centroids, k as int, dim as int, columns, centroid_norms),
        is_batch_assigned::<A>(data, norms, dim, columns, centroid_norms, assigned, keys),
    ensures
        assigned.len() == norms.len(),
        forall|r: int|
            #![trigger assigned[r]]
            0 <= r < norms.len() ==> assigned[r] < k && forall|c: int|
                #![trigger row(centroids, c, dim as int)]
                0 <= c < k ==> gap_number(
                    coordinate,
                    row(data, r, dim as int),
                    row(centroids, assigned[r] as int, dim as int),
                    dim as int,
                ) <= gap_number(
                    coordinate,
                    row(data, r, dim as int),
                    row(centroids, c, dim as int),
                    dim as int,
                ) && (c < assigned[r] ==> gap_number(
                    coordinate,
                    row(data, r, dim as int),
                    row(centroids, assigned[r] as int, dim as int),
                    dim as int,
                ) < gap_number(
                    coordinate,
                    row(data, r, dim as int),
                    row(centroids, c, dim as int),
                    dim as int,
                )),
        forall|r: int|
            #![trigger keys[r]]
            0 <= r < norms.len() ==> keys[r] >= 0 && exists|distance: A::Value| #[trigger]
                call_ensures(A::key, (distance,), Some(keys[r])) && square(distance) == Some(
                    gap_number(
                        coordinate,
                        row(data, r, dim as int),
                        row(centroids, assigned[r] as int, dim as int),
                        dim as int,
                    ),
                ),
{
    let rows = norms.len() as usize;
    let p = choose|p: A::Products| #[trigger]
        is_product::<A>(rows, dim, k, data, columns, p) && are_rows_nearest::<A>(
            norms,
            centroid_norms,
            p,
            assigned,
            keys,
        );
    lemma_assigned_below::<A>(data, norms, dim, columns, centroid_norms, assigned, keys);
    assert forall|r: int| 0 <= r < rows implies is_settled::<A>(
        coordinate,
        square,
        data,
        k as int,
        dim as int,
        centroids,
        #[trigger] assigned[r] as int,
        keys[r],
        r,
    ) by {
        assert(is_row_nearest::<A>(norms[r], centroid_norms, p, r, assigned[r], keys[r]));
        let x = choose|x: Seq<Option<i64>>| #[trigger]
            are_distance_keys::<A>(norms[r], centroid_norms, p, r, x) && x.len()
                == centroid_norms.len() && is_nearest(x, assigned[r] as int, keys[r]);
        let point = row(data, r, dim as int);
        lemma_row_fits(r, rows as int, dim as int);
        assert(is_norm::<A>(point, norms[r]));
        assert forall|d: int| 0 <= d < point.len() implies coordinate(#[trigger] point[d]) is Some
            && -limit <= coordinate(point[d]).unwrap() <= limit by {
            assert(point[d] == data[r * dim + d]);
        }
        let own = assigned[r] as int;
        assert forall|c: int| 0 <= c < k implies is_key_of_square::<A>(
            square,
            #[trigger] x[c],
            gap_number(coordinate, point, row(centroids, c, dim as int), dim as int),
        ) && 0 <= gap_number(coordinate, point, row(centroids, c, dim as int), dim as int)
            <= distance_bound(dim as int, limit) by {
            lemma_key_is_exact::<A>(
                coordinate,
                square,
                limit,
                rows,
                dim,
                k,
                data,
                centroids,
                columns,
                p,
                r,
                c,
                norms[r],
                centroid_norms[c],
                x[c],
            );
        }
        assert(is_key_of_square::<A>(
            square,
            x[own],
            gap_number(coordinate, point, row(centroids, own, dim as int), dim as int),
        ));
        assert(x[own] is Some && x[own].unwrap() < i64::MAX);
        assert(keys[r] < i64::MAX);
        assert(x[own] == Some(keys[r]));
        let a = gap_number(coordinate, point, row(centroids, own, dim as int), dim as int);
        let v = choose|v: A::Value| #[trigger]
            call_ensures(A::key, (v,), x[own]) && square(v) == Some(a);
        assert forall|c: int| 0 <= c < k implies a <= gap_number(
            coordinate,
            point,
            #[trigger] row(centroids, c, dim as int),
            dim as int,
        ) && (c < own ==> a < gap_number(
            coordinate,
            point,
            row(centroids, c, dim as int),
            dim as int,
        )) by {
            let b = gap_number(coordinate, point, row(centroids, c, dim as int), dim as int);
            assert(is_key_of_square::<A>(square, x[c], b));
            let w = choose|w: A::Value| #[trigger]
                call_ensures(A::key, (w,), x[c]) && square(w) == Some(b);
            assert(x[c] is Some);
            if b < a {
                assert(x[c].unwrap() < x[own].unwrap());
            }
            if c < own && a == b {
                assert(x[c] == x[own]);
            }
        }
        assert(call_ensures(A::key, (v,), Some(keys[r])));
    }
    assert forall|r: int|
        #![trigger keys[r]]
        0 <= r < norms.len() implies keys[r] >= 0 && exists|distance: A::Value| #[trigger]
        call_ensures(A::key, (distance,), Some(keys[r])) && square(distance) == Some(
            gap_number(
                coordinate,
                row(data, r, dim as int),
                row(centroids, assigned[r] as int, dim as int),
                dim as int,
            ),
        ) by {
        assert(is_settled::<A>(
            coordinate,
            square,
            data,
            k as int,
            dim as int,
            centroids,
            assigned[r] as int,
            keys[r],
            r,
        ));
    }
}

/// What is proved of one row.
spec fn is_settled<A: Arithmetic>(
    coordinate: spec_fn(A::Value) -> Option<int>,
    square: spec_fn(A::Value) -> Option<int>,
    data: Seq<A::Value>,
    k: int,
    dim: int,
    centroids: Seq<A::Value>,
    own: int,
    key: i64,
    r: int,
) -> bool {
    &&& forall|c: int|
        #![trigger row(centroids, c, dim)]
        0 <= c < k ==> gap_number(
            coordinate,
            row(data, r, dim),
            row(centroids, own, dim),
            dim,
        ) <= gap_number(coordinate, row(data, r, dim), row(centroids, c, dim), dim) && (c < own
            ==> gap_number(coordinate, row(data, r, dim), row(centroids, own, dim), dim)
            < gap_number(coordinate, row(data, r, dim), row(centroids, c, dim), dim))
    &&& key >= 0
    &&& exists|distance: A::Value| #[trigger]
        call_ensures(A::key, (distance,), Some(key)) && square(distance) == Some(
            gap_number(coordinate, row(data, r, dim), row(centroids, own, dim), dim),
        )
}

/// A full pass assigns every point to the first of the centroids whose squared distance,
/// over all coordinates, is the least.
pub proof fn law_pass_assigns_to_the_first_nearest<A: Arithmetic>(
    coordinate: spec_fn(A::Value) -> Option<int>,
    square: spec_fn(A::Value) -> Option<int>,
    limit: int,
    data: Seq<A::Value>,
    norms: Seq<A::Value>,
    k: usize,
    dim: usize,
    centroids: Seq<A::Value>,
    columns: Seq<A::Value>,
    centroid_norms: Seq<A::Value>,
    block: usize,
    assigned: Seq<usize>,
)
    requires
        0 <= limit,
        measures_exactly::<A>(coordinate, square, limit, distance_bound(dim as int, limit)),
        has_one_key_for_one_square::<A>(square),
        block > 0,
        k > 0,
        norms.len() <= usize::MAX,
        data.len() == norms.len() * dim,
        k * dim <= centroids.len(),
        are_numbers_within(coordinate, data, limit),
        are_rows_within(coordinate, centroids, k as int, dim as int, limit),
        are_norms::<A>(data, norms.len() as int, dim as int, norms),
        is_viewed::<A>(centroids, k as int, dim as int, columns, centroid_norms),
        is_assigned::<A>(data, norms, dim, columns, centroid_norms, block, assigned),
    ensures
        assigned.len() == norms.len(),
        forall|r: int|
            #![trigger assigned[r]]
            0 <= r < norms.len() ==> assigned[r] < k && forall|c: int|
                #![trigger row(centroids, c, dim as int)]
                0 <= c < k ==> gap_number(
                    coordinate,
                    row(data, r, dim as int),
                    row(centroids, assigned[r] as int, dim as int),
                    dim as int,
                ) <= gap_number(
                    coordinate,
                    row(data, r, dim as int),
                    row(centroids, c, dim as int),
                    dim as int,
                ) && (c < assigned[r] ==> gap_number(
                    coordinate,
                    row(data, r, dim as int),
                    row(centroids, assigned[r] as int, dim as int),
                    dim as int,
                ) < gap_number(
                    coordinate,
                    row(data, r, dim as int),
                    row(centroids, c, dim as int),
                    dim as int,
                )),
{
    let rows = norms.len() as int;
    lemma_chunks(rows, block as int);
    assert forall|r: int|
        #![trigger assigned[r]]
        0 <= r < rows implies assigned[r] < k && forall|c: int|
        #![trigger row(centroids, c, dim as int)]
        0 <= c < k ==> gap_number(
            coordinate,
            row(data, r, dim as int),
            row(centroids, assigned[r] as int, dim as int),
            dim as int,
        ) <= gap_number(
            coordinate,
            row(data, r, dim as int),
            row(centroids, c, dim as int),
            dim as int,
        ) && (c < assigned[r] ==> gap_number(
            coordinate,
            row(data, r, dim as int),
            row(centroids, assigned[r] as int, dim as int),
            dim as int,
        ) < gap_number(
            coordinate,
            row(data, r, dim as int),
            row(centroids, c, dim as int),
            dim as int,
        )) by {
        law_every_row_has_one_batch(rows, block as int, r);
        let i = choose|i: int|
            0 <= i < chunk_count(rows, block as int) && #[trigger] chunk_start(i, block as int)
                <= r < chunk_end(i, block as int, rows);
        let start = chunk_start(i, block as int);
        let end = chunk_end(i, block as int, rows);
        let part = chunk_data(data, i, block as int, rows, dim as int);
        let part_norms = chunk_items(norms, i, block as int, rows);
        let part_assigned = chunk_items(assigned, i, block as int, rows);
        lemma_product_monotone(0, start, dim as int);
        lemma_product_monotone(start, end, dim as int);
        lemma_product_monotone(end, rows, dim as int);
        assert((end - start) * dim == end * dim - start * dim) by (nonlinear_arith);
        assert(part.len() == part_norms.len() * dim);
        assert forall|j: int| 0 <= j < part.len() implies coordinate(#[trigger] part[j]) is Some
            && -limit <= coordinate(part[j]).unwrap() <= limit by {
            assert(part[j] == data[start * dim + j]);
        }
        assert forall|s: int| 0 <= s < part_norms.len() implies is_norm::<A>(
            row(part, s, dim as int),
            #[trigger] part_norms[s],
        ) by {
            lemma_row_in_batch(data, dim as int, rows, block as int, i, start + s);
            assert(is_norm::<A>(row(data, start + s, dim as int), norms[start + s]));
        }
        assert(is_batch_nearest::<A>(
            part,
            part_norms,
            dim,
            columns,
            centroid_norms,
            part_assigned,
        ));
        let keys = choose|keys: Seq<i64>| #[trigger]
            is_batch_assigned::<A>(
                part,
                part_norms,
                dim,
                columns,
                centroid_norms,
                part_assigned,
                keys,
            );
        law_batch_assigns_to_the_first_nearest::<A>(
            coordinate,
            square,
            limit,
            part,
            part_norms,
            k,
            dim,
            centroids,
            columns,
            centroid_norms,
            part_assigned,
            keys,
        );
        lemma_row_in_batch(data, dim as int, rows, block as int, i, r);
        assert(part_assigned[r - start] == assigned[r]);
    }
}

/// How a row of a batch finds its cluster, whatever the numbers: the squared distance to each
/// centroid is the two norms added, less twice the entry of the product, and counts as zero
/// where its key is below. The cluster is the first of those with the least key. Distances
/// without a key are passed over, and where none is below infinity the first cluster is
/// taken.
pub proof fn law_row_goes_to_the_first_least_key<A: Arithmetic>(
    norm: A::Value,
    centroid_norms: Seq<A::Value>,
    products: A::Products,
    r: int,
    cluster: usize,
    best: i64,
)
    requires
        is_row_nearest::<A>(norm, centroid_norms, products, r, cluster, best),
    ensures
        exists|keys: Seq<Option<i64>>| #[trigger]
            keys.len() == centroid_norms.len() && (forall|c: int|
                #![trigger keys[c]]
                0 <= c < keys.len() ==> (keys[c] is Some ==> keys[c].unwrap() >= 0) && exists|
                    dot: A::Value,
                    norms: A::Value,
                    two: A::Value,
                    twice: A::Value,
                    distance: A::Value,
                    raw: Option<i64>,
                | #[trigger]
                    call_ensures(
                        A::entry,
                        (&products, (r * centroid_norms.len() + c) as usize),
                        dot,
                    ) && #[trigger] call_ensures(A::plus, (norm, centroid_norms[c]), norms)
                        && #[trigger] call_ensures(A::two, (), two) && #[trigger] call_ensures(
                        A::times,
                        (two, dot),
                        twice,
                    ) && #[trigger] call_ensures(A::minus, (norms, twice), distance)
                        && #[trigger] call_ensures(A::key, (distance,), raw) && keys[c] == (
                    match raw {
                        Some(place) => Some(
                            if place < 0 {
                                0i64
                            } else {
                                place
                            },
                        ),
                        None => None,
                    })) && (forall|c: int|
                0 <= c < keys.len() && (#[trigger] keys[c]) is Some ==> best <= keys[c].unwrap())
                && (best < i64::MAX ==> 0 <= cluster < keys.len() && keys[cluster as int] == Some(
                best,
            ) && forall|c: int| 0 <= c < cluster ==> #[trigger] keys[c] != Some(best)) && (best
                == i64::MAX ==> cluster == 0),
{
    let keys = choose|keys: Seq<Option<i64>>| #[trigger]
        are_distance_keys::<A>(norm, centroid_norms, products, r, keys) && keys.len()
            == centroid_norms.len() && is_nearest(keys, cluster as int, best);
    assert forall|c: int|
        #![trigger keys[c]]
        0 <= c < keys.len() implies (keys[c] is Some ==> keys[c].unwrap() >= 0) && exists|
        dot: A::Value,
        norms: A::Value,
        two: A::Value,
        twice: A::Value,
        distance: A::Value,
        raw: Option<i64>,
    | #[trigger]
        call_ensures(A::entry, (&products, (r * centroid_norms.len() + c) as usize), dot)
            && #[trigger] call_ensures(A::plus, (norm, centroid_norms[c]), norms)
            && #[trigger] call_ensures(A::two, (), two) && #[trigger] call_ensures(
            A::times,
            (two, dot),
            twice,
        ) && #[trigger] call_ensures(A::minus, (norms, twice), distance)
            && #[trigger] call_ensures(A::key, (distance,), raw) && keys[c] == (match raw {
            Some(place) => Some(
                if place < 0 {
                    0i64
                } else {
                    place
                },
            ),
            None => None,
        }) by {
        let place = (r * centroid_norms.len() + c) as usize;
        assert(is_cell_key::<A>(norm, centroid_norms[c], products, place, keys[c]));
        let dot = choose|dot: A::Value| #[trigger]
            call_ensures(A::entry, (&products, place), dot) && is_distance_key::<A>(
                norm,
                centroid_norms[c],
                dot,
                keys[c],
            );
        assert(is_distance_key::<A>(norm, centroid_norms[c], dot, keys[c]));
    }
    assert(keys.len() == centroid_norms.len());
}

} // verus!
