//! Steps never worsen the training: the sum over the points of the squared distance to the
//! nearest centroid does not grow, as far as the arithmetic is exact.
//!
//! Coordinates and squares are read as whole numbers of some unit each: `coordinate` says
//! how many units of length a value stands for, `square` how many units of area.
use crate::arithmetic::{are_norms, are_squares, is_norm, is_sum, Arithmetic};
use crate::assignment::{
    are_distance_keys, are_rows_nearest, clamped, is_batch_assigned, is_cell_key,
    is_distance_key, is_nearest, is_product, is_row_nearest,
    lemma_assigned_below,
};
use crate::batch::{is_tally, member_values, occurrences};
use crate::batch_laws::{
    adds_exactly, are_numbers_within, is_entry, law_sums_are_exact, lemma_row_in_batch,
    lemma_member_values_within, lemma_number_sum_within, lemma_sum_is_exact, number_sum,
    stands_for,
};
use crate::centroids::{is_scaled, is_transposed};
use crate::determinism::is_deterministic;
use crate::laws::law_every_row_has_one_batch;
use crate::layout::{lemma_product_monotone, lemma_row_fits, row};
use crate::lloyd::{is_finished, is_lloyd_run, is_lloyd_step, is_viewed, Progress};
use crate::reproducibility::law_runs_are_reproducible;
use crate::step_laws::{law_runs_add_up, law_runs_can_be_parted};
use crate::sweep::{
    chunk_count, chunk_data, chunk_end, chunk_items, chunk_start, is_assigned, is_summarized,
    lemma_chunks, lemma_summarized, lemma_summarized_is_assigned, AssignmentSummary,
};
use crate::update::{
    are_moved, are_rows, empty_count, is_mean, is_moved, is_point, is_pool, is_updated,
    lemma_empty_clusters_are_points, reseeds,
};
use vstd::prelude::*;

verus! {

/// The sum of the products of the first `count` coordinates of two points.
pub open spec fn dot_number<V>(
    coordinate: spec_fn(V) -> Option<int>,
    a: Seq<V>,
    b: Seq<V>,
    count: int,
) -> int
    decreases count,
{
    if count <= 0 {
        0
    } else {
        dot_number(coordinate, a, b, count - 1) + coordinate(a[count - 1]).unwrap() * coordinate(
            b[count - 1],
        ).unwrap()
    }
}

/// The squared distance of two points in their first `count` coordinates.
pub open spec fn gap_number<V>(
    coordinate: spec_fn(V) -> Option<int>,
    a: Seq<V>,
    b: Seq<V>,
    count: int,
) -> int
    decreases count,
{
    if count <= 0 {
        0
    } else {
        let gap = coordinate(a[count - 1]).unwrap() - coordinate(b[count - 1]).unwrap();
        gap_number(coordinate, a, b, count - 1) + gap * gap
    }
}

/// The squared distance of a point to the nearest of the first `k` centroids.
pub open spec fn least_gap<V>(
    coordinate: spec_fn(V) -> Option<int>,
    point: Seq<V>,
    centroids: Seq<V>,
    k: int,
    dim: int,
) -> int
    decreases k,
{
    let last = gap_number(coordinate, point, row(centroids, k - 1, dim), dim);
    if k <= 1 {
        last
    } else {
        let earlier = least_gap(coordinate, point, centroids, k - 1, dim);
        if last < earlier {
            last
        } else {
            earlier
        }
    }
}

/// The cost of the centroids: the sum over the first `rows` points of the squared distance
/// to the nearest centroid.
pub open spec fn cost<V>(
    coordinate: spec_fn(V) -> Option<int>,
    data: Seq<V>,
    rows: int,
    centroids: Seq<V>,
    k: int,
    dim: int,
) -> int
    decreases rows,
{
    if rows <= 0 {
        0
    } else {
        cost(coordinate, data, rows - 1, centroids, k, dim) + least_gap(
            coordinate,
            row(data, rows - 1, dim),
            centroids,
            k,
            dim,
        )
    }
}

/// Column `c` of a matrix that is held row after row.
pub open spec fn column<T>(matrix: Seq<T>, rows: int, columns: int, c: int) -> Seq<T> {
    Seq::new(rows as nat, |d: int| matrix[d * columns + c])
}

/// A value stands for a whole number of at most `limit`, either way from zero.
pub open spec fn is_number_within<V>(
    coordinate: spec_fn(V) -> Option<int>,
    value: V,
    limit: int,
) -> bool {
    coordinate(value) is Some && -limit <= coordinate(value).unwrap() <= limit
}

/// Distances come out exactly, where the coordinates are within `limit` and no square
/// leaves `bound`, and their keys follow them.
pub open spec fn measures_exactly<A: Arithmetic>(
    coordinate: spec_fn(A::Value) -> Option<int>,
    square: spec_fn(A::Value) -> Option<int>,
    limit: int,
    bound: int,
) -> bool {
    &&& adds_exactly::<A>(square, bound)
    &&& forall|a: A::Value, b: A::Value, difference: A::Value| #[trigger]
        call_ensures(A::minus, (a, b), difference) && square(a) is Some && square(b) is Some
            && -bound <= square(a).unwrap() - square(b).unwrap() <= bound ==> stands_for(
            square,
            difference,
            square(a).unwrap() - square(b).unwrap(),
        )
    &&& forall|a: A::Value, b: A::Value, product: A::Value| #[trigger]
        call_ensures(A::times, (a, b), product) && is_number_within(coordinate, a, limit)
            && is_number_within(coordinate, b, limit) ==> stands_for(
            square,
            product,
            coordinate(a).unwrap() * coordinate(b).unwrap(),
        )
    &&& forall|two: A::Value, a: A::Value, twice: A::Value| #[trigger]
        call_ensures(A::two, (), two) && #[trigger] call_ensures(A::times, (two, a), twice)
            && square(a) is Some && -bound <= 2 * square(a).unwrap() <= bound ==> stands_for(
            square,
            twice,
            2 * square(a).unwrap(),
        )
    &&& forall|a: A::Value, key: Option<i64>| #[trigger]
        call_ensures(A::key, (a,), key) && square(a) is Some && 0 <= square(a).unwrap() <= bound
            ==> key is Some && 0 <= key.unwrap() < i64::MAX
    &&& forall|a: A::Value, b: A::Value, a_key: Option<i64>, b_key: Option<i64>| #[trigger]
        call_ensures(A::key, (a,), a_key) && #[trigger] call_ensures(A::key, (b,), b_key)
            && square(a) is Some && square(b) is Some && 0 <= square(a).unwrap() < square(
            b,
        ).unwrap() <= bound ==> a_key.unwrap() < b_key.unwrap()
    &&& forall|
        rows: usize,
        inner: usize,
        columns: usize,
        left: Seq<A::Value>,
        right: Seq<A::Value>,
        products: A::Products,
        r: int,
        c: int,
        entry: A::Value,
    | #[trigger]
        is_product::<A>(rows, inner, columns, left, right, products) && #[trigger] is_entry::<A>(
            products,
            columns as int,
            r,
            c,
            entry,
        ) && 0 <= r < rows && 0 <= c < columns && are_numbers_within(
            coordinate,
            row(left, r, inner as int),
            limit,
        ) && are_numbers_within(
            coordinate,
            column(right, inner as int, columns as int, c),
            limit,
        ) && inner * (limit * limit) <= bound ==> stands_for(
            square,
            entry,
            dot_number(
                coordinate,
                row(left, r, inner as int),
                column(right, inner as int, columns as int, c),
                inner as int,
            ),
        )
}

/// The largest number that arises where distances of points with coordinates within
/// `limit` are taken.
pub open spec fn distance_bound(dim: int, limit: int) -> int {
    4 * (dim * (limit * limit))
}

/// Distances of points of `dim` coordinates within `limit` are exact, and so are sums of as
/// many of their coordinates as there are rows.
pub open spec fn is_exact_on<A: Arithmetic>(
    coordinate: spec_fn(A::Value) -> Option<int>,
    square: spec_fn(A::Value) -> Option<int>,
    limit: int,
    rows: int,
    dim: int,
) -> bool {
    &&& 0 <= limit
    &&& measures_exactly::<A>(coordinate, square, limit, distance_bound(dim, limit))
    &&& adds_exactly::<A>(coordinate, rows * limit)
}

/// `value` is the exact quotient of the sum of some coordinates by their count.
pub open spec fn is_quotient<V>(
    coordinate: spec_fn(V) -> Option<int>,
    members: Seq<V>,
    value: V,
) -> bool {
    coordinate(value) is Some && coordinate(value).unwrap() * members.len() == number_sum(
        coordinate,
        members,
    )
}

/// The mean of each coordinate of each cluster that has points comes out exactly.
pub open spec fn has_exact_means<A: Arithmetic>(
    coordinate: spec_fn(A::Value) -> Option<int>,
    data: Seq<A::Value>,
    dim: int,
    assigned: Seq<usize>,
    k: int,
) -> bool {
    forall|
        c: int,
        d: int,
        sum: A::Value,
        divisor: A::Value,
        inverse: A::Value,
        mean: A::Value,
    |
        #![trigger
            member_values(data, dim, assigned, c, d),
            call_ensures(A::from_count, (occurrences(assigned, c) as usize,), divisor),
            call_ensures(A::reciprocal, (divisor,), inverse),
            call_ensures(A::times, (sum, inverse), mean)
        ]
        0 <= c < k && 0 <= d < dim && occurrences(assigned, c) > 0 && call_ensures(
            A::from_count,
            (occurrences(assigned, c) as usize,),
            divisor,
        ) && call_ensures(A::reciprocal, (divisor,), inverse) && call_ensures(
            A::times,
            (sum, inverse),
            mean,
        ) && stands_for(
            coordinate,
            sum,
            number_sum(coordinate, member_values(data, dim, assigned, c, d)),
        ) ==> is_quotient(coordinate, member_values(data, dim, assigned, c, d), mean)
}

/// The first `k` rows of a matrix are numbers within `limit`.
pub open spec fn are_rows_within<V>(
    coordinate: spec_fn(V) -> Option<int>,
    matrix: Seq<V>,
    k: int,
    dim: int,
    limit: int,
) -> bool {
    forall|c: int|
        0 <= c < k ==> are_numbers_within(coordinate, #[trigger] row(matrix, c, dim), limit)
}

pub(crate) proof fn lemma_dot_within<V>(
    coordinate: spec_fn(V) -> Option<int>,
    a: Seq<V>,
    b: Seq<V>,
    count: int,
    limit: int,
)
    requires
        0 <= limit,
        0 <= count <= a.len(),
        count <= b.len(),
        are_numbers_within(coordinate, a, limit),
        are_numbers_within(coordinate, b, limit),
    ensures
        -(count * (limit * limit)) <= dot_number(coordinate, a, b, count) <= count * (limit
            * limit),
    decreases count,
{
    if count > 0 {
        lemma_dot_within(coordinate, a, b, count - 1, limit);
        let x = coordinate(a[count - 1]).unwrap();
        let y = coordinate(b[count - 1]).unwrap();
        assert(-(limit * limit) <= x * y <= limit * limit) by (nonlinear_arith)
            requires
                -limit <= x <= limit,
                -limit <= y <= limit,
        ;
        assert(count * (limit * limit) == (count - 1) * (limit * limit) + limit * limit)
            by (nonlinear_arith);
    } else {
        assert(count * (limit * limit) == 0) by (nonlinear_arith)
            requires
                count == 0,
        ;
    }
}

/// The squared distance is the squared norms less twice the product.
pub(crate) proof fn lemma_gap_is_norms_less_product<V>(
    coordinate: spec_fn(V) -> Option<int>,
    a: Seq<V>,
    b: Seq<V>,
    count: int,
)
    requires
        0 <= count,
    ensures
        gap_number(coordinate, a, b, count) == dot_number(coordinate, a, a, count) + dot_number(
            coordinate,
            b,
            b,
            count,
        ) - 2 * dot_number(coordinate, a, b, count),
        gap_number(coordinate, a, b, count) >= 0,
    decreases count,
{
    if count > 0 {
        lemma_gap_is_norms_less_product(coordinate, a, b, count - 1);
        let x = coordinate(a[count - 1]).unwrap();
        let y = coordinate(b[count - 1]).unwrap();
        assert((x - y) * (x - y) == x * x + y * y - 2 * (x * y)) by (nonlinear_arith);
        assert((x - y) * (x - y) >= 0) by (nonlinear_arith);
    }
}

/// The norm of a point is exact.
pub(crate) proof fn lemma_norm_is_exact<A: Arithmetic>(
    coordinate: spec_fn(A::Value) -> Option<int>,
    square: spec_fn(A::Value) -> Option<int>,
    limit: int,
    bound: int,
    values: Seq<A::Value>,
    norm: A::Value,
)
    requires
        0 <= limit,
        measures_exactly::<A>(coordinate, square, limit, bound),
        values.len() * (limit * limit) <= bound,
        are_numbers_within(coordinate, values, limit),
        is_norm::<A>(values, norm),
    ensures
        stands_for(
            square,
            norm,
            dot_number(coordinate, values, values, values.len() as int),
        ),
{
    let squares = choose|squares: Seq<A::Value>| #[trigger]
        are_squares::<A>(values, squares) && is_sum::<A>(squares, norm);
    assert forall|i: int| 0 <= i < squares.len() implies stands_for(
        square,
        #[trigger] squares[i],
        coordinate(values[i]).unwrap() * coordinate(values[i]).unwrap(),
    ) by {
        assert(call_ensures(A::times, (values[i], values[i]), squares[i]));
    }
    assert forall|i: int| 0 <= i <= squares.len() implies number_sum(
        square,
        #[trigger] squares.take(i),
    ) == dot_number(coordinate, values, values, i) && -bound <= number_sum(
        square,
        squares.take(i),
    ) <= bound by {
        lemma_number_sum_of_squares(coordinate, square, values, squares, i);
        lemma_dot_within(coordinate, values, values, i, limit);
        assert(0 <= limit * limit) by (nonlinear_arith);
        lemma_product_monotone(i, values.len() as int, limit * limit);
    }
    assert(squares.take(squares.len() as int) =~= squares);
    lemma_sum_is_exact::<A>(square, bound, squares, norm);
}

proof fn lemma_number_sum_of_squares<V>(
    coordinate: spec_fn(V) -> Option<int>,
    square: spec_fn(V) -> Option<int>,
    values: Seq<V>,
    squares: Seq<V>,
    count: int,
)
    requires
        0 <= count <= squares.len(),
        squares.len() == values.len(),
        forall|i: int|
            0 <= i < squares.len() ==> stands_for(
                square,
                #[trigger] squares[i],
                coordinate(values[i]).unwrap() * coordinate(values[i]).unwrap(),
            ),
    ensures
        number_sum(square, squares.take(count)) == dot_number(coordinate, values, values, count),
    decreases count,
{
    if count > 0 {
        lemma_number_sum_of_squares(coordinate, square, values, squares, count - 1);
        assert(squares.take(count).drop_last() =~= squares.take(count - 1));
        assert(squares.take(count).last() == squares[count - 1]);
    }
}

/// `key` is the key of a value that stands for the square `n`.
pub(crate) open spec fn is_key_of_square<A: Arithmetic>(
    square: spec_fn(A::Value) -> Option<int>,
    key: Option<i64>,
    n: int,
) -> bool {
    exists|value: A::Value| #[trigger]
        call_ensures(A::key, (value,), key) && stands_for(square, value, n)
}

/// The key that a batch has for a point and a centroid is that of their squared distance.
pub(crate) proof fn lemma_key_is_exact<A: Arithmetic>(
    coordinate: spec_fn(A::Value) -> Option<int>,
    square: spec_fn(A::Value) -> Option<int>,
    limit: int,
    rows: usize,
    dim: usize,
    k: usize,
    batch: Seq<A::Value>,
    centroids: Seq<A::Value>,
    columns: Seq<A::Value>,
    products: A::Products,
    r: int,
    c: int,
    norm: A::Value,
    centroid_norm: A::Value,
    key: Option<i64>,
)
    requires
        0 <= limit,
        measures_exactly::<A>(coordinate, square, limit, distance_bound(dim as int, limit)),
        0 <= r < rows,
        0 <= c < k,
        batch.len() == rows * dim,
        k * dim <= centroids.len(),
        are_numbers_within(coordinate, row(batch, r, dim as int), limit),
        are_numbers_within(coordinate, row(centroids, c, dim as int), limit),
        is_norm::<A>(row(batch, r, dim as int), norm),
        is_norm::<A>(row(centroids, c, dim as int), centroid_norm),
        is_transposed(centroids, k as int, dim as int, columns),
        is_product::<A>(rows, dim, k, batch, columns, products),
        is_cell_key::<A>(norm, centroid_norm, products, (r * k + c) as usize, key),
    ensures
        ({
            let gap = gap_number(
                coordinate,
                row(batch, r, dim as int),
                row(centroids, c, dim as int),
                dim as int,
            );
            &&& is_key_of_square::<A>(square, key, gap)
            &&& 0 <= gap <= distance_bound(dim as int, limit)
        }),
{
    let bound = distance_bound(dim as int, limit);
    let point = row(batch, r, dim as int);
    let centroid = row(centroids, c, dim as int);
    let size = dim * (limit * limit);
    lemma_row_fits(r, rows as int, dim as int);
    lemma_row_fits(c, k as int, dim as int);
    assert(0 <= limit * limit) by (nonlinear_arith);
    lemma_product_monotone(0, dim as int, limit * limit);
    let of_columns = column(columns, dim as int, k as int, c);
    assert forall|d: int| 0 <= d < dim implies of_columns[d] == centroid[d] by {
        assert(columns[d * k + c] == centroids[c * dim + d]);
    }
    assert(of_columns =~= centroid);
    lemma_norm_is_exact::<A>(coordinate, square, limit, bound, point, norm);
    lemma_norm_is_exact::<A>(coordinate, square, limit, bound, centroid, centroid_norm);
    lemma_dot_within(coordinate, point, point, dim as int, limit);
    lemma_dot_within(coordinate, centroid, centroid, dim as int, limit);
    lemma_dot_within(coordinate, point, centroid, dim as int, limit);
    lemma_gap_is_norms_less_product(coordinate, point, centroid, dim as int);
    let place = (r * k + c) as usize;
    let dot = choose|dot: A::Value| #[trigger]
        call_ensures(A::entry, (&products, place), dot) && is_distance_key::<A>(
            norm,
            centroid_norm,
            dot,
            key,
        );
    assert(is_entry::<A>(products, k as int, r, c, dot));
    assert(stands_for(square, dot, dot_number(coordinate, point, centroid, dim as int)));
    let (norms, two, twice, distance, raw) = choose|
        norms: A::Value,
        two: A::Value,
        twice: A::Value,
        distance: A::Value,
        raw: Option<i64>,
    | #[trigger]
        call_ensures(A::plus, (norm, centroid_norm), norms) && #[trigger] call_ensures(
            A::two,
            (),
            two,
        ) && #[trigger] call_ensures(A::times, (two, dot), twice) && #[trigger] call_ensures(
            A::minus,
            (norms, twice),
            distance,
        ) && #[trigger] call_ensures(A::key, (distance,), raw) && key == clamped(raw);
    let gap = gap_number(coordinate, point, centroid, dim as int);
    assert(stands_for(
        square,
        norms,
        dot_number(coordinate, point, point, dim as int) + dot_number(
            coordinate,
            centroid,
            centroid,
            dim as int,
        ),
    ));
    assert(stands_for(
        square,
        twice,
        2 * dot_number(coordinate, point, centroid, dim as int),
    ));
    assert(stands_for(square, distance, gap));
    assert(key == raw);
}

/// No centroid is nearer to the point than centroid `own`.
spec fn is_nearest_gap<V>(
    coordinate: spec_fn(V) -> Option<int>,
    point: Seq<V>,
    centroids: Seq<V>,
    k: int,
    dim: int,
    own: int,
) -> bool {
    &&& 0 <= own < k
    &&& forall|c: int|
        0 <= c < k ==> gap_number(coordinate, point, row(centroids, own, dim), dim) <= gap_number(
            coordinate,
            point,
            #[trigger] row(centroids, c, dim),
            dim,
        )
}

/// Each point is assigned to a centroid at the least squared distance.
proof fn lemma_assigned_at_least_gap<A: Arithmetic>(
    coordinate: spec_fn(A::Value) -> Option<int>,
    square: spec_fn(A::Value) -> Option<int>,
    limit: int,
    data: Seq<A::Value>,
    norms: Seq<A::Value>,
    k: usize,
    dim: usize,
    centroids: Seq<A::Value>,
    columns: Seq<A::Value>,
    centroid_norms: Seq<A::Value>,
    block: usize,
    assigned: Seq<usize>,
)
    requires
        0 <= limit,
        measures_exactly::<A>(coordinate, square, limit, distance_bound(dim as int, limit)),
        block > 0,
        k > 0,
        data.len() == norms.len() * dim,
        norms.len() <= usize::MAX,
        k * dim <= centroids.len(),
        are_numbers_within(coordinate, data, limit),
        are_rows_within(coordinate, centroids, k as int, dim as int, limit),
        are_norms::<A>(data, norms.len() as int, dim as int, norms),
        is_viewed::<A>(centroids, k as int, dim as int, columns, centroid_norms),
        is_assigned::<A>(data, norms, dim, columns, centroid_norms, block, assigned),
    ensures
        forall|r: int|
            0 <= r < norms.len() ==> is_nearest_gap(
                coordinate,
                row(data, r, dim as int),
                centroids,
                k as int,
                dim as int,
                #[trigger] assigned[r] as int,
            ),
{
    let rows = norms.len() as int;
    lemma_chunks(rows, block as int);
    assert forall|r: int| 0 <= r < rows implies is_nearest_gap(
        coordinate,
        row(data, r, dim as int),
        centroids,
        k as int,
        dim as int,
        #[trigger] assigned[r] as int,
    ) by {
        law_every_row_has_one_batch(rows, block as int, r);
        let i = choose|i: int|
            0 <= i < chunk_count(rows, block as int) && #[trigger] chunk_start(i, block as int)
                <= r < chunk_end(i, block as int, rows);
        lemma_row_in_batch(data, dim as int, rows, block as int, i, r);
        let start = chunk_start(i, block as int);
        let end = chunk_end(i, block as int, rows);
        let part = chunk_data(data, i, block as int, rows, dim as int);
        let part_norms = chunk_items(norms, i, block as int, rows);
        let part_assigned = chunk_items(assigned, i, block as int, rows);
        assert(part.len() == part_norms.len() * dim) by {
            lemma_product_monotone(0, start, dim as int);
            lemma_product_monotone(start, end, dim as int);
            lemma_product_monotone(end, rows, dim as int);
            assert((end - start) * dim == end * dim - start * dim) by (nonlinear_arith);
        }
        let keys = choose|keys: Seq<i64>| #[trigger]
            is_batch_assigned::<A>(
                part,
                part_norms,
                dim,
                columns,
                centroid_norms,
                part_assigned,
                keys,
            );
        lemma_assigned_below::<A>(
            part,
            part_norms,
            dim,
            columns,
            centroid_norms,
            part_assigned,
            keys,
        );
        let p = choose|p: A::Products| #[trigger]
            is_product::<A>(part_norms.len() as usize, dim, k, part, columns, p)
                && are_rows_nearest::<A>(part_norms, centroid_norms, p, part_assigned, keys);
        let s = r - start;
        assert(is_row_nearest::<A>(
            part_norms[s],
            centroid_norms,
            p,
            s,
            part_assigned[s],
            keys[s],
        ));
        let x = choose|x: Seq<Option<i64>>| #[trigger]
            are_distance_keys::<A>(part_norms[s], centroid_norms, p, s, x) && x.len()
                == centroid_norms.len() && is_nearest(x, part_assigned[s] as int, keys[s]);
        assert(part_norms[s] == norms[r]);
        assert(part_assigned[s] == assigned[r]);
        let point = row(data, r, dim as int);
        assert(is_norm::<A>(point, norms[r]));
        lemma_row_fits(r, rows, dim as int);
        assert forall|d: int| 0 <= d < point.len() implies coordinate(#[trigger] point[d]) is Some
            && -limit <= coordinate(point[d]).unwrap() <= limit by {
            assert(point[d] == data[r * dim + d]);
        }
        let own = assigned[r] as int;
        assert forall|c: int| 0 <= c < k implies gap_number(
            coordinate,
            point,
            row(centroids, own, dim as int),
            dim as int,
        ) <= gap_number(
            coordinate,
            point,
            #[trigger] row(centroids, c, dim as int),
            dim as int,
        ) by {
            lemma_key_is_exact::<A>(
                coordinate,
                square,
                limit,
                part_norms.len() as usize,
                dim,
                k,
                part,
                centroids,
                columns,
                p,
                s,
                c,
                norms[r],
                centroid_norms[c],
                x[c],
            );
            lemma_key_is_exact::<A>(
                coordinate,
                square,
                limit,
                part_norms.len() as usize,
                dim,
                k,
                part,
                centroids,
                columns,
                p,
                s,
                own,
                norms[r],
                centroid_norms[own],
                x[own],
            );
            let a = gap_number(
                coordinate,
                point,
                row(centroids, own, dim as int),
                dim as int,
            );
            let b = gap_number(coordinate, point, row(centroids, c, dim as int), dim as int);
            let v = choose|v: A::Value| #[trigger]
                call_ensures(A::key, (v,), x[own]) && stands_for(square, v, a);
            let w = choose|w: A::Value| #[trigger]
                call_ensures(A::key, (w,), x[c]) && stands_for(square, w, b);
            assert(x[c] is Some && x[c].unwrap() < i64::MAX);
            assert(keys[s] < i64::MAX);
            assert(x[own] == Some(keys[s]));
            if b < a {
                assert(x[c].unwrap() < x[own].unwrap());
            }
        }
    }
}

/// The least squared distance is that to one of the centroids, and none is below it.
proof fn lemma_least_gap<V>(
    coordinate: spec_fn(V) -> Option<int>,
    point: Seq<V>,
    centroids: Seq<V>,
    k: int,
    dim: int,
)
    requires
        k > 0,
    ensures
        exists|c: int|
            0 <= c < k && least_gap(coordinate, point, centroids, k, dim) == gap_number(
                coordinate,
                point,
                #[trigger] row(centroids, c, dim),
                dim,
            ),
        forall|c: int|
            0 <= c < k ==> least_gap(coordinate, point, centroids, k, dim) <= gap_number(
                coordinate,
                point,
                #[trigger] row(centroids, c, dim),
                dim,
            ),
    decreases k,
{
    let last = row(centroids, k - 1, dim);
    if k > 1 {
        lemma_least_gap(coordinate, point, centroids, k - 1, dim);
    }
}

/// The sum over the points of the squared distance to the centroid that each is assigned
/// to.
spec fn assigned_cost<V>(
    coordinate: spec_fn(V) -> Option<int>,
    data: Seq<V>,
    dim: int,
    centroids: Seq<V>,
    assigned: Seq<usize>,
) -> int
    decreases assigned.len(),
{
    if assigned.len() == 0 {
        0
    } else {
        assigned_cost(coordinate, data, dim, centroids, assigned.drop_last()) + gap_number(
            coordinate,
            row(data, assigned.len() - 1, dim),
            row(centroids, assigned.last() as int, dim),
            dim,
        )
    }
}

/// No assignment costs less than that of each point to its nearest centroid, and that
/// costs as much as the centroids do.
proof fn lemma_cost_of_assignment<V>(
    coordinate: spec_fn(V) -> Option<int>,
    data: Seq<V>,
    k: int,
    dim: int,
    centroids: Seq<V>,
    assigned: Seq<usize>,
)
    requires
        k > 0,
        forall|r: int| 0 <= r < assigned.len() ==> #[trigger] assigned[r] < k,
    ensures
        cost(coordinate, data, assigned.len() as int, centroids, k, dim) <= assigned_cost(
            coordinate,
            data,
            dim,
            centroids,
            assigned,
        ),
        (forall|r: int|
            0 <= r < assigned.len() ==> is_nearest_gap(
                coordinate,
                row(data, r, dim),
                centroids,
                k,
                dim,
                #[trigger] assigned[r] as int,
            )) ==> cost(coordinate, data, assigned.len() as int, centroids, k, dim)
            == assigned_cost(coordinate, data, dim, centroids, assigned),
    decreases assigned.len(),
{
    if assigned.len() > 0 {
        let fewer = assigned.drop_last();
        assert forall|r: int| 0 <= r < fewer.len() implies #[trigger] fewer[r] < k by {
            assert(fewer[r] == assigned[r]);
        }
        lemma_cost_of_assignment(coordinate, data, k, dim, centroids, fewer);
        let n = assigned.len() - 1;
        let point = row(data, n, dim);
        let own = assigned[n] as int;
        lemma_least_gap(coordinate, point, centroids, k, dim);
        assert(least_gap(coordinate, point, centroids, k, dim) <= gap_number(
            coordinate,
            point,
            row(centroids, own, dim),
            dim,
        ));
        if forall|r: int|
            0 <= r < assigned.len() ==> is_nearest_gap(
                coordinate,
                row(data, r, dim),
                centroids,
                k,
                dim,
                #[trigger] assigned[r] as int,
            ) {
            assert forall|r: int| 0 <= r < fewer.len() implies is_nearest_gap(
                coordinate,
                row(data, r, dim),
                centroids,
                k,
                dim,
                #[trigger] fewer[r] as int,
            ) by {
                assert(fewer[r] == assigned[r]);
            }
            assert(is_nearest_gap(coordinate, point, centroids, k, dim, own));
        }
    }
}

/// The part of the cost that the points of one cluster have to a place.
spec fn cluster_cost<V>(
    coordinate: spec_fn(V) -> Option<int>,
    data: Seq<V>,
    dim: int,
    assigned: Seq<usize>,
    c: int,
    place: Seq<V>,
) -> int
    decreases assigned.len(),
{
    if assigned.len() == 0 {
        0
    } else {
        let earlier = cluster_cost(coordinate, data, dim, assigned.drop_last(), c, place);
        if assigned.last() == c {
            earlier + gap_number(coordinate, row(data, assigned.len() - 1, dim), place, dim)
        } else {
            earlier
        }
    }
}

/// The parts of the first `k` clusters.
spec fn clusters_cost<V>(
    coordinate: spec_fn(V) -> Option<int>,
    data: Seq<V>,
    dim: int,
    assigned: Seq<usize>,
    centroids: Seq<V>,
    k: int,
) -> int
    decreases k,
{
    if k <= 0 {
        0
    } else {
        clusters_cost(coordinate, data, dim, assigned, centroids, k - 1) + cluster_cost(
            coordinate,
            data,
            dim,
            assigned,
            k - 1,
            row(centroids, k - 1, dim),
        )
    }
}

proof fn lemma_clusters_cost_grows<V>(
    coordinate: spec_fn(V) -> Option<int>,
    data: Seq<V>,
    dim: int,
    assigned: Seq<usize>,
    centroids: Seq<V>,
    k: int,
)
    requires
        assigned.len() > 0,
        0 <= k,
    ensures
        clusters_cost(coordinate, data, dim, assigned, centroids, k) == clusters_cost(
            coordinate,
            data,
            dim,
            assigned.drop_last(),
            centroids,
            k,
        ) + if assigned.last() < k {
            gap_number(
                coordinate,
                row(data, assigned.len() - 1, dim),
                row(centroids, assigned.last() as int, dim),
                dim,
            )
        } else {
            0
        },
    decreases k,
{
    if k > 0 {
        lemma_clusters_cost_grows(coordinate, data, dim, assigned, centroids, k - 1);
    }
}

/// The cost of an assignment is that of its clusters.
proof fn lemma_cost_by_clusters<V>(
    coordinate: spec_fn(V) -> Option<int>,
    data: Seq<V>,
    dim: int,
    assigned: Seq<usize>,
    centroids: Seq<V>,
    k: int,
)
    requires
        0 <= k,
        forall|r: int| 0 <= r < assigned.len() ==> #[trigger] assigned[r] < k,
    ensures
        assigned_cost(coordinate, data, dim, centroids, assigned) == clusters_cost(
            coordinate,
            data,
            dim,
            assigned,
            centroids,
            k,
        ),
    decreases assigned.len(),
{
    if assigned.len() == 0 {
        lemma_no_points_no_cost(coordinate, data, dim, assigned, centroids, k);
    } else {
        let fewer = assigned.drop_last();
        assert forall|r: int| 0 <= r < fewer.len() implies #[trigger] fewer[r] < k by {
            assert(fewer[r] == assigned[r]);
        }
        assert(assigned.last() == assigned[assigned.len() - 1]);
        lemma_cost_by_clusters(coordinate, data, dim, fewer, centroids, k);
        lemma_clusters_cost_grows(coordinate, data, dim, assigned, centroids, k);
    }
}

proof fn lemma_no_points_no_cost<V>(
    coordinate: spec_fn(V) -> Option<int>,
    data: Seq<V>,
    dim: int,
    assigned: Seq<usize>,
    centroids: Seq<V>,
    k: int,
)
    requires
        assigned.len() == 0,
    ensures
        clusters_cost(coordinate, data, dim, assigned, centroids, k) == 0,
    decreases k,
{
    if k > 0 {
        lemma_no_points_no_cost(coordinate, data, dim, assigned, centroids, k - 1);
    }
}

/// The sum of the squared differences of some coordinates to a number.
spec fn spread<V>(coordinate: spec_fn(V) -> Option<int>, values: Seq<V>, n: int) -> int
    decreases values.len(),
{
    if values.len() == 0 {
        0
    } else {
        let gap = coordinate(values.last()).unwrap() - n;
        spread(coordinate, values.drop_last(), n) + gap * gap
    }
}

/// The spread about one number and that about another.
proof fn lemma_spreads_differ<V>(
    coordinate: spec_fn(V) -> Option<int>,
    values: Seq<V>,
    m: int,
    n: int,
)
    ensures
        spread(coordinate, values, n) - spread(coordinate, values, m) == (n - m) * (values.len()
            * (n + m) - 2 * number_sum(coordinate, values)),
    decreases values.len(),
{
    if values.len() > 0 {
        let fewer = values.drop_last();
        lemma_spreads_differ(coordinate, fewer, m, n);
        let x = coordinate(values.last()).unwrap();
        let sum = number_sum(coordinate, fewer);
        let count = fewer.len() as int;
        assert((x - n) * (x - n) - (x - m) * (x - m) == (n - m) * (n + m - 2 * x))
            by (nonlinear_arith);
        assert((n - m) * (count * (n + m) - 2 * sum) + (n - m) * (n + m - 2 * x) == (n - m) * ((
        count + 1) * (n + m) - 2 * (sum + x))) by (nonlinear_arith);
    } else {
        assert((n - m) * (0 * (n + m) - 2 * 0) == 0) by (nonlinear_arith);
    }
}

/// The spread is the least about the mean.
proof fn lemma_mean_has_least_spread<V>(
    coordinate: spec_fn(V) -> Option<int>,
    values: Seq<V>,
    mean: int,
    n: int,
)
    requires
        mean * values.len() == number_sum(coordinate, values),
    ensures
        spread(coordinate, values, mean) <= spread(coordinate, values, n),
{
    lemma_spreads_differ(coordinate, values, mean, n);
    let count = values.len() as int;
    assert((n - mean) * (count * (n + mean) - 2 * (mean * count)) == count * ((n - mean) * (n
        - mean))) by (nonlinear_arith);
    assert(0 <= count * ((n - mean) * (n - mean))) by (nonlinear_arith)
        requires
            0 <= count,
    ;
}

/// The part of the cost of a cluster in the first `count` coordinates.
spec fn coordinates_cost<V>(
    coordinate: spec_fn(V) -> Option<int>,
    data: Seq<V>,
    dim: int,
    assigned: Seq<usize>,
    c: int,
    place: Seq<V>,
    count: int,
) -> int
    decreases count,
{
    if count <= 0 {
        0
    } else {
        coordinates_cost(coordinate, data, dim, assigned, c, place, count - 1) + spread(
            coordinate,
            member_values(data, dim, assigned, c, count - 1),
            coordinate(place[count - 1]).unwrap(),
        )
    }
}

proof fn lemma_coordinates_cost_grows<V>(
    coordinate: spec_fn(V) -> Option<int>,
    data: Seq<V>,
    dim: int,
    assigned: Seq<usize>,
    c: int,
    place: Seq<V>,
    count: int,
)
    requires
        assigned.len() > 0,
        assigned.len() * dim <= data.len(),
        0 <= count <= dim,
    ensures
        coordinates_cost(coordinate, data, dim, assigned, c, place, count) == coordinates_cost(
            coordinate,
            data,
            dim,
            assigned.drop_last(),
            c,
            place,
            count,
        ) + if assigned.last() == c {
            gap_number(coordinate, row(data, assigned.len() - 1, dim), place, count)
        } else {
            0
        },
    decreases count,
{
    if count > 0 {
        lemma_coordinates_cost_grows(coordinate, data, dim, assigned, c, place, count - 1);
        let d = count - 1;
        let n = assigned.len() - 1;
        let members = member_values(data, dim, assigned, c, d);
        let earlier = member_values(data, dim, assigned.drop_last(), c, d);
        lemma_row_fits(n, assigned.len() as int, dim);
        assert(row(data, n, dim)[d] == data[n * dim + d]);
        if assigned.last() == c {
            assert(members.drop_last() =~= earlier);
            assert(members.last() == data[n * dim + d]);
        }
    }
}

/// The cost of a cluster is that of its coordinates.
proof fn lemma_cost_by_coordinates<V>(
    coordinate: spec_fn(V) -> Option<int>,
    data: Seq<V>,
    dim: int,
    assigned: Seq<usize>,
    c: int,
    place: Seq<V>,
)
    requires
        assigned.len() * dim <= data.len(),
        0 <= dim,
    ensures
        cluster_cost(coordinate, data, dim, assigned, c, place) == coordinates_cost(
            coordinate,
            data,
            dim,
            assigned,
            c,
            place,
            dim,
        ),
    decreases assigned.len(),
{
    if assigned.len() == 0 {
        lemma_no_coordinates_cost(coordinate, data, dim, assigned, c, place, dim);
    } else {
        lemma_product_monotone(assigned.len() - 1, assigned.len() as int, dim);
        lemma_cost_by_coordinates(coordinate, data, dim, assigned.drop_last(), c, place);
        lemma_coordinates_cost_grows(coordinate, data, dim, assigned, c, place, dim);
    }
}

proof fn lemma_no_coordinates_cost<V>(
    coordinate: spec_fn(V) -> Option<int>,
    data: Seq<V>,
    dim: int,
    assigned: Seq<usize>,
    c: int,
    place: Seq<V>,
    count: int,
)
    requires
        assigned.len() == 0,
    ensures
        coordinates_cost(coordinate, data, dim, assigned, c, place, count) == 0,
    decreases count,
{
    if count > 0 {
        lemma_no_coordinates_cost(coordinate, data, dim, assigned, c, place, count - 1);
    }
}

/// A place that is the mean of a cluster costs no more than any other.
proof fn lemma_mean_costs_least<V>(
    coordinate: spec_fn(V) -> Option<int>,
    data: Seq<V>,
    dim: int,
    assigned: Seq<usize>,
    c: int,
    mean: Seq<V>,
    place: Seq<V>,
    count: int,
)
    requires
        0 <= count <= dim,
        forall|d: int|
            0 <= d < dim ==> is_quotient(
                coordinate,
                member_values(data, dim, assigned, c, d),
                #[trigger] mean[d],
            ) || member_values(data, dim, assigned, c, d).len() == 0,
    ensures
        coordinates_cost(coordinate, data, dim, assigned, c, mean, count) <= coordinates_cost(
            coordinate,
            data,
            dim,
            assigned,
            c,
            place,
            count,
        ),
    decreases count,
{
    if count > 0 {
        lemma_mean_costs_least(coordinate, data, dim, assigned, c, mean, place, count - 1);
        let d = count - 1;
        let members = member_values(data, dim, assigned, c, d);
        assert(is_quotient(coordinate, members, mean[d]) || members.len() == 0);
        if members.len() > 0 {
            lemma_mean_has_least_spread(
                coordinate,
                members,
                coordinate(mean[d]).unwrap(),
                coordinate(place[d]).unwrap(),
            );
        }
    }
}

/// Where each centroid is the mean of its cluster, an assignment costs no more than it does
/// with any other centroids.
proof fn lemma_means_cost_least<V>(
    coordinate: spec_fn(V) -> Option<int>,
    data: Seq<V>,
    dim: int,
    assigned: Seq<usize>,
    means: Seq<V>,
    centroids: Seq<V>,
    k: int,
)
    requires
        0 <= dim,
        assigned.len() * dim <= data.len(),
        forall|c: int, d: int|
            0 <= c < k && 0 <= d < dim ==> is_quotient(
                coordinate,
                #[trigger] member_values(data, dim, assigned, c, d),
                row(means, c, dim)[d],
            ) || member_values(data, dim, assigned, c, d).len() == 0,
    ensures
        clusters_cost(coordinate, data, dim, assigned, means, k) <= clusters_cost(
            coordinate,
            data,
            dim,
            assigned,
            centroids,
            k,
        ),
    decreases k,
{
    if k > 0 {
        lemma_means_cost_least(coordinate, data, dim, assigned, means, centroids, k - 1);
        let mean = row(means, k - 1, dim);
        let place = row(centroids, k - 1, dim);
        assert forall|d: int| 0 <= d < dim implies is_quotient(
            coordinate,
            member_values(data, dim, assigned, k - 1, d),
            #[trigger] mean[d],
        ) || member_values(data, dim, assigned, k - 1, d).len() == 0 by {}
        lemma_mean_costs_least(coordinate, data, dim, assigned, k - 1, mean, place, dim);
        lemma_cost_by_coordinates(coordinate, data, dim, assigned, k - 1, mean);
        lemma_cost_by_coordinates(coordinate, data, dim, assigned, k - 1, place);
    }
}

/// As many coordinates of a cluster as it has points.
proof fn lemma_member_count<V>(data: Seq<V>, dim: int, assigned: Seq<usize>, c: int, d: int)
    requires
        0 <= c <= usize::MAX,
    ensures
        member_values(data, dim, assigned, c, d).len() == occurrences(assigned, c),
    decreases assigned.len(),
{
    broadcast use vstd::seq_lib::group_to_multiset_ensures;

    if assigned.len() == 0 {
        assert(!assigned.contains(c as usize));
    } else {
        let fewer = assigned.drop_last();
        lemma_member_count(data, dim, fewer, c, d);
        assert(fewer.push(assigned.last()) =~= assigned);
        assert(assigned.to_multiset() =~= fewer.to_multiset().insert(assigned.last()));
    }
}

/// The quotient of numbers within a limit is within it.
proof fn lemma_quotient_within<V>(
    coordinate: spec_fn(V) -> Option<int>,
    members: Seq<V>,
    value: V,
    limit: int,
)
    requires
        members.len() > 0,
        are_numbers_within(coordinate, members, limit),
        is_quotient(coordinate, members, value),
    ensures
        is_number_within(coordinate, value, limit),
{
    lemma_number_sum_within(coordinate, members, limit);
    let count = members.len() as int;
    let n = coordinate(value).unwrap();
    assert(-limit <= n <= limit) by (nonlinear_arith)
        requires
            count > 0,
            -(count * limit) <= n * count <= count * limit,
    ;
}

/// A step never worsens the cost: after it the points are no farther from their nearest
/// centroids, in sum of squares, than before it. Empty clusters that are reseeded are no
/// exception. That holds as far as distances, sums and means are exact, and where the
/// centroids are not scaled.
pub proof fn law_step_never_worsens_the_cost<A: Arithmetic>(
    coordinate: spec_fn(A::Value) -> Option<int>,
    square: spec_fn(A::Value) -> Option<int>,
    limit: int,
    data: Seq<A::Value>,
    norms: Seq<A::Value>,
    k: int,
    dim: usize,
    block: usize,
    before: Progress<A::Value>,
    after: Progress<A::Value>,
)
    requires
        is_exact_on::<A>(coordinate, square, limit, norms.len() as int, dim as int),
        has_exact_means::<A>(
            coordinate,
            data,
            dim as int,
            after.assigned.take(norms.len() as int),
            k,
        ),
        are_numbers_within(coordinate, data, limit),
        are_rows_within(coordinate, before.centroids, k, dim as int, limit),
        0 < k <= usize::MAX,
        dim > 0,
        block > 0,
        norms.len() <= usize::MAX,
        data.len() == norms.len() * dim,
        k * dim <= before.centroids.len(),
        are_norms::<A>(data, norms.len() as int, dim as int, norms),
        is_lloyd_step::<A>(data, norms, k, dim, false, block, before, after),
    ensures
        cost(coordinate, data, norms.len() as int, after.centroids, k, dim as int) <= cost(
            coordinate,
            data,
            norms.len() as int,
            before.centroids,
            k,
            dim as int,
        ),
        are_rows_within(coordinate, after.centroids, k, dim as int, limit),
        after.centroids.len() == before.centroids.len(),
{
    let rows = norms.len() as int;
    let width = dim as int;
    let assigned = after.assigned.take(rows);
    let (columns, centroid_norms, summary, moved) = choose|
        columns: Seq<A::Value>,
        centroid_norms: Seq<A::Value>,
        summary: AssignmentSummary<A::Value>,
        moved: Seq<A::Value>,
    | #[trigger]
        is_viewed::<A>(before.centroids, k, dim as int, columns, centroid_norms)
            && #[trigger] is_summarized::<A>(
            data,
            norms,
            dim,
            columns,
            centroid_norms,
            block,
            assigned,
            summary,
        ) && #[trigger] is_updated::<A>(
            data,
            dim as int,
            summary,
            k,
            before.centroids,
            before.generator,
            moved,
            after.generator,
        ) && is_finished::<A>(moved, k, dim as int, false, after.centroids);
    lemma_summarized::<A>(
        data,
        norms,
        dim,
        columns,
        centroid_norms,
        block,
        assigned,
        summary,
    );
    lemma_summarized_is_assigned::<A>(
        data,
        norms,
        dim,
        columns,
        centroid_norms,
        block,
        assigned,
        summary,
    );
    lemma_assigned_at_least_gap::<A>(
        coordinate,
        square,
        limit,
        data,
        norms,
        k as usize,
        dim,
        before.centroids,
        columns,
        centroid_norms,
        block,
        assigned,
    );
    law_sums_are_exact::<A>(
        coordinate,
        limit,
        data,
        norms,
        dim,
        columns,
        centroid_norms,
        block,
        assigned,
        summary,
    );
    let counts = summary.counts@;
    let sums = summary.sums@;
    assert(is_tally(assigned, counts) && counts.len() == k && sums.len() == k * dim);
    let pool = choose|pool: Seq<usize>| #[trigger]
        is_pool(summary.candidates@, pool) && ({
            let (replacements, rest) = reseeds(
                counts.take(k),
                pool,
                (data.len() as int / width) as usize,
                before.generator,
            );
            are_moved::<A>(
                data,
                width,
                counts,
                sums,
                replacements,
                k,
                before.centroids,
                moved,
            ) && after.generator == rest && are_rows(
                replacements,
                data.len() as int / width,
                empty_count(counts.take(k)),
            )
        });
    let replacements = reseeds(
        counts.take(k),
        pool,
        (data.len() as int / width) as usize,
        before.generator,
    ).0;
    lemma_empty_clusters_are_points::<A>(
        data,
        width,
        counts,
        sums,
        replacements,
        k,
        before.centroids,
        moved,
    );
    assert forall|c: int, d: int| 0 <= c < k && 0 <= d < width implies (is_quotient(
        coordinate,
        #[trigger] member_values(data, width, assigned, c, d),
        row(moved, c, width)[d],
    ) || member_values(data, width, assigned, c, d).len() == 0) && is_number_within(
        coordinate,
        row(moved, c, width)[d],
        limit,
    ) by {
        let members = member_values(data, width, assigned, c, d);
        let centroid = row(moved, c, width);
        lemma_member_count(data, width, assigned, c, d);
        assert(counts[c] == occurrences(assigned, c));
        lemma_row_fits(c, k, width);
        if counts[c] > 0 {
            assert(is_moved::<A>(data, width, counts, sums, replacements, c, centroid));
            let own = row(sums, c, width);
            assert(is_mean::<A>(own, counts[c], centroid));
            let (divisor, inverse) = choose|divisor: A::Value, inverse: A::Value| #[trigger]
                call_ensures(A::from_count, (counts[c],), divisor) && #[trigger] call_ensures(
                    A::reciprocal,
                    (divisor,),
                    inverse,
                ) && is_scaled::<A>(own, inverse, centroid);
            assert(occurrences(assigned, c) as usize == counts[c]);
            assert(own[d] == sums[c * dim + d]);
            assert(call_ensures(A::times, (own[d], inverse), centroid[d]));
            assert(is_quotient(coordinate, members, centroid[d]));
            lemma_member_values_within(coordinate, limit, data, width, assigned, c, d);
            lemma_quotient_within(coordinate, members, centroid[d], limit);
        } else {
            assert(is_point(data, width, centroid));
            let source = choose|source: int|
                0 <= source < data.len() as int / width && centroid == #[trigger] row(
                    data,
                    source,
                    width,
                );
            assert(data.len() as int / width == rows) by {
                vstd::arithmetic::div_mod::lemma_div_multiples_vanish(rows, width);
                assert(rows * width == width * rows) by (nonlinear_arith);
            }
            lemma_row_fits(source, rows, width);
            assert(centroid[d] == data[source * width + d]);
        }
    }
    assert forall|c: int| 0 <= c < k implies are_numbers_within(
        coordinate,
        #[trigger] row(moved, c, width),
        limit,
    ) by {
        lemma_row_fits(c, k, width);
        assert forall|d: int| 0 <= d < row(moved, c, width).len() implies coordinate(
            #[trigger] row(moved, c, width)[d],
        ) is Some && -limit <= coordinate(row(moved, c, width)[d]).unwrap() <= limit by {
            let members = member_values(data, width, assigned, c, d);
            assert(is_number_within(coordinate, row(moved, c, width)[d], limit));
        }
    }
    lemma_cost_of_assignment(coordinate, data, k, width, before.centroids, assigned);
    lemma_cost_of_assignment(coordinate, data, k, width, moved, assigned);
    lemma_cost_by_clusters(coordinate, data, width, assigned, before.centroids, k);
    lemma_cost_by_clusters(coordinate, data, width, assigned, moved, k);
    lemma_means_cost_least(coordinate, data, width, assigned, moved, before.centroids, k);
}

/// The means come out exactly in each of the steps of a run.
pub open spec fn has_exact_means_throughout<A: Arithmetic>(
    coordinate: spec_fn(A::Value) -> Option<int>,
    data: Seq<A::Value>,
    norms: Seq<A::Value>,
    k: int,
    dim: usize,
    block: usize,
    steps: nat,
    before: Progress<A::Value>,
) -> bool {
    forall|done: nat, x: Progress<A::Value>, y: Progress<A::Value>|
        done < steps && #[trigger] is_lloyd_run::<A>(
            data,
            norms,
            k,
            dim,
            false,
            block,
            done,
            before,
            x,
        ) && #[trigger] is_lloyd_step::<A>(data, norms, k, dim, false, block, x, y)
            ==> has_exact_means::<A>(
            coordinate,
            data,
            dim as int,
            y.assigned.take(norms.len() as int),
            k,
        )
}

/// Nor does a run of any number of steps worsen the cost.
pub proof fn law_run_never_worsens_the_cost<A: Arithmetic>(
    coordinate: spec_fn(A::Value) -> Option<int>,
    square: spec_fn(A::Value) -> Option<int>,
    limit: int,
    data: Seq<A::Value>,
    norms: Seq<A::Value>,
    k: int,
    dim: usize,
    block: usize,
    steps: nat,
    before: Progress<A::Value>,
    after: Progress<A::Value>,
)
    requires
        is_exact_on::<A>(coordinate, square, limit, norms.len() as int, dim as int),
        has_exact_means_throughout::<A>(
            coordinate,
            data,
            norms,
            k,
            dim,
            block,
            steps,
            before,
        ),
        are_numbers_within(coordinate, data, limit),
        are_rows_within(coordinate, before.centroids, k, dim as int, limit),
        0 < k <= usize::MAX,
        dim > 0,
        block > 0,
        norms.len() <= usize::MAX,
        data.len() == norms.len() * dim,
        k * dim <= before.centroids.len(),
        are_norms::<A>(data, norms.len() as int, dim as int, norms),
        is_lloyd_run::<A>(data, norms, k, dim, false, block, steps, before, after),
    ensures
        cost(coordinate, data, norms.len() as int, after.centroids, k, dim as int) <= cost(
            coordinate,
            data,
            norms.len() as int,
            before.centroids,
            k,
            dim as int,
        ),
        are_rows_within(coordinate, after.centroids, k, dim as int, limit),
        after.centroids.len() == before.centroids.len(),
    decreases steps,
{
    if steps > 0 {
        let fewer = (steps - 1) as nat;
        let between = choose|between: Progress<A::Value>|
            is_lloyd_run::<A>(data, norms, k, dim, false, block, fewer, before, between)
                && #[trigger] is_lloyd_step::<A>(
                data,
                norms,
                k,
                dim,
                false,
                block,
                between,
                after,
            );
        law_run_never_worsens_the_cost::<A>(
            coordinate,
            square,
            limit,
            data,
            norms,
            k,
            dim,
            block,
            fewer,
            before,
            between,
        );
        law_step_never_worsens_the_cost::<A>(
            coordinate,
            square,
            limit,
            data,
            norms,
            k,
            dim,
            block,
            between,
            after,
        );
    }
}

/// The more steps, the lower the cost, or it stays: of two runs from one state the longer
/// one leaves centroids that cost no more.
pub proof fn law_more_steps_never_worsen_the_cost<A: Arithmetic>(
    coordinate: spec_fn(A::Value) -> Option<int>,
    square: spec_fn(A::Value) -> Option<int>,
    limit: int,
    data: Seq<A::Value>,
    norms: Seq<A::Value>,
    k: int,
    dim: usize,
    block: usize,
    few: nat,
    many: nat,
    before: Progress<A::Value>,
    after_few: Progress<A::Value>,
    after_many: Progress<A::Value>,
)
    requires
        is_deterministic::<A>(),
        is_exact_on::<A>(coordinate, square, limit, norms.len() as int, dim as int),
        has_exact_means_throughout::<A>(
            coordinate,
            data,
            norms,
            k,
            dim,
            block,
            many,
            before,
        ),
        are_numbers_within(coordinate, data, limit),
        are_rows_within(coordinate, before.centroids, k, dim as int, limit),
        0 < k <= usize::MAX,
        dim > 0,
        block > 0,
        norms.len() <= usize::MAX,
        norms.len() <= before.assigned.len(),
        data.len() == norms.len() * dim,
        k * dim <= before.centroids.len(),
        are_norms::<A>(data, norms.len() as int, dim as int, norms),
        few <= many,
        is_lloyd_run::<A>(data, norms, k, dim, false, block, few, before, after_few),
        is_lloyd_run::<A>(data, norms, k, dim, false, block, many, before, after_many),
    ensures
        cost(coordinate, data, norms.len() as int, after_many.centroids, k, dim as int) <= cost(
            coordinate,
            data,
            norms.len() as int,
            after_few.centroids,
            k,
            dim as int,
        ),
{
    let rest = (many - few) as nat;
    law_runs_can_be_parted::<A>(
        data,
        norms,
        k,
        dim,
        false,
        block,
        few,
        rest,
        before,
        after_many,
    );
    let between = choose|between: Progress<A::Value>| #[trigger]
        is_lloyd_run::<A>(data, norms, k, dim, false, block, few, before, between)
            && is_lloyd_run::<A>(
            data,
            norms,
            k,
            dim,
            false,
            block,
            rest,
            between,
            after_many,
        );
    law_runs_are_reproducible::<A>(
        data,
        norms,
        k,
        dim,
        false,
        block,
        few,
        before,
        between,
        after_few,
    );
    assert(has_exact_means_throughout::<A>(
        coordinate,
        data,
        norms,
        k,
        dim,
        block,
        few,
        before,
    ));
    law_run_never_worsens_the_cost::<A>(
        coordinate,
        square,
        limit,
        data,
        norms,
        k,
        dim,
        block,
        few,
        before,
        after_few,
    );
    assert forall|done: nat, x: Progress<A::Value>, y: Progress<A::Value>|
        done < rest && #[trigger] is_lloyd_run::<A>(
            data,
            norms,
            k,
            dim,
            false,
            block,
            done,
            after_few,
            x,
        ) && #[trigger] is_lloyd_step::<A>(
            data,
            norms,
            k,
            dim,
            false,
            block,
            x,
            y,
        ) implies has_exact_means::<A>(
        coordinate,
        data,
        dim as int,
        y.assigned.take(norms.len() as int),
        k,
    ) by {
        law_runs_add_up::<A>(
            data,
            norms,
            k,
            dim,
            false,
            block,
            few,
            done,
            before,
            after_few,
            x,
        );
    }
    law_run_never_worsens_the_cost::<A>(
        coordinate,
        square,
        limit,
        data,
        norms,
        k,
        dim,
        block,
        rest,
        after_few,
        after_many,
    );
}

/// The least squared distance is that to one of the centroids, and none is nearer.
pub proof fn law_least_gap_is_the_least<V>(
    coordinate: spec_fn(V) -> Option<int>,
    point: Seq<V>,
    centroids: Seq<V>,
    k: int,
    dim: int,
)
    requires
        k > 0,
    ensures
        exists|c: int|
            0 <= c < k && least_gap(coordinate, point, centroids, k, dim) == gap_number(
                coordinate,
                point,
                #[trigger] row(centroids, c, dim),
                dim,
            ),
        forall|c: int|
            0 <= c < k ==> least_gap(coordinate, point, centroids, k, dim) <= gap_number(
                coordinate,
                point,
                #[trigger] row(centroids, c, dim),
                dim,
            ),
{
    lemma_least_gap(coordinate, point, centroids, k, dim);
}

/// The cost is over all points: no points cost nothing, and one more point adds the squared
/// distance to the centroid nearest to it.
pub proof fn law_cost_is_over_all_points<V>(
    coordinate: spec_fn(V) -> Option<int>,
    data: Seq<V>,
    rows: int,
    centroids: Seq<V>,
    k: int,
    dim: int,
)
    requires
        0 <= rows,
    ensures
        cost(coordinate, data, 0, centroids, k, dim) == 0,
        cost(coordinate, data, rows + 1, centroids, k, dim) == cost(
            coordinate,
            data,
            rows,
            centroids,
            k,
            dim,
        ) + least_gap(coordinate, row(data, rows, dim), centroids, k, dim),
{
}

} // verus!
