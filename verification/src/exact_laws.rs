//! What the operations come to in numbers, where the arithmetic is exact on those that
//! arise.
//!
//! As in [`crate::descent`], `coordinate` says how many units of length a value stands for,
//! `square` how many units of area, and `total` how many units of area a total stands for.
use crate::arithmetic::{
    are_gap_squares, are_point_distances, is_gap_square, is_norm, is_objective,
    is_squared_distance, is_total_sum, Arithmetic,
};
use crate::batch_laws::{are_numbers_within, number_sum};
use crate::descent::{
    dot_number, gap_number, is_number_within, lemma_norm_is_exact, measures_exactly,
};
use crate::layout::{lemma_product_monotone, lemma_row_fits, row};
use vstd::prelude::*;

verus! {

/// The sum of `term(0)`, `term(1)` and so on, `count` of them.
pub open spec fn sum_over(count: int, term: spec_fn(int) -> int) -> int
    decreases count,
{
    if count <= 0 {
        0
    } else {
        sum_over(count - 1, term) + term(count - 1)
    }
}

/// A sum of no terms is zero, and one more term adds that term.
pub proof fn law_sum_adds_every_term(count: int, term: spec_fn(int) -> int)
    requires
        0 <= count,
    ensures
        sum_over(0, term) == 0,
        sum_over(count + 1, term) == sum_over(count, term) + term(count),
{
}

/// Equal terms have equal sums.
pub(crate) proof fn lemma_same_terms(count: int, a: spec_fn(int) -> int, b: spec_fn(int) -> int)
    requires
        forall|i: int| 0 <= i < count ==> #[trigger] a(i) == b(i),
    ensures
        sum_over(count, a) == sum_over(count, b),
    decreases count,
{
    if count > 0 {
        lemma_same_terms(count - 1, a, b);
    }
}

/// A sum of terms that are not negative is not negative, no term is above it, and it is
/// zero only where they all are.
pub(crate) proof fn lemma_sum_of_positive(count: int, term: spec_fn(int) -> int)
    requires
        forall|i: int| 0 <= i < count ==> #[trigger] term(i) >= 0,
    ensures
        sum_over(count, term) >= 0,
        forall|i: int| 0 <= i < count ==> #[trigger] term(i) <= sum_over(count, term),
        (forall|i: int| 0 <= i < count ==> #[trigger] term(i) == 0) ==> sum_over(count, term) == 0,
    decreases count,
{
    if count > 0 {
        lemma_sum_of_positive(count - 1, term);
    }
}

/// A sum of terms within a bound is within as many times the bound.
proof fn lemma_sum_within(count: int, term: spec_fn(int) -> int, bound: int)
    requires
        0 <= count,
        forall|i: int| 0 <= i < count ==> 0 <= #[trigger] term(i) <= bound,
    ensures
        0 <= sum_over(count, term) <= count * bound,
    decreases count,
{
    if count > 0 {
        lemma_sum_within(count - 1, term, bound);
        assert(count * bound == (count - 1) * bound + bound) by (nonlinear_arith);
    } else {
        assert(count * bound == 0) by (nonlinear_arith)
            requires
                count == 0,
        ;
    }
}

/// The squared difference of two values.
pub open spec fn squared_gap<V>(coordinate: spec_fn(V) -> Option<int>, a: V, b: V) -> int {
    (coordinate(a).unwrap() - coordinate(b).unwrap()) * (coordinate(a).unwrap() - coordinate(
        b,
    ).unwrap())
}

/// The squared difference of two values is the square of what one is above the other.
pub proof fn law_squared_gap<V>(
    coordinate: spec_fn(V) -> Option<int>,
    a: V,
    b: V,
    m: int,
    n: int,
)
    requires
        coordinate(a) == Some(m),
        coordinate(b) == Some(n),
    ensures
        squared_gap(coordinate, a, b) == (m - n) * (m - n),
        squared_gap(coordinate, a, b) >= 0,
        squared_gap(coordinate, a, b) == 0 <==> m == n,
{
    assert((m - n) * (m - n) >= 0) by (nonlinear_arith);
    assert((m - n) * (m - n) == 0 <==> m == n) by (nonlinear_arith);
}

/// The squared distance of two points is the sum of the squared differences of all their
/// coordinates.
pub proof fn law_gap_is_over_all_coordinates<V>(
    coordinate: spec_fn(V) -> Option<int>,
    a: Seq<V>,
    b: Seq<V>,
    count: int,
    term: spec_fn(int) -> int,
)
    requires
        forall|d: int|
            0 <= d < count ==> #[trigger] term(d) == squared_gap(coordinate, a[d], b[d]),
    ensures
        gap_number(coordinate, a, b, count) == sum_over(count, term),
        gap_number(coordinate, a, b, count) >= 0,
    decreases count,
{
    if count > 0 {
        law_gap_is_over_all_coordinates(coordinate, a, b, count - 1, term);
        let gap = coordinate(a[count - 1]).unwrap() - coordinate(b[count - 1]).unwrap();
        assert(gap * gap >= 0) by (nonlinear_arith);
        assert(term(count - 1) == gap * gap);
    }
}

/// The product of two points is the sum of the products of all their coordinates.
pub proof fn law_dot_is_over_all_coordinates<V>(
    coordinate: spec_fn(V) -> Option<int>,
    a: Seq<V>,
    b: Seq<V>,
    count: int,
    term: spec_fn(int) -> int,
)
    requires
        forall|d: int|
            0 <= d < count ==> #[trigger] term(d) == coordinate(a[d]).unwrap() * coordinate(
                b[d],
            ).unwrap(),
    ensures
        dot_number(coordinate, a, b, count) == sum_over(count, term),
    decreases count,
{
    if count > 0 {
        law_dot_is_over_all_coordinates(coordinate, a, b, count - 1, term);
        assert(term(count - 1) == coordinate(a[count - 1]).unwrap() * coordinate(
            b[count - 1],
        ).unwrap());
    }
}

/// The sum of the numbers of some values is over all of them.
pub proof fn law_number_sum_is_over_all_values<V>(
    number: spec_fn(V) -> Option<int>,
    values: Seq<V>,
    term: spec_fn(int) -> int,
)
    requires
        forall|i: int|
            0 <= i < values.len() ==> #[trigger] term(i) == number(values[i]).unwrap(),
    ensures
        number_sum(number, values) == sum_over(values.len() as int, term),
    decreases values.len(),
{
    if values.len() > 0 {
        let fewer = values.drop_last();
        assert forall|i: int| 0 <= i < fewer.len() implies #[trigger] term(i) == number(
            fewer[i],
        ).unwrap() by {
            assert(fewer[i] == values[i]);
        }
        law_number_sum_is_over_all_values(number, fewer, term);
        assert(term(values.len() - 1) == number(values[values.len() - 1]).unwrap());
    }
}

/// The squared norm of a point is the sum of the squares of all its coordinates.
pub proof fn law_norm_is_the_sum_of_squares<A: Arithmetic>(
    coordinate: spec_fn(A::Value) -> Option<int>,
    square: spec_fn(A::Value) -> Option<int>,
    limit: int,
    bound: int,
    values: Seq<A::Value>,
    norm: A::Value,
)
    requires
        0 <= limit,
        measures_exactly::<A>(coordinate, square, limit, bound),
        values.len() * (limit * limit) <= bound,
        are_numbers_within(coordinate, values, limit),
        is_norm::<A>(values, norm),
    ensures
        square(norm) == Some(
            sum_over(
                values.len() as int,
                |d: int| coordinate(values[d]).unwrap() * coordinate(values[d]).unwrap(),
            ),
        ),
{
    lemma_norm_is_exact::<A>(coordinate, square, limit, bound, values, norm);
    law_dot_is_over_all_coordinates(
        coordinate,
        values,
        values,
        values.len() as int,
        |d: int| coordinate(values[d]).unwrap() * coordinate(values[d]).unwrap(),
    );
}

/// Squared differences of coordinates within `limit` come out exactly in totals, and so do
/// their sums up to `bound`.
pub open spec fn totals_exactly<A: Arithmetic>(
    coordinate: spec_fn(A::Value) -> Option<int>,
    total: spec_fn(A::Total) -> Option<int>,
    limit: int,
    bound: int,
) -> bool {
    &&& forall|zero: A::Total| #[trigger]
        call_ensures(A::total_zero, (), zero) ==> total(zero) == Some(0int)
    &&& forall|a: A::Total, b: A::Total, sum: A::Total| #[trigger]
        call_ensures(A::total_plus, (a, b), sum) && total(a) is Some && total(b) is Some && 0
            <= total(a).unwrap() + total(b).unwrap() <= bound ==> total(sum) == Some(
            total(a).unwrap() + total(b).unwrap(),
        )
    &&& forall|a: A::Value, b: A::Value, gap: A::Value, wide: A::Total, product: A::Total|
        #[trigger]
        call_ensures(A::minus, (a, b), gap) && #[trigger] call_ensures(A::widen, (gap,), wide)
            && #[trigger] call_ensures(A::total_times, (wide, wide), product) && is_number_within(
            coordinate,
            a,
            limit,
        ) && is_number_within(coordinate, b, limit) ==> total(product) == Some(
            (coordinate(a).unwrap() - coordinate(b).unwrap()) * (coordinate(a).unwrap()
                - coordinate(b).unwrap()),
        )
}

/// A sum of exact totals is exact.
proof fn lemma_total_sum_is_exact<A: Arithmetic>(
    coordinate: spec_fn(A::Value) -> Option<int>,
    total: spec_fn(A::Total) -> Option<int>,
    limit: int,
    bound: int,
    terms: Seq<A::Total>,
    sum: A::Total,
    number: spec_fn(int) -> int,
)
    requires
        totals_exactly::<A>(coordinate, total, limit, bound),
        is_total_sum::<A>(terms, sum),
        forall|i: int|
            0 <= i < terms.len() ==> total(#[trigger] terms[i]) == Some(number(i)) && number(i)
                >= 0,
        sum_over(terms.len() as int, number) <= bound,
    ensures
        total(sum) == Some(sum_over(terms.len() as int, number)),
    decreases terms.len(),
{
    if terms.len() > 0 {
        let fewer = terms.drop_last();
        let before = choose|before: A::Total|
            is_total_sum::<A>(fewer, before) && #[trigger] call_ensures(
                A::total_plus,
                (before, terms.last()),
                sum,
            );
        assert(total(terms[terms.len() - 1]) == Some(number(terms.len() - 1)));
        assert forall|i: int| 0 <= i < fewer.len() implies total(#[trigger] fewer[i]) == Some(
            number(i),
        ) && number(i) >= 0 by {
            assert(fewer[i] == terms[i]);
        }
        assert forall|i: int| 0 <= i < fewer.len() implies #[trigger] number(i) >= 0 by {
            assert(fewer[i] == terms[i]);
        }
        lemma_sum_of_positive(fewer.len() as int, number);
        lemma_total_sum_is_exact::<A>(coordinate, total, limit, bound, fewer, before, number);
    }
}

/// The largest squared distance of two points with coordinates within `limit`.
pub open spec fn gap_bound(dim: int, limit: int) -> int {
    dim * (4 * (limit * limit))
}

/// The squared distance of two points is the sum, over all their coordinates, of the
/// squared differences. It is zero only where they are equal in every coordinate.
pub proof fn law_squared_distance_is_over_all_coordinates<A: Arithmetic>(
    coordinate: spec_fn(A::Value) -> Option<int>,
    total: spec_fn(A::Total) -> Option<int>,
    limit: int,
    bound: int,
    a: Seq<A::Value>,
    b: Seq<A::Value>,
    distance: A::Total,
)
    requires
        0 <= limit,
        totals_exactly::<A>(coordinate, total, limit, bound),
        gap_bound(a.len() as int, limit) <= bound,
        a.len() == b.len(),
        are_numbers_within(coordinate, a, limit),
        are_numbers_within(coordinate, b, limit),
        is_squared_distance::<A>(a, b, distance),
    ensures
        total(distance) == Some(
            sum_over(
                a.len() as int,
                |d: int|
                    (coordinate(a[d]).unwrap() - coordinate(b[d]).unwrap()) * (coordinate(
                        a[d],
                    ).unwrap() - coordinate(b[d]).unwrap()),
            ),
        ),
        0 <= total(distance).unwrap() <= gap_bound(a.len() as int, limit),
        total(distance) == Some(0int) <==> forall|d: int|
            0 <= d < a.len() ==> coordinate(#[trigger] a[d]) == coordinate(b[d]),
{
    let number = |d: int|
        (coordinate(a[d]).unwrap() - coordinate(b[d]).unwrap()) * (coordinate(a[d]).unwrap()
            - coordinate(b[d]).unwrap());
    let squares = choose|squares: Seq<A::Total>| #[trigger]
        are_gap_squares::<A>(a, b, squares) && is_total_sum::<A>(squares, distance);
    assert forall|d: int| 0 <= d < a.len() implies 0 <= #[trigger] number(d) <= 4 * (limit * limit)
        && (number(d) == 0 <==> coordinate(a[d]) == coordinate(b[d])) by {
        let x = coordinate(a[d]).unwrap();
        let y = coordinate(b[d]).unwrap();
        assert(0 <= (x - y) * (x - y) <= 4 * (limit * limit)) by (nonlinear_arith)
            requires
                -limit <= x <= limit,
                -limit <= y <= limit,
        ;
        assert((x - y) * (x - y) == 0 <==> x == y) by (nonlinear_arith);
    }
    assert forall|d: int| 0 <= d < squares.len() implies total(#[trigger] squares[d]) == Some(
        number(d),
    ) && number(d) >= 0 by {
        assert(is_gap_square::<A>(a[d], b[d], squares[d]));
        assert(is_number_within(coordinate, a[d], limit));
        assert(is_number_within(coordinate, b[d], limit));
    }
    lemma_sum_within(a.len() as int, number, 4 * (limit * limit));
    lemma_total_sum_is_exact::<A>(coordinate, total, limit, bound, squares, distance, number);
    lemma_sum_of_positive(a.len() as int, number);
    if sum_over(a.len() as int, number) == 0 {
        assert forall|d: int| 0 <= d < a.len() implies coordinate(#[trigger] a[d]) == coordinate(
            b[d],
        ) by {
            assert(number(d) == 0);
        }
    }
    if forall|d: int| 0 <= d < a.len() ==> coordinate(#[trigger] a[d]) == coordinate(b[d]) {
        assert forall|d: int| 0 <= d < a.len() implies #[trigger] number(d) == 0 by {
            assert(coordinate(a[d]) == coordinate(b[d]));
        }
    }
}

/// The objective is the sum, over all points and all their coordinates, of the squared
/// differences to the centroid that the point is assigned to. It is zero only where every
/// point equals its centroid in every coordinate.
pub proof fn law_objective_is_over_all_points_and_coordinates<A: Arithmetic>(
    coordinate: spec_fn(A::Value) -> Option<int>,
    total: spec_fn(A::Total) -> Option<int>,
    limit: int,
    data: Seq<A::Value>,
    centroids: Seq<A::Value>,
    assigned: Seq<usize>,
    rows: int,
    dim: int,
    objective: A::Total,
)
    requires
        0 <= limit,
        0 <= rows,
        0 <= dim,
        totals_exactly::<A>(coordinate, total, limit, rows * gap_bound(dim, limit)),
        rows * dim <= data.len(),
        are_numbers_within(coordinate, data, limit),
        are_numbers_within(coordinate, centroids, limit),
        forall|r: int|
            0 <= r < rows ==> (#[trigger] assigned[r]) * dim + dim <= centroids.len(),
        is_objective::<A>(data, centroids, assigned, rows, dim, objective),
    ensures
        total(objective) == Some(
            sum_over(
                rows,
                |r: int|
                    sum_over(
                        dim,
                        |d: int|
                            (coordinate(data[r * dim + d]).unwrap() - coordinate(
                                centroids[assigned[r] * dim + d],
                            ).unwrap()) * (coordinate(data[r * dim + d]).unwrap() - coordinate(
                                centroids[assigned[r] * dim + d],
                            ).unwrap()),
                    ),
            ),
        ),
        total(objective) == Some(0int) <==> forall|r: int, d: int|
            0 <= r < rows && 0 <= d < dim ==> coordinate(#[trigger] data[r * dim + d])
                == coordinate(centroids[assigned[r] * dim + d]),
{
    let term = |r: int|
        sum_over(
            dim,
            |d: int|
                (coordinate(data[r * dim + d]).unwrap() - coordinate(
                    centroids[assigned[r] * dim + d],
                ).unwrap()) * (coordinate(data[r * dim + d]).unwrap() - coordinate(
                    centroids[assigned[r] * dim + d],
                ).unwrap()),
        );
    let bound = rows * gap_bound(dim, limit);
    let distances = choose|distances: Seq<A::Total>| #[trigger]
        are_point_distances::<A>(data, centroids, assigned, rows, dim, distances)
            && is_total_sum::<A>(distances, objective);
    assert forall|r: int| 0 <= r < rows implies total(#[trigger] distances[r]) == Some(term(r))
        && 0 <= term(r) <= gap_bound(dim, limit) && (term(r) == 0 <==> forall|d: int|
        0 <= d < dim ==> coordinate(#[trigger] data[r * dim + d]) == coordinate(
            centroids[assigned[r] * dim + d],
        )) by {
        let point = row(data, r, dim);
        let own = row(centroids, assigned[r] as int, dim);
        lemma_row_fits(r, rows, dim);
        assert(0 <= assigned[r] * dim) by (nonlinear_arith)
            requires
                0 <= dim,
        ;
        assert(assigned[r] * dim + dim <= centroids.len());
        assert forall|d: int| 0 <= d < dim implies #[trigger] point[d] == data[r * dim + d]
            && own[d] == centroids[assigned[r] * dim + d] by {}
        assert forall|d: int| 0 <= d < point.len() implies coordinate(#[trigger] point[d]) is Some
            && -limit <= coordinate(point[d]).unwrap() <= limit by {
            assert(point[d] == data[r * dim + d]);
        }
        assert forall|d: int| 0 <= d < own.len() implies coordinate(#[trigger] own[d]) is Some
            && -limit <= coordinate(own[d]).unwrap() <= limit by {
            assert(own[d] == centroids[assigned[r] * dim + d]);
        }
        assert(is_squared_distance::<A>(point, own, distances[r]));
        assert(0 <= 4 * (limit * limit)) by (nonlinear_arith);
        lemma_product_monotone(0, dim, 4 * (limit * limit));
        lemma_product_monotone(1, rows, gap_bound(dim, limit));
        law_squared_distance_is_over_all_coordinates::<A>(
            coordinate,
            total,
            limit,
            bound,
            point,
            own,
            distances[r],
        );
        lemma_same_terms(
            dim,
            |d: int|
                (coordinate(point[d]).unwrap() - coordinate(own[d]).unwrap()) * (coordinate(
                    point[d],
                ).unwrap() - coordinate(own[d]).unwrap()),
            |d: int|
                (coordinate(data[r * dim + d]).unwrap() - coordinate(
                    centroids[assigned[r] * dim + d],
                ).unwrap()) * (coordinate(data[r * dim + d]).unwrap() - coordinate(
                    centroids[assigned[r] * dim + d],
                ).unwrap()),
        );
        if forall|d: int|
            0 <= d < dim ==> coordinate(#[trigger] data[r * dim + d]) == coordinate(
                centroids[assigned[r] * dim + d],
            ) {
            assert forall|d: int| 0 <= d < dim implies coordinate(#[trigger] point[d])
                == coordinate(own[d]) by {
                assert(coordinate(data[r * dim + d]) == coordinate(
                    centroids[assigned[r] * dim + d],
                ));
            }
        }
        if term(r) == 0 {
            assert forall|d: int| 0 <= d < dim implies coordinate(#[trigger] data[r * dim + d])
                == coordinate(centroids[assigned[r] * dim + d]) by {
                assert(coordinate(point[d]) == coordinate(own[d]));
            }
        }
    }
    assert forall|r: int| 0 <= r < rows implies 0 <= #[trigger] term(r) <= gap_bound(
        dim,
        limit,
    ) by {
        assert(total(distances[r]) == Some(term(r)));
    }
    lemma_sum_within(rows, term, gap_bound(dim, limit));
    lemma_total_sum_is_exact::<A>(coordinate, total, limit, bound, distances, objective, term);
    lemma_sum_of_positive(rows, term);
    if sum_over(rows, term) == 0 {
        assert forall|r: int, d: int| 0 <= r < rows && 0 <= d < dim implies coordinate(
            #[trigger] data[r * dim + d],
        ) == coordinate(centroids[assigned[r] * dim + d]) by {
            assert(term(r) == 0);
            assert(total(distances[r]) == Some(term(r)));
        }
    }
    if forall|r: int, d: int|
        0 <= r < rows && 0 <= d < dim ==> coordinate(#[trigger] data[r * dim + d]) == coordinate(
            centroids[assigned[r] * dim + d],
        ) {
        assert forall|r: int| 0 <= r < rows implies #[trigger] term(r) == 0 by {
            assert(total(distances[r]) == Some(term(r)));
        }
    }
}

} // verus!
