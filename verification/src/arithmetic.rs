//! The arithmetic that clustering is carried out in, and the sums formed with it.
//!
//! Nothing is taken for granted of the operations, not even that one of them gives
//! the same value twice: a relation such as [`is_sum`] says which operation was
//! applied to which operands, and in which order.
use crate::layout::{lemma_row_fits, row};
use vstd::prelude::*;

verus! {

/// A kind of number to cluster in, such as single precision floating point.
pub trait Arithmetic {
    /// A coordinate, a norm or a product of coordinates.
    type Value: Copy + Send + Sync;

    /// A number that the objective is added up in, wider than a coordinate.
    type Total: Copy;

    /// A product of two matrices.
    type Products;

    fn zero() -> Self::Value;

    fn two() -> Self::Value;

    /// The value nearest to a number of points.
    fn from_count(count: usize) -> Self::Value;

    fn plus(a: Self::Value, b: Self::Value) -> Self::Value;

    fn minus(a: Self::Value, b: Self::Value) -> Self::Value;

    fn times(a: Self::Value, b: Self::Value) -> Self::Value;

    fn square_root(a: Self::Value) -> Self::Value;

    fn reciprocal(a: Self::Value) -> Self::Value;

    /// The place of a value in the order of all values: the key of a smaller value
    /// is smaller, zero has the key 0 and positive infinity the key `i64::MAX`. A
    /// value that is not ordered has none. See [`crate::order_laws::orders_values`].
    fn key(a: Self::Value) -> Option<i64>;

    /// The product of `left`, a matrix of `rows` by `inner` values, and `right`, one
    /// of `inner` by `columns`, each held row after row.
    fn multiply(
        rows: usize,
        inner: usize,
        columns: usize,
        left: &[Self::Value],
        right: &[Self::Value],
    ) -> Self::Products
        requires
            left@.len() == rows * inner,
            right@.len() == inner * columns,
            rows * columns <= usize::MAX,
    ;

    /// The value at a place of a product that is held row after row.
    fn entry(products: &Self::Products, place: usize) -> Self::Value;

    fn total_zero() -> Self::Total;

    fn widen(a: Self::Value) -> Self::Total;

    fn total_plus(a: Self::Total, b: Self::Total) -> Self::Total;

    fn total_times(a: Self::Total, b: Self::Total) -> Self::Total;

    /// The place of a total in the order of all totals, as [`Arithmetic::key`] has it
    /// for values.
    fn total_key(a: Self::Total) -> Option<i64>;
}

/// `total` comes of adding the terms to zero, from the first to the last.
pub open spec fn is_sum<A: Arithmetic>(terms: Seq<A::Value>, total: A::Value) -> bool
    decreases terms.len(),
{
    if terms.len() == 0 {
        call_ensures(A::zero, (), total)
    } else {
        exists|before: A::Value|
            is_sum::<A>(terms.drop_last(), before) && #[trigger] call_ensures(
                A::plus,
                (before, terms.last()),
                total,
            )
    }
}

/// `total` comes of adding the wide terms to zero, from the first to the last.
pub open spec fn is_total_sum<A: Arithmetic>(terms: Seq<A::Total>, total: A::Total) -> bool
    decreases terms.len(),
{
    if terms.len() == 0 {
        call_ensures(A::total_zero, (), total)
    } else {
        exists|before: A::Total|
            is_total_sum::<A>(terms.drop_last(), before) && #[trigger] call_ensures(
                A::total_plus,
                (before, terms.last()),
                total,
            )
    }
}

pub(crate) proof fn lemma_sum_grows<A: Arithmetic>(
    terms: Seq<A::Value>,
    before: A::Value,
    term: A::Value,
    total: A::Value,
)
    requires
        is_sum::<A>(terms, before),
        call_ensures(A::plus, (before, term), total),
    ensures
        is_sum::<A>(terms.push(term), total),
{
    assert(terms.push(term).drop_last() =~= terms);
    assert(terms.push(term).last() == term);
    assert(call_ensures(A::plus, (before, terms.push(term).last()), total));
}

proof fn lemma_total_sum_grows<A: Arithmetic>(
    terms: Seq<A::Total>,
    before: A::Total,
    term: A::Total,
    total: A::Total,
)
    requires
        is_total_sum::<A>(terms, before),
        call_ensures(A::total_plus, (before, term), total),
    ensures
        is_total_sum::<A>(terms.push(term), total),
{
    assert(terms.push(term).drop_last() =~= terms);
    assert(terms.push(term).last() == term);
    assert(call_ensures(A::total_plus, (before, terms.push(term).last()), total));
}

/// `squares` holds the square of each of `values`.
pub open spec fn are_squares<A: Arithmetic>(values: Seq<A::Value>, squares: Seq<A::Value>) -> bool {
    &&& squares.len() == values.len()
    &&& forall|i: int|
        0 <= i < values.len() ==> call_ensures(
            A::times,
            (values[i], values[i]),
            #[trigger] squares[i],
        )
}

/// `norm` is the sum of the squares of `values`.
pub open spec fn is_norm<A: Arithmetic>(values: Seq<A::Value>, norm: A::Value) -> bool {
    exists|squares: Seq<A::Value>| #[trigger]
        are_squares::<A>(values, squares) && is_sum::<A>(squares, norm)
}

/// `norms` holds the norm of each of the first `rows` rows of `data`.
pub open spec fn are_norms<A: Arithmetic>(
    data: Seq<A::Value>,
    rows: int,
    dim: int,
    norms: Seq<A::Value>,
) -> bool {
    &&& norms.len() == rows
    &&& forall|i: int| 0 <= i < rows ==> is_norm::<A>(row(data, i, dim), #[trigger] norms[i])
}

/// Adds up the squares of a range of `data`.
pub fn compute_norm<A: Arithmetic>(data: &[A::Value], start: usize, len: usize) -> (norm: A::Value)
    requires
        start + len <= data@.len(),
    ensures
        is_norm::<A>(data@.subrange(start as int, start + len), norm),
{
    let size: usize = data.len();
    let mut norm = A::zero();
    let mut i: usize = 0;
    let ghost values = data@.subrange(start as int, start + len);
    let ghost mut squares: Seq<A::Value> = Seq::empty();
    while i < len
        invariant
            i <= len,
            size == data@.len(),
            start + len <= size,
            values == data@.subrange(start as int, start + len),
            are_squares::<A>(values.take(i as int), squares),
            is_sum::<A>(squares, norm),
        decreases len - i,
    {
        let value = data[start + i];
        let square = A::times(value, value);
        let ghost before = norm;
        norm = A::plus(norm, square);
        proof {
            lemma_sum_grows::<A>(squares, before, square, norm);
            squares = squares.push(square);
        }
        i = i + 1;
    }
    assert(values.take(len as int) =~= values);
    norm
}

/// The squared norm of each row.
pub fn compute_norms<A: Arithmetic>(data: &[A::Value], rows: usize, dim: usize) -> (norms: Vec<
    A::Value,
>)
    requires
        rows * dim <= data@.len(),
    ensures
        are_norms::<A>(data@, rows as int, dim as int, norms@),
{
    let size: usize = data.len();
    let mut norms: Vec<A::Value> = Vec::with_capacity(rows);
    let mut i: usize = 0;
    while i < rows
        invariant
            i <= rows,
            size == data@.len(),
            rows * dim <= size,
            are_norms::<A>(data@, i as int, dim as int, norms@),
        decreases rows - i,
    {
        proof {
            lemma_row_fits(i as int, rows as int, dim as int);
        }
        let norm = compute_norm::<A>(data, i * dim, dim);
        norms.push(norm);
        i = i + 1;
    }
    norms
}

/// `square` is the square of the difference of `a` and `b`, which is taken in
/// values and squared in totals.
pub open spec fn is_gap_square<A: Arithmetic>(a: A::Value, b: A::Value, square: A::Total) -> bool {
    exists|gap: A::Value, wide: A::Total| #[trigger]
        call_ensures(A::minus, (a, b), gap) && #[trigger] call_ensures(A::widen, (gap,), wide)
            && call_ensures(A::total_times, (wide, wide), square)
}

/// `squares` holds the squared difference of each coordinate.
pub open spec fn are_gap_squares<A: Arithmetic>(
    a: Seq<A::Value>,
    b: Seq<A::Value>,
    squares: Seq<A::Total>,
) -> bool {
    &&& squares.len() == a.len()
    &&& forall|i: int|
        0 <= i < a.len() ==> is_gap_square::<A>(a[i], b[i], #[trigger] squares[i])
}

/// `distance` is the squared distance of two points.
pub open spec fn is_squared_distance<A: Arithmetic>(
    a: Seq<A::Value>,
    b: Seq<A::Value>,
    distance: A::Total,
) -> bool {
    exists|squares: Seq<A::Total>| #[trigger]
        are_gap_squares::<A>(a, b, squares) && is_total_sum::<A>(squares, distance)
}

/// `distances` holds the squared distance of each of the first `rows` points to the
/// centroid that it is assigned to.
pub open spec fn are_point_distances<A: Arithmetic>(
    data: Seq<A::Value>,
    centroids: Seq<A::Value>,
    assigned: Seq<usize>,
    rows: int,
    dim: int,
    distances: Seq<A::Total>,
) -> bool {
    &&& distances.len() == rows
    &&& forall|i: int|
        0 <= i < rows ==> is_squared_distance::<A>(
            row(data, i, dim),
            row(centroids, assigned[i] as int, dim),
            #[trigger] distances[i],
        )
}

/// `objective` is the sum of those distances.
pub open spec fn is_objective<A: Arithmetic>(
    data: Seq<A::Value>,
    centroids: Seq<A::Value>,
    assigned: Seq<usize>,
    rows: int,
    dim: int,
    objective: A::Total,
) -> bool {
    exists|distances: Seq<A::Total>| #[trigger]
        are_point_distances::<A>(data, centroids, assigned, rows, dim, distances)
            && is_total_sum::<A>(distances, objective)
}

/// The squared distance of `dim` coordinates of `a` and of `b`.
pub fn compute_squared_distance<A: Arithmetic>(
    a: &[A::Value],
    a_start: usize,
    b: &[A::Value],
    b_start: usize,
    dim: usize,
) -> (distance: A::Total)
    requires
        a_start + dim <= a@.len(),
        b_start + dim <= b@.len(),
    ensures
        is_squared_distance::<A>(
            a@.subrange(a_start as int, a_start + dim),
            b@.subrange(b_start as int, b_start + dim),
            distance,
        ),
{
    let a_size: usize = a.len();
    let b_size: usize = b.len();
    let ghost left = a@.subrange(a_start as int, a_start + dim);
    let ghost right = b@.subrange(b_start as int, b_start + dim);
    let ghost mut squares: Seq<A::Total> = Seq::empty();
    let mut distance = A::total_zero();
    let mut d: usize = 0;
    while d < dim
        invariant
            d <= dim,
            a_size == a@.len(),
            b_size == b@.len(),
            a_start + dim <= a_size,
            b_start + dim <= b_size,
            left == a@.subrange(a_start as int, a_start + dim),
            right == b@.subrange(b_start as int, b_start + dim),
            are_gap_squares::<A>(left.take(d as int), right.take(d as int), squares),
            is_total_sum::<A>(squares, distance),
        decreases dim - d,
    {
        let gap = A::minus(a[a_start + d], b[b_start + d]);
        let wide = A::widen(gap);
        let square = A::total_times(wide, wide);
        let ghost before = distance;
        distance = A::total_plus(distance, square);
        proof {
            assert(is_gap_square::<A>(left[d as int], right[d as int], square));
            lemma_total_sum_grows::<A>(squares, before, square, distance);
            squares = squares.push(square);
        }
        d = d + 1;
    }
    assert(left.take(dim as int) =~= left);
    assert(right.take(dim as int) =~= right);
    distance
}

/// The sum over all points of the squared distance to the assigned centroid.
pub fn compute_objective<A: Arithmetic>(
    data: &[A::Value],
    centroids: &[A::Value],
    assignments: &[usize],
    rows: usize,
    dim: usize,
) -> (objective: A::Total)
    requires
        rows <= assignments@.len(),
        rows * dim <= data@.len(),
        forall|i: int|
            0 <= i < rows ==> (#[trigger] assignments@[i]) * dim + dim <= centroids@.len(),
    ensures
        is_objective::<A>(
            data@,
            centroids@,
            assignments@,
            rows as int,
            dim as int,
            objective,
        ),
{
    let size: usize = data.len();
    let centroids_size: usize = centroids.len();
    let ghost mut distances: Seq<A::Total> = Seq::empty();
    let mut objective = A::total_zero();
    let mut i: usize = 0;
    while i < rows
        invariant
            i <= rows,
            size == data@.len(),
            centroids_size == centroids@.len(),
            rows <= assignments@.len(),
            rows * dim <= size,
            forall|j: int|
                0 <= j < rows ==> (#[trigger] assignments@[j]) * dim + dim <= centroids_size,
            are_point_distances::<A>(
                data@,
                centroids@,
                assignments@,
                i as int,
                dim as int,
                distances,
            ),
            is_total_sum::<A>(distances, objective),
        decreases rows - i,
    {
        let cluster: usize = assignments[i];
        proof {
            lemma_row_fits(i as int, rows as int, dim as int);
            assert(0 <= cluster * dim) by (nonlinear_arith);
        }
        let distance = compute_squared_distance::<A>(
            data,
            i * dim,
            centroids,
            cluster * dim,
            dim,
        );
        let ghost before = objective;
        objective = A::total_plus(objective, distance);
        proof {
            lemma_total_sum_grows::<A>(distances, before, distance, objective);
            distances = distances.push(distance);
        }
        i = i + 1;
    }
    objective
}

} // verus!
