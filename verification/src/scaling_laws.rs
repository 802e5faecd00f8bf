//! Centroids scaled to unit length, in numbers.
use crate::arithmetic::{is_norm, Arithmetic};
use crate::batch_laws::are_numbers_within;
use crate::centroids::{are_normalized, is_normalized, is_scaled, is_scaled_by_norm};
use crate::descent::measures_exactly;
use crate::exact_laws::{
    law_norm_is_the_sum_of_squares, lemma_same_terms, lemma_sum_of_positive, sum_over,
};
use crate::layout::{lemma_product_monotone, lemma_row_fits, row};
use crate::lloyd::{is_finished, is_lloyd_step, is_viewed, Progress};
use crate::sweep::{is_summarized, AssignmentSummary};
use crate::update::is_updated;
use vstd::prelude::*;

verus! {

/// Scaling a point of the length `length` is exact: the root of the squared length, and the
/// quotient by it of each coordinate for which that is a whole number. The number one is
/// `one` units of length. Squares above zero have a key above zero, and zero the key 0.
pub open spec fn scales_exactly<A: Arithmetic>(
    coordinate: spec_fn(A::Value) -> Option<int>,
    square: spec_fn(A::Value) -> Option<int>,
    one: int,
    length: int,
) -> bool {
    &&& forall|norm: A::Value, key: Option<i64>| #[trigger]
        call_ensures(A::key, (norm,), key) && square(norm) == Some(length * length) ==> key is Some
            && (key.unwrap() > 0 <==> length * length > 0)
    &&& forall|norm: A::Value, root: A::Value| #[trigger]
        call_ensures(A::square_root, (norm,), root) && square(norm) == Some(length * length)
            ==> coordinate(root) == Some(length)
    &&& forall|root: A::Value, inverse: A::Value, value: A::Value, scaled: A::Value| #[trigger]
        call_ensures(A::reciprocal, (root,), inverse) && #[trigger] call_ensures(
            A::times,
            (value, inverse),
            scaled,
        ) && coordinate(root) == Some(length) && length > 0 && coordinate(value) is Some && (
        coordinate(value).unwrap() * one) % length == 0 ==> coordinate(scaled) == Some(
            (coordinate(value).unwrap() * one) / length,
        )
}

/// Terms that are `one` to `length` in proportion have sums of squares in the proportion of
/// the squares.
proof fn lemma_squares_in_proportion(
    count: int,
    before: spec_fn(int) -> int,
    after: spec_fn(int) -> int,
    one: int,
    length: int,
)
    requires
        forall|d: int| 0 <= d < count ==> #[trigger] after(d) * length == before(d) * one,
    ensures
        sum_over(count, |d: int| after(d) * after(d)) * (length * length) == sum_over(
            count,
            |d: int| before(d) * before(d),
        ) * (one * one),
    decreases count,
{
    let squares_after = |d: int| after(d) * after(d);
    let squares_before = |d: int| before(d) * before(d);
    if count > 0 {
        lemma_squares_in_proportion(count - 1, before, after, one, length);
        let a = after(count - 1);
        let b = before(count - 1);
        let x = sum_over(count - 1, squares_after);
        let y = sum_over(count - 1, squares_before);
        assert(a * length == b * one);
        assert((a * a) * (length * length) == (a * length) * (a * length)) by (nonlinear_arith);
        assert((b * b) * (one * one) == (b * one) * (b * one)) by (nonlinear_arith);
        assert((x + a * a) * (length * length) == x * (length * length) + (a * a) * (length
            * length)) by (nonlinear_arith);
        assert((y + b * b) * (one * one) == y * (one * one) + (b * b) * (one * one))
            by (nonlinear_arith);
    }
}

/// A centroid that is not zero is scaled to the length one, whether it was shorter or longer
/// than that, and keeps its direction: each coordinate is to what it was as one is to the
/// length that it had.
pub proof fn law_scaled_centroid_has_unit_length<A: Arithmetic>(
    coordinate: spec_fn(A::Value) -> Option<int>,
    square: spec_fn(A::Value) -> Option<int>,
    limit: int,
    bound: int,
    one: int,
    length: int,
    before: Seq<A::Value>,
    after: Seq<A::Value>,
)
    requires
        0 <= limit,
        measures_exactly::<A>(coordinate, square, limit, bound),
        scales_exactly::<A>(coordinate, square, one, length),
        before.len() * (limit * limit) <= bound,
        are_numbers_within(coordinate, before, limit),
        one > 0,
        length > 0,
        sum_over(
            before.len() as int,
            |d: int| coordinate(before[d]).unwrap() * coordinate(before[d]).unwrap(),
        ) == length * length,
        forall|d: int|
            0 <= d < before.len() ==> (coordinate(#[trigger] before[d]).unwrap() * one) % length
                == 0,
        is_normalized::<A>(before, after),
    ensures
        after.len() == before.len(),
        forall|d: int|
            0 <= d < before.len() ==> coordinate(#[trigger] after[d]) is Some && coordinate(
                after[d],
            ).unwrap() * length == coordinate(before[d]).unwrap() * one,
        sum_over(
            after.len() as int,
            |d: int| coordinate(after[d]).unwrap() * coordinate(after[d]).unwrap(),
        ) == one * one,
{
    let count = before.len() as int;
    assert(length * length > 0) by (nonlinear_arith)
        requires
            length > 0,
    ;
    let (norm, key) = choose|norm: A::Value, key: Option<i64>| #[trigger]
        is_norm::<A>(before, norm) && #[trigger] call_ensures(A::key, (norm,), key) && if key
            is Some && key.unwrap() > 0 {
            is_scaled_by_norm::<A>(before, norm, after)
        } else {
            after == before
        };
    law_norm_is_the_sum_of_squares::<A>(coordinate, square, limit, bound, before, norm);
    assert(is_scaled_by_norm::<A>(before, norm, after));
    let (root, inverse) = choose|root: A::Value, inverse: A::Value| #[trigger]
        call_ensures(A::square_root, (norm,), root) && #[trigger] call_ensures(
            A::reciprocal,
            (root,),
            inverse,
        ) && is_scaled::<A>(before, inverse, after);
    assert forall|d: int| 0 <= d < count implies coordinate(#[trigger] after[d]) is Some
        && coordinate(after[d]).unwrap() * length == coordinate(before[d]).unwrap() * one by {
        assert(call_ensures(A::times, (before[d], inverse), after[d]));
        assert(coordinate(before[d]) is Some);
        let product = coordinate(before[d]).unwrap() * one;
        assert(product % length == 0);
        vstd::arithmetic::div_mod::lemma_fundamental_div_mod(product, length);
        assert(length * (product / length) == (product / length) * length) by (nonlinear_arith);
    }
    let a = |d: int| coordinate(after[d]).unwrap();
    let b = |d: int| coordinate(before[d]).unwrap();
    assert forall|d: int| 0 <= d < count implies #[trigger] a(d) * length == b(d) * one by {
        assert(coordinate(after[d]) is Some);
    }
    lemma_squares_in_proportion(count, b, a, one, length);
    lemma_same_terms(
        count,
        |d: int| a(d) * a(d),
        |d: int| coordinate(after[d]).unwrap() * coordinate(after[d]).unwrap(),
    );
    lemma_same_terms(
        count,
        |d: int| b(d) * b(d),
        |d: int| coordinate(before[d]).unwrap() * coordinate(before[d]).unwrap(),
    );
    let sum = sum_over(count, |d: int| a(d) * a(d));
    assert(sum == one * one) by (nonlinear_arith)
        requires
            sum * (length * length) == (length * length) * (one * one),
            length * length > 0,
    ;
}

/// A centroid that is zero is left as it is.
pub proof fn law_zero_centroid_is_left<A: Arithmetic>(
    coordinate: spec_fn(A::Value) -> Option<int>,
    square: spec_fn(A::Value) -> Option<int>,
    limit: int,
    bound: int,
    one: int,
    before: Seq<A::Value>,
    after: Seq<A::Value>,
)
    requires
        0 <= limit,
        measures_exactly::<A>(coordinate, square, limit, bound),
        scales_exactly::<A>(coordinate, square, one, 0),
        before.len() * (limit * limit) <= bound,
        are_numbers_within(coordinate, before, limit),
        forall|d: int| 0 <= d < before.len() ==> coordinate(#[trigger] before[d]) == Some(0int),
        is_normalized::<A>(before, after),
    ensures
        after == before,
{
    let (norm, key) = choose|norm: A::Value, key: Option<i64>| #[trigger]
        is_norm::<A>(before, norm) && #[trigger] call_ensures(A::key, (norm,), key) && if key
            is Some && key.unwrap() > 0 {
            is_scaled_by_norm::<A>(before, norm, after)
        } else {
            after == before
        };
    law_norm_is_the_sum_of_squares::<A>(coordinate, square, limit, bound, before, norm);
    let squares = |d: int| coordinate(before[d]).unwrap() * coordinate(before[d]).unwrap();
    assert forall|d: int| 0 <= d < before.len() implies #[trigger] squares(d) == 0 by {
        assert(coordinate(before[d]) == Some(0int));
    }
    lemma_sum_of_positive(before.len() as int, squares);
    assert(square(norm) == Some(0int * 0int));
}

/// Scaling the centroids scales each of the first `k` by itself and nothing else.
pub proof fn law_each_centroid_is_scaled_by_itself<A: Arithmetic>(
    before: Seq<A::Value>,
    k: int,
    dim: int,
    after: Seq<A::Value>,
)
    requires
        0 <= k,
        0 <= dim,
        k * dim <= before.len(),
        are_normalized::<A>(before, k, dim, after),
    ensures
        after.len() == before.len(),
        forall|c: int|
            0 <= c < k ==> is_normalized::<A>(
                #[trigger] before.subrange(c * dim, (c + 1) * dim),
                after.subrange(c * dim, (c + 1) * dim),
            ),
        forall|i: int| k * dim <= i < before.len() ==> #[trigger] after[i] == before[i],
{
    assert forall|c: int| 0 <= c < k implies is_normalized::<A>(
        #[trigger] before.subrange(c * dim, (c + 1) * dim),
        after.subrange(c * dim, (c + 1) * dim),
    ) by {
        lemma_row_fits(c, k, dim);
        assert(is_normalized::<A>(row(before, c, dim), row(after, c, dim)));
    }
    assert forall|i: int| k * dim <= i < before.len() implies #[trigger] after[i] == before[i] by {
        lemma_product_monotone(0, k, dim);
        assert(after.skip(k * dim)[i - k * dim] == before.skip(k * dim)[i - k * dim]);
    }
}

/// A step with scaling is a step without it, after which each of the centroids is scaled.
pub proof fn law_spherical_step_scales_the_centroids<A: Arithmetic>(
    data: Seq<A::Value>,
    norms: Seq<A::Value>,
    k: int,
    dim: usize,
    block: usize,
    before: Progress<A::Value>,
    after: Progress<A::Value>,
)
    requires
        is_lloyd_step::<A>(data, norms, k, dim, true, block, before, after),
    ensures
        exists|plain: Progress<A::Value>| #[trigger]
            is_lloyd_step::<A>(data, norms, k, dim, false, block, before, plain)
                && plain.assigned == after.assigned && plain.generator == after.generator
                && plain.centroids.len() == after.centroids.len() && (forall|c: int|
                0 <= c < k ==> is_normalized::<A>(
                    #[trigger] row(plain.centroids, c, dim as int),
                    row(after.centroids, c, dim as int),
                )),
{
    let rows = norms.len() as int;
    let (columns, centroid_norms, summary, moved) = choose|
        columns: Seq<A::Value>,
        centroid_norms: Seq<A::Value>,
        summary: AssignmentSummary<A::Value>,
        moved: Seq<A::Value>,
    | #[trigger]
        is_viewed::<A>(before.centroids, k, dim as int, columns, centroid_norms)
            && #[trigger] is_summarized::<A>(
            data,
            norms,
            dim,
            columns,
            centroid_norms,
            block,
            after.assigned.take(rows),
            summary,
        ) && #[trigger] is_updated::<A>(
            data,
            dim as int,
            summary,
            k,
            before.centroids,
            before.generator,
            moved,
            after.generator,
        ) && is_finished::<A>(moved, k, dim as int, true, after.centroids);
    let plain = Progress {
        centroids: moved,
        assigned: after.assigned,
        generator: after.generator,
    };
    assert(is_finished::<A>(moved, k, dim as int, false, plain.centroids));
    assert(is_summarized::<A>(
        data,
        norms,
        dim,
        columns,
        centroid_norms,
        block,
        plain.assigned.take(rows),
        summary,
    ));
    assert(is_updated::<A>(
        data,
        dim as int,
        summary,
        k,
        before.centroids,
        before.generator,
        moved,
        plain.generator,
    ));
    assert(is_lloyd_step::<A>(data, norms, k, dim, false, block, before, plain));
}

/// After a step with scaling every centroid that would not be zero without it has the length
/// one.
pub proof fn law_spherical_step_leaves_unit_centroids<A: Arithmetic>(
    coordinate: spec_fn(A::Value) -> Option<int>,
    square: spec_fn(A::Value) -> Option<int>,
    limit: int,
    bound: int,
    one: int,
    data: Seq<A::Value>,
    norms: Seq<A::Value>,
    k: int,
    dim: usize,
    block: usize,
    before: Progress<A::Value>,
    after: Progress<A::Value>,
)
    requires
        0 <= limit,
        measures_exactly::<A>(coordinate, square, limit, bound),
        dim * (limit * limit) <= bound,
        one > 0,
        k >= 0,
        k * dim <= after.centroids.len(),
        is_lloyd_step::<A>(data, norms, k, dim, true, block, before, after),
    ensures
        exists|plain: Progress<A::Value>| #[trigger]
            is_lloyd_step::<A>(data, norms, k, dim, false, block, before, plain) && (forall|
                c: int,
                length: int,
            |
                #![trigger
                    row(after.centroids, c, dim as int),
                    scales_exactly::<A>(coordinate, square, one, length)
                ]
                0 <= c < k && length > 0 && scales_exactly::<A>(coordinate, square, one, length)
                    && are_numbers_within(
                    coordinate,
                    row(plain.centroids, c, dim as int),
                    limit,
                ) && sum_over(
                    dim as int,
                    |d: int|
                        coordinate(row(plain.centroids, c, dim as int)[d]).unwrap()
                            * coordinate(row(plain.centroids, c, dim as int)[d]).unwrap(),
                ) == length * length && (forall|d: int|
                    0 <= d < dim ==> (coordinate(
                        #[trigger] row(plain.centroids, c, dim as int)[d],
                    ).unwrap() * one) % length == 0) ==> sum_over(
                    dim as int,
                    |d: int|
                        coordinate(row(after.centroids, c, dim as int)[d]).unwrap()
                            * coordinate(row(after.centroids, c, dim as int)[d]).unwrap(),
                ) == one * one),
{
    law_spherical_step_scales_the_centroids::<A>(data, norms, k, dim, block, before, after);
    let plain = choose|plain: Progress<A::Value>| #[trigger]
        is_lloyd_step::<A>(data, norms, k, dim, false, block, before, plain) && plain.assigned
            == after.assigned && plain.generator == after.generator && plain.centroids.len()
            == after.centroids.len() && (forall|c: int|
            0 <= c < k ==> is_normalized::<A>(
                #[trigger] row(plain.centroids, c, dim as int),
                row(after.centroids, c, dim as int),
            ));
    assert forall|c: int, length: int|
        #![trigger
            row(after.centroids, c, dim as int),
            scales_exactly::<A>(coordinate, square, one, length)
        ]
        0 <= c < k && length > 0 && scales_exactly::<A>(coordinate, square, one, length)
            && are_numbers_within(coordinate, row(plain.centroids, c, dim as int), limit)
            && sum_over(
            dim as int,
            |d: int|
                coordinate(row(plain.centroids, c, dim as int)[d]).unwrap() * coordinate(
                    row(plain.centroids, c, dim as int)[d],
                ).unwrap(),
        ) == length * length && (forall|d: int|
            0 <= d < dim ==> (coordinate(
                #[trigger] row(plain.centroids, c, dim as int)[d],
            ).unwrap() * one) % length == 0) implies sum_over(
        dim as int,
        |d: int|
            coordinate(row(after.centroids, c, dim as int)[d]).unwrap() * coordinate(
                row(after.centroids, c, dim as int)[d],
            ).unwrap(),
    ) == one * one by {
        let unscaled = row(plain.centroids, c, dim as int);
        let scaled = row(after.centroids, c, dim as int);
        lemma_row_fits(c, k, dim as int);
        assert(unscaled.len() == dim && scaled.len() == dim);
        lemma_same_terms(
            dim as int,
            |d: int|
                coordinate(row(plain.centroids, c, dim as int)[d]).unwrap() * coordinate(
                    row(plain.centroids, c, dim as int)[d],
                ).unwrap(),
            |d: int| coordinate(unscaled[d]).unwrap() * coordinate(unscaled[d]).unwrap(),
        );
        assert forall|d: int| 0 <= d < unscaled.len() implies (coordinate(
            #[trigger] unscaled[d],
        ).unwrap() * one) % length == 0 by {
            assert((coordinate(row(plain.centroids, c, dim as int)[d]).unwrap() * one) % length
                == 0);
        }
        law_scaled_centroid_has_unit_length::<A>(
            coordinate,
            square,
            limit,
            bound,
            one,
            length,
            unscaled,
            scaled,
        );
        lemma_same_terms(
            dim as int,
            |d: int| coordinate(scaled[d]).unwrap() * coordinate(scaled[d]).unwrap(),
            |d: int|
                coordinate(row(after.centroids, c, dim as int)[d]).unwrap() * coordinate(
                    row(after.centroids, c, dim as int)[d],
                ).unwrap(),
        );
    }
}

} // verus!
