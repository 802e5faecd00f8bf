//! Which operations of the arithmetic are applied, one by one, whatever they come to.
use crate::arithmetic::{
    are_gap_squares, are_norms, are_point_distances, are_squares, is_gap_square, is_norm,
    is_objective, is_squared_distance, is_sum, is_total_sum, Arithmetic,
};
use crate::assignment::{are_rows_nearest, is_batch_assigned, is_product, is_row_nearest};
use crate::batch::{is_chunk_result, member_values, ChunkResult};
use crate::centroids::{is_normalized, is_scaled, is_scaled_by_norm};
use crate::layout::{joined, row};
use crate::ranking::{is_farthest, ranks_before};
use crate::sweep::{
    chunk_assignments, chunk_candidates, chunk_data, chunk_items, chunk_start, chunk_sums, is_merged,
    is_summarized, is_swept, AssignmentSummary,
};
use vstd::prelude::*;

verus! {

/// A sum begins with zero and adds every term, from the first to the last.
pub proof fn law_sum_adds_term_after_term<A: Arithmetic>(terms: Seq<A::Value>, total: A::Value)
    requires
        is_sum::<A>(terms, total),
    ensures
        exists|partial: Seq<A::Value>| #[trigger]
            partial.len() == terms.len() + 1 && call_ensures(A::zero, (), partial[0])
                && partial.last() == total && forall|i: int|
                #![trigger partial[i]]
                0 <= i < terms.len() ==> call_ensures(
                    A::plus,
                    (partial[i], terms[i]),
                    partial[i + 1],
                ),
    decreases terms.len(),
{
    if terms.len() == 0 {
        let partial = seq![total];
        assert(partial.len() == terms.len() + 1);
    } else {
        let fewer = terms.drop_last();
        let before = choose|before: A::Value|
            is_sum::<A>(fewer, before) && #[trigger] call_ensures(
                A::plus,
                (before, terms.last()),
                total,
            );
        law_sum_adds_term_after_term::<A>(fewer, before);
        let partial = choose|partial: Seq<A::Value>| #[trigger]
            partial.len() == fewer.len() + 1 && call_ensures(A::zero, (), partial[0])
                && partial.last() == before && forall|i: int|
                #![trigger partial[i]]
                0 <= i < fewer.len() ==> call_ensures(
                    A::plus,
                    (partial[i], fewer[i]),
                    partial[i + 1],
                );
        let grown = partial.push(total);
        assert(grown.len() == terms.len() + 1);
        assert forall|i: int|
            #![trigger grown[i]]
            0 <= i < terms.len() implies call_ensures(
            A::plus,
            (grown[i], terms[i]),
            grown[i + 1],
        ) by {
            if i < fewer.len() {
                assert(grown[i] == partial[i] && grown[i + 1] == partial[i + 1]);
                assert(fewer[i] == terms[i]);
            } else {
                assert(grown[i] == partial.last());
            }
        }
        assert(grown[0] == partial[0]);
        assert(grown.last() == total);
    }
}

/// So does a sum of totals.
pub proof fn law_total_adds_term_after_term<A: Arithmetic>(terms: Seq<A::Total>, total: A::Total)
    requires
        is_total_sum::<A>(terms, total),
    ensures
        exists|partial: Seq<A::Total>| #[trigger]
            partial.len() == terms.len() + 1 && call_ensures(A::total_zero, (), partial[0])
                && partial.last() == total && forall|i: int|
                #![trigger partial[i]]
                0 <= i < terms.len() ==> call_ensures(
                    A::total_plus,
                    (partial[i], terms[i]),
                    partial[i + 1],
                ),
    decreases terms.len(),
{
    if terms.len() == 0 {
        let partial = seq![total];
        assert(partial.len() == terms.len() + 1);
    } else {
        let fewer = terms.drop_last();
        let before = choose|before: A::Total|
            is_total_sum::<A>(fewer, before) && #[trigger] call_ensures(
                A::total_plus,
                (before, terms.last()),
                total,
            );
        law_total_adds_term_after_term::<A>(fewer, before);
        let partial = choose|partial: Seq<A::Total>| #[trigger]
            partial.len() == fewer.len() + 1 && call_ensures(A::total_zero, (), partial[0])
                && partial.last() == before && forall|i: int|
                #![trigger partial[i]]
                0 <= i < fewer.len() ==> call_ensures(
                    A::total_plus,
                    (partial[i], fewer[i]),
                    partial[i + 1],
                );
        let grown = partial.push(total);
        assert(grown.len() == terms.len() + 1);
        assert forall|i: int|
            #![trigger grown[i]]
            0 <= i < terms.len() implies call_ensures(
            A::total_plus,
            (grown[i], terms[i]),
            grown[i + 1],
        ) by {
            if i < fewer.len() {
                assert(grown[i] == partial[i] && grown[i + 1] == partial[i + 1]);
                assert(fewer[i] == terms[i]);
            } else {
                assert(grown[i] == partial.last());
            }
        }
        assert(grown[0] == partial[0]);
        assert(grown.last() == total);
    }
}

/// The norm of each row is the sum of every coordinate of it times itself, and there is one
/// for each row.
pub proof fn law_norm_squares_every_coordinate<A: Arithmetic>(
    data: Seq<A::Value>,
    rows: int,
    dim: int,
    norms: Seq<A::Value>,
    i: int,
)
    requires
        0 <= i < rows,
        0 <= i * dim,
        0 <= dim,
        i * dim + dim <= data.len(),
        are_norms::<A>(data, rows, dim, norms),
    ensures
        norms.len() == rows,
        exists|squares: Seq<A::Value>| #[trigger]
            is_sum::<A>(squares, norms[i]) && squares.len() == dim && forall|d: int|
                0 <= d < dim ==> call_ensures(
                    A::times,
                    (data[i * dim + d], data[i * dim + d]),
                    #[trigger] squares[d],
                ),
{
    assert(is_norm::<A>(row(data, i, dim), norms[i]));
    let values = row(data, i, dim);
    let squares = choose|squares: Seq<A::Value>| #[trigger]
        are_squares::<A>(values, squares) && is_sum::<A>(squares, norms[i]);
    assert forall|d: int| 0 <= d < dim implies call_ensures(
        A::times,
        (data[i * dim + d], data[i * dim + d]),
        #[trigger] squares[d],
    ) by {
        assert(values[d] == data[i * dim + d]);
    }
}

/// The squared difference of two values is their difference, widened and then multiplied by
/// itself.
pub proof fn law_difference_is_widened_and_squared<A: Arithmetic>(
    a: A::Value,
    b: A::Value,
    square: A::Total,
)
    requires
        is_gap_square::<A>(a, b, square),
    ensures
        exists|gap: A::Value, wide: A::Total| #[trigger]
            call_ensures(A::minus, (a, b), gap) && #[trigger] call_ensures(A::widen, (gap,), wide)
                && call_ensures(A::total_times, (wide, wide), square),
{
}

/// The squared distance of two points adds the squared difference of every coordinate.
pub proof fn law_distance_squares_every_difference<A: Arithmetic>(
    a: Seq<A::Value>,
    b: Seq<A::Value>,
    distance: A::Total,
)
    requires
        is_squared_distance::<A>(a, b, distance),
    ensures
        exists|squares: Seq<A::Total>| #[trigger]
            is_total_sum::<A>(squares, distance) && squares.len() == a.len() && forall|d: int|
                0 <= d < a.len() ==> is_gap_square::<A>(a[d], b[d], #[trigger] squares[d]),
{
    let squares = choose|squares: Seq<A::Total>| #[trigger]
        are_gap_squares::<A>(a, b, squares) && is_total_sum::<A>(squares, distance);
    assert(is_total_sum::<A>(squares, distance));
}

/// The objective adds the squared distance of every point to the centroid that it is assigned
/// to.
pub proof fn law_objective_adds_every_distance<A: Arithmetic>(
    data: Seq<A::Value>,
    centroids: Seq<A::Value>,
    assigned: Seq<usize>,
    rows: int,
    dim: int,
    objective: A::Total,
)
    requires
        0 <= rows,
        is_objective::<A>(data, centroids, assigned, rows, dim, objective),
    ensures
        exists|distances: Seq<A::Total>| #[trigger]
            is_total_sum::<A>(distances, objective) && distances.len() == rows && forall|r: int|
                0 <= r < rows ==> is_squared_distance::<A>(
                    data.subrange(r * dim, r * dim + dim),
                    centroids.subrange(assigned[r] * dim, assigned[r] * dim + dim),
                    #[trigger] distances[r],
                ),
{
    let distances = choose|distances: Seq<A::Total>| #[trigger]
        are_point_distances::<A>(data, centroids, assigned, rows, dim, distances)
            && is_total_sum::<A>(distances, objective);
    assert(is_total_sum::<A>(distances, objective));
}

/// A centroid whose squared norm is above zero, however little, has every coordinate
/// multiplied by the reciprocal of the root of the norm. Any other is left as it is.
pub proof fn law_scaling_multiplies_by_the_reciprocal_of_the_root<A: Arithmetic>(
    before: Seq<A::Value>,
    after: Seq<A::Value>,
)
    requires
        is_normalized::<A>(before, after),
    ensures
        exists|norm: A::Value, key: Option<i64>| #[trigger]
            is_norm::<A>(before, norm) && #[trigger] call_ensures(A::key, (norm,), key) && (key
                is Some && key.unwrap() > 0 ==> after.len() == before.len() && exists|
                root: A::Value,
                inverse: A::Value,
            | #[trigger]
                call_ensures(A::square_root, (norm,), root) && #[trigger] call_ensures(
                    A::reciprocal,
                    (root,),
                    inverse,
                ) && forall|d: int|
                    0 <= d < before.len() ==> call_ensures(
                        A::times,
                        (before[d], inverse),
                        #[trigger] after[d],
                    )) && (!(key is Some && key.unwrap() > 0) ==> after == before),
{
    let (norm, key) = choose|norm: A::Value, key: Option<i64>| #[trigger]
        is_norm::<A>(before, norm) && #[trigger] call_ensures(A::key, (norm,), key) && if key
            is Some && key.unwrap() > 0 {
            is_scaled_by_norm::<A>(before, norm, after)
        } else {
            after == before
        };
    if key is Some && key.unwrap() > 0 {
        let (root, inverse) = choose|root: A::Value, inverse: A::Value| #[trigger]
            call_ensures(A::square_root, (norm,), root) && #[trigger] call_ensures(
                A::reciprocal,
                (root,),
                inverse,
            ) && is_scaled::<A>(before, inverse, after);
        assert(call_ensures(A::square_root, (norm,), root));
        assert(call_ensures(A::reciprocal, (root,), inverse));
    }
}

/// A batch takes all dot products from one product of matrices: its points, row after row,
/// and the centroids, column by column. Each of its points is assigned by its own row of it.
pub proof fn law_batch_multiplies_its_points_by_the_centroids<A: Arithmetic>(
    data: Seq<A::Value>,
    norms: Seq<A::Value>,
    dim: usize,
    columns: Seq<A::Value>,
    centroid_norms: Seq<A::Value>,
    assigned: Seq<usize>,
    keys: Seq<i64>,
)
    requires
        is_batch_assigned::<A>(data, norms, dim, columns, centroid_norms, assigned, keys),
    ensures
        assigned.len() == norms.len(),
        keys.len() == norms.len(),
        exists|left: &[A::Value], right: &[A::Value], products: A::Products| #[trigger]
            call_ensures(
                A::multiply,
                (
                    norms.len() as usize,
                    dim,
                    centroid_norms.len() as usize,
                    left,
                    right,
                ),
                products,
            ) && left@ == data && right@ == columns && forall|r: int|
                0 <= r < norms.len() ==> is_row_nearest::<A>(
                    norms[r],
                    centroid_norms,
                    products,
                    r,
                    assigned[r],
                    #[trigger] keys[r],
                ),
{
    let rows = norms.len() as usize;
    let k = centroid_norms.len() as usize;
    let products = choose|products: A::Products| #[trigger]
        is_product::<A>(rows, dim, k, data, columns, products) && are_rows_nearest::<A>(
            norms,
            centroid_norms,
            products,
            assigned,
            keys,
        );
    let (left, right) = choose|left: &[A::Value], right: &[A::Value]|
        left@ == data && right@ == columns && #[trigger] call_ensures(
            A::multiply,
            (rows, dim, k, left, right),
            products,
        );
    assert(call_ensures(A::multiply, (rows, dim, k, left, right), products));
}

/// The candidates of a batch are its farthest points, eight of them where it has as many: each
/// with its own key and its row in the whole data set, the farthest first and of equally far
/// ones the earlier row. What is not among them comes after all of them.
pub proof fn law_candidates_are_the_farthest_of_their_batch<A: Arithmetic>(
    start: usize,
    data: Seq<A::Value>,
    norms: Seq<A::Value>,
    dim: usize,
    columns: Seq<A::Value>,
    centroid_norms: Seq<A::Value>,
    result: ChunkResult<A::Value>,
)
    requires
        is_chunk_result::<A>(start, data, norms, dim, columns, centroid_norms, result),
    ensures
        result.candidates@.len() == if norms.len() < 8 {
            norms.len()
        } else {
            8
        },
        forall|i: int, j: int|
            0 <= i < j < result.candidates@.len() ==> (#[trigger] result.candidates@[i]).0 > (
            #[trigger] result.candidates@[j]).0 || (result.candidates@[i].0
                == result.candidates@[j].0 && result.candidates@[i].1 < result.candidates@[j].1),
        exists|keys: Seq<i64>| #[trigger]
            is_batch_assigned::<A>(
                data,
                norms,
                dim,
                columns,
                centroid_norms,
                result.assignments@,
                keys,
            ) && (forall|i: int|
                0 <= i < result.candidates@.len() ==> start <= (
                #[trigger] result.candidates@[i]).1 < start + norms.len()
                    && result.candidates@[i].0 == keys[result.candidates@[i].1 - start]) && (
            forall|r: int|
                0 <= r < norms.len() ==> result.candidates@.contains(
                    (keys[r], (start + r) as usize),
                ) || (result.candidates@.len() == 8 && (result.candidates@.last().0
                    > #[trigger] keys[r] || (result.candidates@.last().0 == keys[r]
                    && result.candidates@.last().1 <= (start + r) as usize)))),
{
    let list = result.candidates@;
    let keys = choose|keys: Seq<i64>| #[trigger]
        is_batch_assigned::<A>(
            data,
            norms,
            dim,
            columns,
            centroid_norms,
            result.assignments@,
            keys,
        ) && is_farthest(keys, start as int, list);
    assert forall|i: int, j: int| 0 <= i < j < list.len() implies (#[trigger] list[i]).0 > (
    #[trigger] list[j]).0 || (list[i].0 == list[j].0 && list[i].1 < list[j].1) by {
        assert(ranks_before(list[i], list[j]));
        assert(list[i] != list[j]);
    }
}

/// The joint list of some parts and one more is that of the parts and then the one.
pub proof fn law_joined_parts_follow_one_another<T>(parts: Seq<Seq<T>>, part: Seq<T>)
    ensures
        joined(Seq::<Seq<T>>::empty()) == Seq::<T>::empty(),
        joined(parts.push(part)) == joined(parts) + part,
{
    assert(parts.push(part).drop_last() =~= parts);
}

/// The coordinates of a cluster: one more point adds its own if it is assigned to the cluster,
/// and nothing else.
pub proof fn law_members_are_the_assigned_points<T>(
    data: Seq<T>,
    dim: int,
    assigned: Seq<usize>,
    next: usize,
    c: int,
    d: int,
)
    ensures
        member_values(data, dim, Seq::<usize>::empty(), c, d) == Seq::<T>::empty(),
        member_values(data, dim, assigned.push(next), c, d) == if next == c {
            member_values(data, dim, assigned, c, d).push(data[assigned.len() * dim + d])
        } else {
            member_values(data, dim, assigned, c, d)
        },
{
    assert(assigned.push(next).drop_last() =~= assigned);
}

/// A pass over the points goes batch by batch and puts together what they find: batch `i`
/// holds the rows from `i * block` on, as many as there are up to `block` of them, and none
/// of its candidates is lost.
pub proof fn law_pass_joins_all_batches<A: Arithmetic>(
    data: Seq<A::Value>,
    norms: Seq<A::Value>,
    dim: usize,
    columns: Seq<A::Value>,
    centroid_norms: Seq<A::Value>,
    block: usize,
    assigned: Seq<usize>,
    summary: AssignmentSummary<A::Value>,
)
    requires
        block > 0,
        is_summarized::<A>(
            data,
            norms,
            dim,
            columns,
            centroid_norms,
            block,
            assigned,
            summary,
        ),
    ensures
        exists|chunks: Seq<ChunkResult<A::Value>>| #[trigger]
            chunks.len() == (norms.len() + block - 1) / block as int && (forall|i: int|
                #![trigger chunks[i]]
                0 <= i < chunks.len() ==> ({
                    let end = if (i + 1) * block < norms.len() {
                        (i + 1) * block
                    } else {
                        norms.len() as int
                    };
                    is_chunk_result::<A>(
                        (i * block) as usize,
                        data.subrange(i * block * dim, end * dim),
                        norms.subrange(i * block, end),
                        dim,
                        columns,
                        centroid_norms,
                        chunks[i],
                    )
                })) && assigned == joined(
                Seq::new(chunks.len(), |i: int| chunks[i].assignments@),
            ) && summary.candidates@ == joined(
                Seq::new(chunks.len(), |i: int| chunks[i].candidates@),
            ) && (forall|place: int|
                0 <= place < centroid_norms.len() * dim ==> is_sum::<A>(
                    Seq::new(chunks.len(), |i: int| chunks[i].sums@[place]),
                    #[trigger] summary.sums@[place],
                )),
{
    let rows = norms.len() as int;
    let chunks = choose|chunks: Seq<ChunkResult<A::Value>>| #[trigger]
        is_swept::<A>(data, norms, dim, columns, centroid_norms, block, chunks) && is_merged::<A>(
            chunks,
            centroid_norms.len() as int,
            dim as int,
            assigned,
            summary,
        );
    assert(chunks.len() == (norms.len() + block - 1) / block as int);
    assert forall|i: int|
        #![trigger chunks[i]]
        0 <= i < chunks.len() implies ({
        let end = if (i + 1) * block < norms.len() {
            (i + 1) * block
        } else {
            norms.len() as int
        };
        is_chunk_result::<A>(
            (i * block) as usize,
            data.subrange(i * block * dim, end * dim),
            norms.subrange(i * block, end),
            dim,
            columns,
            centroid_norms,
            chunks[i],
        )
    }) by {
        assert(is_chunk_result::<A>(
            chunk_start(i, block as int) as usize,
            chunk_data(data, i, block as int, rows, dim as int),
            chunk_items(norms, i, block as int, rows),
            dim,
            columns,
            centroid_norms,
            chunks[i],
        ));
    }
    assert(chunk_assignments(chunks) =~= Seq::new(
        chunks.len(),
        |i: int| chunks[i].assignments@,
    ));
    assert(chunk_candidates(chunks) =~= Seq::new(chunks.len(), |i: int| chunks[i].candidates@));
    assert forall|place: int| 0 <= place < centroid_norms.len() * dim implies is_sum::<A>(
        Seq::new(chunks.len(), |i: int| chunks[i].sums@[place]),
        #[trigger] summary.sums@[place],
    ) by {
        assert(chunk_sums(chunks, place) =~= Seq::new(
            chunks.len(),
            |i: int| chunks[i].sums@[place],
        ));
    }
}

} // verus!
