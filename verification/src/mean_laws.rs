//! What a step makes of the points, in numbers: the counts, the sums, the means, and the
//! points that empty clusters are reseeded with.
use crate::arithmetic::{are_norms, is_norm, Arithmetic};
use crate::assignment::is_batch_assigned;
use crate::batch::{
    are_cluster_sums, is_chunk_result, is_tally, member_values, occurrences, ChunkResult,
};
use crate::batch_laws::{
    adds_exactly, are_numbers_within, law_sums_are_exact, lemma_member_values_within,
    lemma_prefix_sums_within, lemma_row_in_batch, lemma_sum_is_exact, number_sum,
};
use crate::choice_laws::{law_reseeds_take_the_pool_and_then_draw, law_update_moves_every_cluster};
use crate::descent::{
    are_rows_within, distance_bound, gap_number, lemma_dot_within, lemma_gap_is_norms_less_product,
    measures_exactly,
};
use crate::exact_laws::sum_over;
use crate::laws::law_every_row_has_one_batch;
use crate::layout::{lemma_product_monotone, lemma_row_fits, row};
use crate::lloyd::{is_finished, is_lloyd_step, is_viewed, Progress};
use crate::nearest_laws::{
    has_one_key_for_one_square, law_batch_assigns_to_the_first_nearest,
    law_pass_assigns_to_the_first_nearest,
};
use crate::ranking::{is_farthest, is_offered, ranks_before, RESEED_CANDIDATES};
use crate::reseed_laws::{are_assigned_at, first_of_pool, law_pool_begins_with_the_farthest};
use crate::sweep::{
    chunk_count, chunk_data, chunk_end, chunk_items, chunk_start, is_summarized, lemma_chunks,
    lemma_summarized, lemma_summarized_is_assigned, AssignmentSummary,
};
use crate::update::{
    empty_count, is_pool, is_updated, lemma_empty_count_grows, lemma_empty_count_monotone, reseeds,
};
use vstd::prelude::*;

verus! {

/// The coordinates of the points of a cluster add up to the sum over all points of those
/// that are assigned to it.
proof fn lemma_members_sum_up<V>(
    number: spec_fn(V) -> Option<int>,
    data: Seq<V>,
    dim: int,
    assigned: Seq<usize>,
    c: int,
    d: int,
    term: spec_fn(int) -> int,
)
    requires
        forall|r: int|
            0 <= r < assigned.len() ==> #[trigger] term(r) == if assigned[r] == c {
                number(data[r * dim + d]).unwrap()
            } else {
                0
            },
    ensures
        number_sum(number, member_values(data, dim, assigned, c, d)) == sum_over(
            assigned.len() as int,
            term,
        ),
    decreases assigned.len(),
{
    if assigned.len() > 0 {
        let fewer = assigned.drop_last();
        assert forall|r: int| 0 <= r < fewer.len() implies #[trigger] term(r) == if fewer[r] == c {
            number(data[r * dim + d]).unwrap()
        } else {
            0
        } by {
            assert(fewer[r] == assigned[r]);
        }
        lemma_members_sum_up(number, data, dim, fewer, c, d, term);
        let n = assigned.len() - 1;
        assert(term(n) == if assigned[n] == c {
            number(data[n * dim + d]).unwrap()
        } else {
            0
        });
        let earlier = member_values(data, dim, fewer, c, d);
        if assigned.last() == c {
            assert(earlier.push(data[n * dim + d]).drop_last() =~= earlier);
        }
    }
}

/// A pass counts the points of each cluster, and adds up each of their coordinates: over all
/// points, whatever batch they stand in.
pub proof fn law_pass_counts_and_adds_all_points<A: Arithmetic>(
    coordinate: spec_fn(A::Value) -> Option<int>,
    limit: int,
    data: Seq<A::Value>,
    norms: Seq<A::Value>,
    dim: usize,
    columns: Seq<A::Value>,
    centroid_norms: Seq<A::Value>,
    block: usize,
    assigned: Seq<usize>,
    summary: AssignmentSummary<A::Value>,
)
    requires
        0 <= limit,
        adds_exactly::<A>(coordinate, norms.len() * limit),
        are_numbers_within(coordinate, data, limit),
        block > 0,
        centroid_norms.len() > 0,
        data.len() == norms.len() * dim,
        norms.len() <= usize::MAX,
        is_summarized::<A>(
            data,
            norms,
            dim,
            columns,
            centroid_norms,
            block,
            assigned,
            summary,
        ),
    ensures
        assigned.len() == norms.len(),
        summary.counts@.len() == centroid_norms.len(),
        summary.sums@.len() == centroid_norms.len() * dim,
        forall|c: int|
            0 <= c < centroid_norms.len() ==> #[trigger] summary.counts@[c]
                == assigned.to_multiset().count(c as usize),
        forall|c: int, d: int|
            0 <= c < centroid_norms.len() && 0 <= d < dim ==> coordinate(
                #[trigger] summary.sums@[c * dim + d],
            ) == Some(
                sum_over(
                    norms.len() as int,
                    |r: int|
                        if assigned[r] == c {
                            coordinate(data[r * dim + d]).unwrap()
                        } else {
                            0
                        },
                ),
            ),
{
    lemma_summarized::<A>(
        data,
        norms,
        dim,
        columns,
        centroid_norms,
        block,
        assigned,
        summary,
    );
    assert(is_tally(assigned, summary.counts@));
    law_sums_are_exact::<A>(
        coordinate,
        limit,
        data,
        norms,
        dim,
        columns,
        centroid_norms,
        block,
        assigned,
        summary,
    );
    assert forall|c: int| 0 <= c < centroid_norms.len() implies #[trigger] summary.counts@[c]
        == assigned.to_multiset().count(c as usize) by {
        assert(summary.counts@[c] == occurrences(assigned, c));
    }
    assert forall|c: int, d: int| 0 <= c < centroid_norms.len() && 0 <= d < dim implies coordinate(
        #[trigger] summary.sums@[c * dim + d],
    ) == Some(
        sum_over(
            norms.len() as int,
            |r: int|
                if assigned[r] == c {
                    coordinate(data[r * dim + d]).unwrap()
                } else {
                    0
                },
        ),
    ) by {
        lemma_members_sum_up(
            coordinate,
            data,
            dim as int,
            assigned,
            c,
            d,
            |r: int|
                if assigned[r] == c {
                    coordinate(data[r * dim + d]).unwrap()
                } else {
                    0
                },
        );
    }
}

/// So does a batch with its own points, and it tells where it begins and how long it is.
pub proof fn law_batch_counts_and_adds_its_points<A: Arithmetic>(
    coordinate: spec_fn(A::Value) -> Option<int>,
    limit: int,
    start: usize,
    data: Seq<A::Value>,
    norms: Seq<A::Value>,
    dim: usize,
    columns: Seq<A::Value>,
    centroid_norms: Seq<A::Value>,
    result: ChunkResult<A::Value>,
)
    requires
        0 <= limit,
        adds_exactly::<A>(coordinate, norms.len() * limit),
        are_numbers_within(coordinate, data, limit),
        data.len() == norms.len() * dim,
        is_chunk_result::<A>(start, data, norms, dim, columns, centroid_norms, result),
    ensures
        result.start == start,
        result.len == norms.len(),
        result.assignments@.len() == norms.len(),
        result.counts@.len() == centroid_norms.len(),
        result.sums@.len() == centroid_norms.len() * dim,
        forall|c: int|
            0 <= c < centroid_norms.len() ==> #[trigger] result.counts@[c]
                == result.assignments@.to_multiset().count(c as usize),
        forall|c: int, d: int|
            0 <= c < centroid_norms.len() && 0 <= d < dim ==> coordinate(
                #[trigger] result.sums@[c * dim + d],
            ) == Some(
                sum_over(
                    norms.len() as int,
                    |r: int|
                        if result.assignments@[r] == c {
                            coordinate(data[r * dim + d]).unwrap()
                        } else {
                            0
                        },
                ),
            ),
{
    let assigned = result.assignments@;
    let keys = choose|keys: Seq<i64>| #[trigger]
        is_batch_assigned::<A>(data, norms, dim, columns, centroid_norms, assigned, keys)
            && is_farthest(keys, start as int, result.candidates@);
    assert forall|c: int| 0 <= c < centroid_norms.len() implies #[trigger] result.counts@[c]
        == assigned.to_multiset().count(c as usize) by {
        assert(result.counts@[c] == occurrences(assigned, c));
    }
    assert forall|c: int, d: int| 0 <= c < centroid_norms.len() && 0 <= d < dim implies coordinate(
        #[trigger] result.sums@[c * dim + d],
    ) == Some(
        sum_over(
            norms.len() as int,
            |r: int|
                if result.assignments@[r] == c {
                    coordinate(data[r * dim + d]).unwrap()
                } else {
                    0
                },
        ),
    ) by {
        let members = member_values(data, dim as int, assigned, c, d);
        assert(are_cluster_sums::<A>(
            data,
            dim as int,
            assigned,
            centroid_norms.len() as int,
            result.sums@,
        ));
        lemma_member_values_within(coordinate, limit, data, dim as int, assigned, c, d);
        lemma_prefix_sums_within(
            coordinate,
            members,
            limit,
            norms.len() as int,
            norms.len() * limit,
        );
        lemma_sum_is_exact::<A>(
            coordinate,
            norms.len() * limit,
            members,
            result.sums@[c * dim + d],
        );
        lemma_members_sum_up(
            coordinate,
            data,
            dim as int,
            assigned,
            c,
            d,
            |r: int|
                if result.assignments@[r] == c {
                    coordinate(data[r * dim + d]).unwrap()
                } else {
                    0
                },
        );
    }
}

/// A sum times the reciprocal of a count is the quotient, where that is a whole number.
pub open spec fn divides_exactly<A: Arithmetic>(
    coordinate: spec_fn(A::Value) -> Option<int>,
) -> bool {
    forall|
        count: usize,
        divisor: A::Value,
        inverse: A::Value,
        sum: A::Value,
        mean: A::Value,
    | #[trigger]
        call_ensures(A::from_count, (count,), divisor) && #[trigger] call_ensures(
            A::reciprocal,
            (divisor,),
            inverse,
        ) && #[trigger] call_ensures(A::times, (sum, inverse), mean) && count > 0 && coordinate(sum)
            is Some && coordinate(sum).unwrap() % (count as int) == 0 ==> coordinate(mean) == Some(
            coordinate(sum).unwrap() / count as int,
        )
}

/// An update moves the centroid of a cluster that has points to the mean of their
/// coordinates: the sum divided by the count.
pub proof fn law_update_moves_to_the_quotient<A: Arithmetic>(
    coordinate: spec_fn(A::Value) -> Option<int>,
    data: Seq<A::Value>,
    dim: int,
    summary: AssignmentSummary<A::Value>,
    k: int,
    before: Seq<A::Value>,
    state: Seq<u64>,
    after: Seq<A::Value>,
    left: Seq<u64>,
)
    requires
        divides_exactly::<A>(coordinate),
        dim > 0,
        0 <= k <= summary.counts@.len(),
        k * dim <= summary.sums@.len(),
        k * dim <= before.len(),
        is_updated::<A>(data, dim, summary, k, before, state, after, left),
    ensures
        forall|c: int, d: int|
            0 <= c < k && 0 <= d < dim && summary.counts@[c] > 0 && coordinate(
                summary.sums@[c * dim + d],
            ) is Some && coordinate(summary.sums@[c * dim + d]).unwrap() % (
            summary.counts@[c] as int) == 0 ==> coordinate(#[trigger] after[c * dim + d]) == Some(
                coordinate(summary.sums@[c * dim + d]).unwrap() / summary.counts@[c] as int,
            ),
{
    let counts = summary.counts@;
    let sums = summary.sums@;
    law_update_moves_every_cluster::<A>(
        data,
        dim,
        counts,
        sums,
        summary.candidates@,
        summary,
        k,
        before,
        state,
        after,
        left,
    );
    assert forall|c: int, d: int|
        0 <= c < k && 0 <= d < dim && counts[c] > 0 && coordinate(sums[c * dim + d]) is Some
            && coordinate(sums[c * dim + d]).unwrap() % (counts[c] as int) == 0 implies coordinate(
        #[trigger] after[c * dim + d],
    ) == Some(coordinate(sums[c * dim + d]).unwrap() / counts[c] as int) by {
        let (divisor, inverse) = choose|divisor: A::Value, inverse: A::Value| #[trigger]
            call_ensures(A::from_count, (counts[c],), divisor) && #[trigger] call_ensures(
                A::reciprocal,
                (divisor,),
                inverse,
            ) && forall|d: int|
                0 <= d < dim ==> call_ensures(
                    A::times,
                    (sums[c * dim + d], inverse),
                    #[trigger] after[c * dim + d],
                );
        assert(call_ensures(A::times, (sums[c * dim + d], inverse), after[c * dim + d]));
    }
}

/// The parts of a step that is not followed by scaling.
proof fn lemma_parts_of_step<A: Arithmetic>(
    data: Seq<A::Value>,
    norms: Seq<A::Value>,
    k: int,
    dim: usize,
    block: usize,
    before: Progress<A::Value>,
    after: Progress<A::Value>,
) -> (parts: (Seq<A::Value>, Seq<A::Value>, AssignmentSummary<A::Value>))
    requires
        is_lloyd_step::<A>(data, norms, k, dim, false, block, before, after),
    ensures
        is_viewed::<A>(before.centroids, k, dim as int, parts.0, parts.1),
        is_summarized::<A>(
            data,
            norms,
            dim,
            parts.0,
            parts.1,
            block,
            after.assigned.take(norms.len() as int),
            parts.2,
        ),
        is_updated::<A>(
            data,
            dim as int,
            parts.2,
            k,
            before.centroids,
            before.generator,
            after.centroids,
            after.generator,
        ),
{
    let rows = norms.len() as int;
    let (columns, centroid_norms, summary, moved) = choose|
        columns: Seq<A::Value>,
        centroid_norms: Seq<A::Value>,
        summary: AssignmentSummary<A::Value>,
        moved: Seq<A::Value>,
    | #[trigger]
        is_viewed::<A>(before.centroids, k, dim as int, columns, centroid_norms)
            && #[trigger] is_summarized::<A>(
            data,
            norms,
            dim,
            columns,
            centroid_norms,
            block,
            after.assigned.take(rows),
            summary,
        ) && #[trigger] is_updated::<A>(
            data,
            dim as int,
            summary,
            k,
            before.centroids,
            before.generator,
            moved,
            after.generator,
        ) && is_finished::<A>(moved, k, dim as int, false, after.centroids);
    (columns, centroid_norms, summary)
}

/// A step assigns every point to the first of the nearest centroids, and moves every centroid
/// that has points to their mean: each coordinate times the number of the points is the sum
/// of theirs.
pub proof fn law_step_assigns_to_the_nearest_and_moves_to_the_means<A: Arithmetic>(
    coordinate: spec_fn(A::Value) -> Option<int>,
    square: spec_fn(A::Value) -> Option<int>,
    limit: int,
    data: Seq<A::Value>,
    norms: Seq<A::Value>,
    k: usize,
    dim: usize,
    block: usize,
    before: Progress<A::Value>,
    after: Progress<A::Value>,
)
    requires
        0 <= limit,
        measures_exactly::<A>(coordinate, square, limit, distance_bound(dim as int, limit)),
        has_one_key_for_one_square::<A>(square),
        adds_exactly::<A>(coordinate, norms.len() * limit),
        divides_exactly::<A>(coordinate),
        are_numbers_within(coordinate, data, limit),
        are_rows_within(coordinate, before.centroids, k as int, dim as int, limit),
        k > 0,
        dim > 0,
        block > 0,
        norms.len() <= usize::MAX,
        norms.len() <= before.assigned.len(),
        data.len() == norms.len() * dim,
        k * dim <= before.centroids.len(),
        are_norms::<A>(data, norms.len() as int, dim as int, norms),
        is_lloyd_step::<A>(data, norms, k as int, dim, false, block, before, after),
    ensures
        after.assigned.len() == before.assigned.len(),
        forall|r: int|
            #![trigger after.assigned[r]]
            0 <= r < norms.len() ==> after.assigned[r] < k && forall|c: int|
                #![trigger row(before.centroids, c, dim as int)]
                0 <= c < k ==> gap_number(
                    coordinate,
                    row(data, r, dim as int),
                    row(before.centroids, after.assigned[r] as int, dim as int),
                    dim as int,
                ) <= gap_number(
                    coordinate,
                    row(data, r, dim as int),
                    row(before.centroids, c, dim as int),
                    dim as int,
                ) && (c < after.assigned[r] ==> gap_number(
                    coordinate,
                    row(data, r, dim as int),
                    row(before.centroids, after.assigned[r] as int, dim as int),
                    dim as int,
                ) < gap_number(
                    coordinate,
                    row(data, r, dim as int),
                    row(before.centroids, c, dim as int),
                    dim as int,
                )),
        forall|c: int, d: int|
            #![trigger after.centroids[c * dim + d]]
            0 <= c < k && 0 <= d < dim ==> ({
                let count = after.assigned.take(norms.len() as int).to_multiset().count(
                    c as usize,
                ) as int;
                let sum = sum_over(
                    norms.len() as int,
                    |r: int|
                        if after.assigned.take(norms.len() as int)[r] == c {
                            coordinate(data[r * dim + d]).unwrap()
                        } else {
                            0
                        },
                );
                count > 0 && sum % count == 0 ==> coordinate(after.centroids[c * dim + d]) is Some
                    && coordinate(after.centroids[c * dim + d]).unwrap() * count == sum
            }),
{
    let rows = norms.len() as int;
    let assigned = after.assigned.take(rows);
    let (columns, centroid_norms, summary) = lemma_parts_of_step::<A>(
        data,
        norms,
        k as int,
        dim,
        block,
        before,
        after,
    );
    lemma_summarized_is_assigned::<A>(
        data,
        norms,
        dim,
        columns,
        centroid_norms,
        block,
        assigned,
        summary,
    );
    law_pass_assigns_to_the_first_nearest::<A>(
        coordinate,
        square,
        limit,
        data,
        norms,
        k,
        dim,
        before.centroids,
        columns,
        centroid_norms,
        block,
        assigned,
    );
    assert forall|r: int|
        #![trigger after.assigned[r]]
        0 <= r < rows implies after.assigned[r] == assigned[r] by {}
    law_pass_counts_and_adds_all_points::<A>(
        coordinate,
        limit,
        data,
        norms,
        dim,
        columns,
        centroid_norms,
        block,
        assigned,
        summary,
    );
    law_update_moves_to_the_quotient::<A>(
        coordinate,
        data,
        dim as int,
        summary,
        k as int,
        before.centroids,
        before.generator,
        after.centroids,
        after.generator,
    );
    assert forall|c: int, d: int|
        #![trigger after.centroids[c * dim + d]]
        0 <= c < k && 0 <= d < dim implies ({
        let count = assigned.to_multiset().count(c as usize) as int;
        let sum = sum_over(
            rows,
            |r: int|
                if assigned[r] == c {
                    coordinate(data[r * dim + d]).unwrap()
                } else {
                    0
                },
        );
        count > 0 && sum % count == 0 ==> coordinate(after.centroids[c * dim + d]) is Some
            && coordinate(after.centroids[c * dim + d]).unwrap() * count == sum
    }) by {
        let count = assigned.to_multiset().count(c as usize) as int;
        let sum = coordinate(summary.sums@[c * dim + d]).unwrap();
        assert(summary.counts@[c] == count);
        assert(coordinate(summary.sums@[c * dim + d]) is Some);
        if count > 0 && sum % count == 0 {
            vstd::arithmetic::div_mod::lemma_fundamental_div_mod(sum, count);
            assert(count * (sum / count) == (sum / count) * count) by (nonlinear_arith);
        }
    }
}

/// The key of each point is that of its squared distance to its centroid.
proof fn lemma_keys_are_distances<A: Arithmetic>(
    coordinate: spec_fn(A::Value) -> Option<int>,
    square: spec_fn(A::Value) -> Option<int>,
    limit: int,
    data: Seq<A::Value>,
    norms: Seq<A::Value>,
    k: usize,
    dim: usize,
    centroids: Seq<A::Value>,
    columns: Seq<A::Value>,
    centroid_norms: Seq<A::Value>,
    block: usize,
    assigned: Seq<usize>,
    keys: Seq<i64>,
)
    requires
        0 <= limit,
        measures_exactly::<A>(coordinate, square, limit, distance_bound(dim as int, limit)),
        has_one_key_for_one_square::<A>(square),
        block > 0,
        k > 0,
        norms.len() <= usize::MAX,
        data.len() == norms.len() * dim,
        k * dim <= centroids.len(),
        are_numbers_within(coordinate, data, limit),
        are_rows_within(coordinate, centroids, k as int, dim as int, limit),
        are_norms::<A>(data, norms.len() as int, dim as int, norms),
        is_viewed::<A>(centroids, k as int, dim as int, columns, centroid_norms),
        are_assigned_at::<A>(
            data,
            norms,
            dim,
            columns,
            centroid_norms,
            block,
            assigned,
            keys,
        ),
    ensures
        forall|r: int|
            #![trigger keys[r]]
            0 <= r < norms.len() ==> keys[r] >= 0 && exists|distance: A::Value| #[trigger]
                call_ensures(A::key, (distance,), Some(keys[r])) && square(distance) == Some(
                    gap_number(
                        coordinate,
                        row(data, r, dim as int),
                        row(centroids, assigned[r] as int, dim as int),
                        dim as int,
                    ),
                ),
{
    let rows = norms.len() as int;
    lemma_chunks(rows, block as int);
    assert forall|r: int|
        #![trigger keys[r]]
        0 <= r < rows implies keys[r] >= 0 && exists|distance: A::Value| #[trigger]
        call_ensures(A::key, (distance,), Some(keys[r])) && square(distance) == Some(
            gap_number(
                coordinate,
                row(data, r, dim as int),
                row(centroids, assigned[r] as int, dim as int),
                dim as int,
            ),
        ) by {
        law_every_row_has_one_batch(rows, block as int, r);
        let i = choose|i: int|
            0 <= i < chunk_count(rows, block as int) && #[trigger] chunk_start(i, block as int)
                <= r < chunk_end(i, block as int, rows);
        let start = chunk_start(i, block as int);
        let end = chunk_end(i, block as int, rows);
        let part = chunk_data(data, i, block as int, rows, dim as int);
        let part_norms = chunk_items(norms, i, block as int, rows);
        let part_assigned = chunk_items(assigned, i, block as int, rows);
        let part_keys = chunk_items(keys, i, block as int, rows);
        lemma_product_monotone(0, start, dim as int);
        lemma_product_monotone(start, end, dim as int);
        lemma_product_monotone(end, rows, dim as int);
        assert((end - start) * dim == end * dim - start * dim) by (nonlinear_arith);
        assert(part.len() == part_norms.len() * dim);
        assert forall|j: int| 0 <= j < part.len() implies coordinate(#[trigger] part[j]) is Some
            && -limit <= coordinate(part[j]).unwrap() <= limit by {
            assert(part[j] == data[start * dim + j]);
        }
        assert forall|s: int| 0 <= s < part_norms.len() implies is_norm::<A>(
            row(part, s, dim as int),
            #[trigger] part_norms[s],
        ) by {
            lemma_row_in_batch(data, dim as int, rows, block as int, i, start + s);
            assert(is_norm::<A>(row(data, start + s, dim as int), norms[start + s]));
        }
        law_batch_assigns_to_the_first_nearest::<A>(
            coordinate,
            square,
            limit,
            part,
            part_norms,
            k,
            dim,
            centroids,
            columns,
            centroid_norms,
            part_assigned,
            part_keys,
        );
        lemma_row_in_batch(data, dim as int, rows, block as int, i, r);
        assert(part_assigned[r - start] == assigned[r]);
        assert(part_keys[r - start] == keys[r]);
    }
}

/// `far` lists the rows that are farthest from their centroids, eight of them where there
/// are as many, and the clusters that a step leaves empty are reseeded with them in that
/// order.
pub proof fn law_empty_clusters_take_the_farthest_points<A: Arithmetic>(
    coordinate: spec_fn(A::Value) -> Option<int>,
    square: spec_fn(A::Value) -> Option<int>,
    limit: int,
    data: Seq<A::Value>,
    norms: Seq<A::Value>,
    k: usize,
    dim: usize,
    block: usize,
    before: Progress<A::Value>,
    after: Progress<A::Value>,
    counts: Seq<usize>,
)
    requires
        0 <= limit,
        measures_exactly::<A>(coordinate, square, limit, distance_bound(dim as int, limit)),
        has_one_key_for_one_square::<A>(square),
        are_numbers_within(coordinate, data, limit),
        are_rows_within(coordinate, before.centroids, k as int, dim as int, limit),
        k > 0,
        dim > 0,
        block > 0,
        norms.len() <= usize::MAX,
        norms.len() <= before.assigned.len(),
        data.len() == norms.len() * dim,
        k * dim <= before.centroids.len(),
        are_norms::<A>(data, norms.len() as int, dim as int, norms),
        is_lloyd_step::<A>(data, norms, k as int, dim, false, block, before, after),
        counts.len() == k,
        forall|c: int|
            0 <= c < k ==> #[trigger] counts[c] == after.assigned.take(
                norms.len() as int,
            ).to_multiset().count(c as usize),
    ensures
        exists|far: Seq<usize>| #[trigger]
            far.no_duplicates() && far.len() == (if norms.len() < 8 {
                norms.len()
            } else {
                8
            }) && (forall|i: int| 0 <= i < far.len() ==> #[trigger] far[i] < norms.len()) && (
            forall|i: int, r: int|
                #![trigger far[i], after.assigned.take(norms.len() as int)[r]]
                0 <= i < far.len() && 0 <= r < norms.len() && !far.take(i + 1).contains(
                    r as usize,
                ) ==> ({
                    let farther = gap_number(
                        coordinate,
                        row(data, far[i] as int, dim as int),
                        row(
                            before.centroids,
                            after.assigned.take(norms.len() as int)[far[i] as int] as int,
                            dim as int,
                        ),
                        dim as int,
                    );
                    let nearer = gap_number(
                        coordinate,
                        row(data, r, dim as int),
                        row(
                            before.centroids,
                            after.assigned.take(norms.len() as int)[r] as int,
                            dim as int,
                        ),
                        dim as int,
                    );
                    nearer < farther || (nearer == farther && far[i] < r)
                })) && (forall|c: int|
                #![trigger counts[c]]
                0 <= c < k && counts[c] == 0 && counts.take(c).to_multiset().count(0) < far.len()
                    ==> after.centroids.subrange(c * dim, c * dim + dim) == data.subrange(
                    far[counts.take(c).to_multiset().count(0) as int] * dim,
                    far[counts.take(c).to_multiset().count(0) as int] * dim + dim,
                )),
{
    let rows = norms.len() as int;
    let assigned = after.assigned.take(rows);
    let (columns, centroid_norms, summary) = lemma_parts_of_step::<A>(
        data,
        norms,
        k as int,
        dim,
        block,
        before,
        after,
    );
    lemma_summarized::<A>(
        data,
        norms,
        dim,
        columns,
        centroid_norms,
        block,
        assigned,
        summary,
    );
    assert(is_tally(assigned, summary.counts@));
    assert forall|c: int| 0 <= c < k implies counts[c] == summary.counts@[c] by {
        assert(summary.counts@[c] == occurrences(assigned, c));
    }
    assert(counts =~= summary.counts@);
    law_update_moves_every_cluster::<A>(
        data,
        dim as int,
        counts,
        summary.sums@,
        summary.candidates@,
        summary,
        k as int,
        before.centroids,
        before.generator,
        after.centroids,
        after.generator,
    );
    let total_rows = (data.len() as int / dim as int) as usize;
    let pool = choose|pool: Seq<usize>| #[trigger]
        is_pool(summary.candidates@, pool) && after.generator == reseeds(
            counts.take(k as int),
            pool,
            total_rows,
            before.generator,
        ).1 && forall|c: int|
            #![trigger counts[c]]
            0 <= c < k && counts[c] == 0 ==> ({
                let source = reseeds(
                    counts.take(k as int),
                    pool,
                    total_rows,
                    before.generator,
                ).0[empty_count(counts.take(c)) as int];
                &&& source < data.len() as int / dim as int
                &&& after.centroids.subrange(c * dim, c * dim + dim) == data.subrange(
                    source * dim,
                    source * dim + dim,
                )
            });
    law_pool_begins_with_the_farthest::<A>(
        data,
        norms,
        dim,
        columns,
        centroid_norms,
        block,
        assigned,
        summary,
        pool,
    );
    let keys = choose|keys: Seq<i64>| #[trigger]
        are_assigned_at::<A>(
            data,
            norms,
            dim,
            columns,
            centroid_norms,
            block,
            assigned,
            keys,
        ) && is_farthest(keys, 0, first_of_pool(keys, pool));
    lemma_keys_are_distances::<A>(
        coordinate,
        square,
        limit,
        data,
        norms,
        k,
        dim,
        before.centroids,
        columns,
        centroid_norms,
        block,
        assigned,
        keys,
    );
    let list = first_of_pool(keys, pool);
    let far = pool.take(list.len() as int);
    assert forall|i: int| 0 <= i < far.len() implies #[trigger] far[i] < rows && list[i] == (
    keys[far[i] as int], far[i]) by {
        assert(list[i].1 < rows);
    }
    assert forall|i: int, j: int|
        0 <= i < far.len() && 0 <= j < far.len() && i != j implies far[i] != far[j] by {
        assert(list[i] != list[j]);
        assert(list[i] == (keys[far[i] as int], far[i]));
        assert(list[j] == (keys[far[j] as int], far[j]));
    }
    assert forall|i: int, r: int|
        #![trigger far[i], assigned[r]]
        0 <= i < far.len() && 0 <= r < rows && !far.take(i + 1).contains(r as usize) implies ({
        let farther = gap_number(
            coordinate,
            row(data, far[i] as int, dim as int),
            row(before.centroids, assigned[far[i] as int] as int, dim as int),
            dim as int,
        );
        let nearer = gap_number(
            coordinate,
            row(data, r, dim as int),
            row(before.centroids, assigned[r] as int, dim as int),
            dim as int,
        );
        nearer < farther || (nearer == farther && far[i] < r)
    }) by {
        let p = far[i] as int;
        assert(list[i] == (keys[p], far[i]));
        let member = (keys[r], r as usize);
        assert(ranks_before(list[i], member)) by {
            assert(keys[r] == keys[r]);
            if list.contains(member) {
                let j = choose|j: int| 0 <= j < list.len() && list[j] == member;
                assert(far[j] == r);
                if j <= i {
                    assert(far.take(i + 1)[j] == r);
                }
                assert(ranks_before(list[i], list[j]));
            } else {
                assert(list.contains((keys[r], (0 + r) as usize)) || (list.len()
                    == RESEED_CANDIDATES && ranks_before(list.last(), (keys[r], (0 + r) as usize))));
                assert(ranks_before(list[i], list[list.len() - 1]));
            }
        }
        assert(far[i] != r) by {
            assert(far.take(i + 1)[i] == far[i]);
        }
        let a = gap_number(
            coordinate,
            row(data, p, dim as int),
            row(before.centroids, assigned[p] as int, dim as int),
            dim as int,
        );
        let b = gap_number(
            coordinate,
            row(data, r, dim as int),
            row(before.centroids, assigned[r] as int, dim as int),
            dim as int,
        );
        assert(keys[p] >= 0 && keys[r] >= 0);
        let v = choose|v: A::Value| #[trigger]
            call_ensures(A::key, (v,), Some(keys[p])) && square(v) == Some(a);
        let w = choose|w: A::Value| #[trigger]
            call_ensures(A::key, (w,), Some(keys[r])) && square(w) == Some(b);
        lemma_gap_within::<A>(
            coordinate,
            limit,
            data,
            norms.len() as int,
            k as int,
            dim as int,
            before.centroids,
            p,
            assigned[p] as int,
        );
        lemma_gap_within::<A>(
            coordinate,
            limit,
            data,
            norms.len() as int,
            k as int,
            dim as int,
            before.centroids,
            r,
            assigned[r] as int,
        );
        if a < b {
            assert(keys[p] < keys[r]);
        }
        if a == b {
            assert(Some(keys[p]) == Some(keys[r]));
        }
    }
    assert forall|c: int|
        #![trigger counts[c]]
        0 <= c < k && counts[c] == 0 && counts.take(c).to_multiset().count(0)
            < far.len() implies after.centroids.subrange(c * dim, c * dim + dim) == data.subrange(
        far[counts.take(c).to_multiset().count(0) as int] * dim,
        far[counts.take(c).to_multiset().count(0) as int] * dim + dim,
    ) by {
        let e = empty_count(counts.take(c)) as int;
        lemma_empty_count_grows(counts, c);
        lemma_empty_count_monotone(counts, c + 1, k as int);
        law_reseeds_take_the_pool_and_then_draw(
            counts.take(k as int),
            pool,
            total_rows,
            before.generator,
        );
        assert(reseeds(counts.take(k as int), pool, total_rows, before.generator).0[e] == pool[e]);
        assert(far[e] == pool[e]);
    }
    assert(far.no_duplicates());
}

/// Squared distances of points and centroids within `limit` are within the bound.
proof fn lemma_gap_within<A: Arithmetic>(
    coordinate: spec_fn(A::Value) -> Option<int>,
    limit: int,
    data: Seq<A::Value>,
    rows: int,
    k: int,
    dim: int,
    centroids: Seq<A::Value>,
    r: int,
    c: int,
)
    requires
        0 <= limit,
        0 <= dim,
        0 <= r < rows,
        0 <= c < k,
        data.len() == rows * dim,
        k * dim <= centroids.len(),
        are_numbers_within(coordinate, data, limit),
        are_rows_within(coordinate, centroids, k, dim, limit),
    ensures
        0 <= gap_number(coordinate, row(data, r, dim), row(centroids, c, dim), dim)
            <= distance_bound(dim, limit),
{
    let point = row(data, r, dim);
    let own = row(centroids, c, dim);
    lemma_row_fits(r, rows, dim);
    lemma_row_fits(c, k, dim);
    assert forall|d: int| 0 <= d < point.len() implies coordinate(#[trigger] point[d]) is Some
        && -limit <= coordinate(point[d]).unwrap() <= limit by {
        assert(point[d] == data[r * dim + d]);
    }
    lemma_dot_within(coordinate, point, point, dim, limit);
    lemma_dot_within(coordinate, own, own, dim, limit);
    lemma_dot_within(coordinate, point, own, dim, limit);
    lemma_gap_is_norms_less_product(coordinate, point, own, dim);
}

/// Offering a candidate to a short list: as long as there are fewer than eight it joins, and
/// then it takes the place of the last one if it is farther. The farthest come first, and of
/// those that are equally far the earlier rows.
pub proof fn law_short_list_keeps_the_farthest(
    list: Seq<(i64, usize)>,
    candidate: (i64, usize),
    next: Seq<(i64, usize)>,
)
    requires
        is_offered(list, candidate, next),
    ensures
        list.len() < 8 ==> next.to_multiset() == list.push(candidate).to_multiset(),
        list.len() >= 8 && candidate.0 > list.last().0 ==> next.to_multiset()
            == list.drop_last().push(candidate).to_multiset(),
        list.len() >= 8 && candidate.0 <= list.last().0 ==> next == list,
        list.len() < 8 || candidate.0 > list.last().0 ==> forall|i: int, j: int|
            0 <= i < j < next.len() ==> (#[trigger] next[i]).0 > (#[trigger] next[j]).0 || (next[
                i].0 == next[j].0 && next[i].1 <= next[j].1),
{
    if list.len() < 8 || candidate.0 > list.last().0 {
        assert forall|i: int, j: int| 0 <= i < j < next.len() implies (#[trigger] next[i]).0 > (
        #[trigger] next[j]).0 || (next[i].0 == next[j].0 && next[i].1 <= next[j].1) by {
            assert(ranks_before(next[i], next[j]));
        }
    }
}

/// A step in full: one pass over all points by the centroids before it, and one update by
/// what that pass has found, which goes on with the generator where the last step left it.
/// What stands behind the assignments of the points is left.
pub proof fn law_step_is_a_pass_and_an_update<A: Arithmetic>(
    data: Seq<A::Value>,
    norms: Seq<A::Value>,
    k: int,
    dim: usize,
    block: usize,
    before: Progress<A::Value>,
    after: Progress<A::Value>,
)
    requires
        norms.len() <= before.assigned.len(),
        is_lloyd_step::<A>(data, norms, k, dim, false, block, before, after),
    ensures
        after.assigned.len() == before.assigned.len(),
        forall|i: int|
            norms.len() <= i < before.assigned.len() ==> #[trigger] after.assigned[i]
                == before.assigned[i],
        exists|
            columns: Seq<A::Value>,
            centroid_norms: Seq<A::Value>,
            summary: AssignmentSummary<A::Value>,
        | #[trigger]
            is_viewed::<A>(before.centroids, k, dim as int, columns, centroid_norms)
                && #[trigger] is_summarized::<A>(
                data,
                norms,
                dim,
                columns,
                centroid_norms,
                block,
                after.assigned.take(norms.len() as int),
                summary,
            ) && is_updated::<A>(
                data,
                dim as int,
                summary,
                k,
                before.centroids,
                before.generator,
                after.centroids,
                after.generator,
            ),
{
    let rows = norms.len() as int;
    let parts = lemma_parts_of_step::<A>(data, norms, k, dim, block, before, after);
    assert forall|i: int| rows <= i < before.assigned.len() implies #[trigger] after.assigned[i]
        == before.assigned[i] by {
        assert(after.assigned.skip(rows)[i - rows] == before.assigned.skip(rows)[i - rows]);
    }
}

} // verus!
