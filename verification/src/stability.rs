//! Centroids that are the points themselves stay where they are: with as many clusters
//! as points to train on, every cluster ends as one of the points.
use crate::arithmetic::{
    are_gap_squares, are_norms, are_point_distances, is_gap_square, is_norm, is_objective,
    is_squared_distance, is_sum, is_total_sum, Arithmetic,
};
use crate::assignment::{
    are_distance_keys, are_rows_nearest, is_batch_assigned, is_cell_key, is_nearest, is_product,
    is_row_nearest, lemma_assigned_below,
};
use crate::batch::{are_cluster_sums, is_tally, member_values, occurrences, ChunkResult};
use crate::batch_laws::lemma_row_in_batch;
use crate::centroids::{is_scaled, is_transposed};
use crate::clustering::{
    are_restarts, are_told, can_cluster, is_best_restart, is_clustering, is_evaluated, is_outcome,
    is_restart, is_selection, is_trained, restart_seed, KMeansConfig, KMeansResult, Restart,
};
use crate::determinism::{is_deterministic, lemma_same_rows};
use crate::laws::{law_every_row_has_one_batch, law_small_data_is_trained_on_whole};
use crate::layout::{
    contents, joined, lemma_joined_len, lemma_joined_row, lemma_product_monotone, lemma_row_fits,
    numbers, row, rows_at, rows_of,
};
use crate::lloyd::{is_finished, is_lloyd_run, is_lloyd_step, is_viewed, Progress};
use crate::random::{seeded_state, shuffle_outcome};
use crate::sampling::{
    initial_centroids, is_choice_of_rows, is_training_sample, lemma_every_row_is_chosen,
    shuffled_rows,
};
use crate::sweep::{
    chunk_count, chunk_data, chunk_end, chunk_items, chunk_start, chunk_sums, is_assigned,
    is_merged, is_summarized, is_swept, lemma_chunk_in_place, lemma_chunks, lemma_summarized,
    lemma_summarized_is_assigned, lemma_swept,
    AssignmentSummary,
};
use crate::update::{
    are_moved, are_rows, empty_count, is_mean, is_moved, is_pool, is_updated, reseeds,
};
use vstd::prelude::*;

verus! {

/// `key` is the distance key of row `r` of a batch and of centroid `c`.
pub open spec fn is_key_at<A: Arithmetic>(
    norm: A::Value,
    centroid_norm: A::Value,
    products: A::Products,
    columns: int,
    r: int,
    c: int,
    key: Option<i64>,
) -> bool {
    is_cell_key::<A>(norm, centroid_norm, products, (r * columns + c) as usize, key)
}

/// `key` is the distance key that some batch has for a point and a centroid.
pub open spec fn is_distance_of<A: Arithmetic>(
    point: Seq<A::Value>,
    centroid: Seq<A::Value>,
    dim: usize,
    key: Option<i64>,
) -> bool {
    exists|
        rows: usize,
        k: usize,
        batch: Seq<A::Value>,
        centroids: Seq<A::Value>,
        columns: Seq<A::Value>,
        products: A::Products,
        r: int,
        c: int,
        norm: A::Value,
        centroid_norm: A::Value,
    |
        0 <= r < rows && 0 <= c < k && batch.len() == rows * dim && k * dim <= centroids.len()
            && row(batch, r, dim as int) == point && row(centroids, c, dim as int) == centroid
            && #[trigger] is_norm::<A>(point, norm) && #[trigger] is_norm::<A>(
            centroid,
            centroid_norm,
        ) && #[trigger] is_transposed(centroids, k as int, dim as int, columns)
            && #[trigger] is_product::<A>(rows, dim, k, batch, columns, products)
            && #[trigger] is_key_at::<A>(norm, centroid_norm, products, k as int, r, c, key)
}

/// The distances of the points among one another are finite, and zero for a point and
/// itself alone. One point need not be told from any other.
pub open spec fn tells_apart<A: Arithmetic>(data: Seq<A::Value>, rows: int, dim: usize) -> bool {
    rows == 1 || forall|i: int, j: int, key: Option<i64>|
        0 <= i < rows && 0 <= j < rows && #[trigger] is_distance_of::<A>(
            row(data, i, dim as int),
            row(data, j, dim as int),
            dim,
            key,
        ) ==> key is Some && key.unwrap() < i64::MAX && (key == Some(0i64)) == (i == j)
}

/// Zero added to a coordinate and the mean of one coordinate change nothing.
pub open spec fn keeps_values<A: Arithmetic>(data: Seq<A::Value>) -> bool {
    &&& forall|zero: A::Value, other: A::Value, sum: A::Value| #[trigger]
        call_ensures(A::zero, (), zero) && #[trigger] call_ensures(A::plus, (zero, other), sum)
            && (data.contains(other) || call_ensures(A::zero, (), other)) ==> sum == other
    &&& forall|zero: A::Value, value: A::Value, sum: A::Value| #[trigger]
        call_ensures(A::zero, (), zero) && #[trigger] call_ensures(A::plus, (value, zero), sum)
            && data.contains(value) ==> sum == value
    &&& forall|one: A::Value, inverse: A::Value, value: A::Value, scaled: A::Value| #[trigger]
        call_ensures(A::from_count, (1usize,), one) && #[trigger] call_ensures(
            A::reciprocal,
            (one,),
            inverse,
        ) && #[trigger] call_ensures(A::times, (value, inverse), scaled) && data.contains(value)
            ==> scaled == value
}

/// The centroids are the points, centroid `c` the one of row `order[c]`.
pub open spec fn are_points<V>(
    data: Seq<V>,
    rows: int,
    dim: int,
    centroids: Seq<V>,
    order: Seq<usize>,
) -> bool {
    &&& is_choice_of_rows(order, rows, rows)
    &&& forall|c: int|
        0 <= c < rows ==> #[trigger] row(centroids, c, dim) == row(data, order[c] as int, dim)
}

/// Each point is assigned to the centroid that is the point itself.
proof fn lemma_points_find_themselves<A: Arithmetic>(
    data: Seq<A::Value>,
    norms: Seq<A::Value>,
    dim: usize,
    centroids: Seq<A::Value>,
    columns: Seq<A::Value>,
    centroid_norms: Seq<A::Value>,
    block: usize,
    order: Seq<usize>,
    assigned: Seq<usize>,
)
    requires
        block > 0,
        norms.len() <= usize::MAX,
        data.len() == norms.len() * dim,
        norms.len() * dim <= centroids.len(),
        tells_apart::<A>(data, norms.len() as int, dim),
        are_norms::<A>(data, norms.len() as int, dim as int, norms),
        are_points(data, norms.len() as int, dim as int, centroids, order),
        is_viewed::<A>(centroids, norms.len() as int, dim as int, columns, centroid_norms),
        is_assigned::<A>(data, norms, dim, columns, centroid_norms, block, assigned),
    ensures
        forall|r: int|
            0 <= r < norms.len() ==> (#[trigger] assigned[r]) < norms.len()
                && order[assigned[r] as int] == r,
{
    let rows = norms.len() as int;
    lemma_chunks(rows, block as int);
    assert forall|r: int| 0 <= r < rows implies (#[trigger] assigned[r]) < rows
        && order[assigned[r] as int] == r by {
        law_every_row_has_one_batch(rows, block as int, r);
        let i = choose|i: int|
            0 <= i < chunk_count(rows, block as int) && #[trigger] chunk_start(i, block as int)
                <= r < chunk_end(i, block as int, rows);
        lemma_row_in_batch(data, dim as int, rows, block as int, i, r);
        let start = chunk_start(i, block as int);
        let end = chunk_end(i, block as int, rows);
        let part = chunk_data(data, i, block as int, rows, dim as int);
        let part_norms = chunk_items(norms, i, block as int, rows);
        let part_assigned = chunk_items(assigned, i, block as int, rows);
        let keys = choose|keys: Seq<i64>| #[trigger]
            is_batch_assigned::<A>(
                part,
                part_norms,
                dim,
                columns,
                centroid_norms,
                part_assigned,
                keys,
            );
        if rows == 1 {
            lemma_assigned_below::<A>(
                part,
                part_norms,
                dim,
                columns,
                centroid_norms,
                part_assigned,
                keys,
            );
            assert(part_assigned[r - start] == assigned[r]);
            assert(order[0] == 0);
        }
        let p = choose|p: A::Products| #[trigger]
            is_product::<A>(
                part_norms.len() as usize,
                dim,
                rows as usize,
                part,
                columns,
                p,
            ) && are_rows_nearest::<A>(part_norms, centroid_norms, p, part_assigned, keys);
        let s = r - start;
        assert(is_row_nearest::<A>(
            part_norms[s],
            centroid_norms,
            p,
            s,
            part_assigned[s],
            keys[s],
        ));
        let x = choose|x: Seq<Option<i64>>| #[trigger]
            are_distance_keys::<A>(part_norms[s], centroid_norms, p, s, x) && x.len()
                == centroid_norms.len() && is_nearest(x, part_assigned[s] as int, keys[s]);
        assert(part.len() == part_norms.len() * dim) by {
            lemma_product_monotone(0, start, dim as int);
            lemma_product_monotone(start, end, dim as int);
            lemma_product_monotone(end, rows, dim as int);
            assert((end - start) * dim == end * dim - start * dim) by (nonlinear_arith);
        }
        assert forall|c: int| 0 <= c < rows && rows > 1 implies (#[trigger] x[c]) is Some && 0
            <= x[c].unwrap() < i64::MAX && (x[c] == Some(0i64)) == (r == order[c]) by {
            let place = (s * rows + c) as usize;
            assert(is_cell_key::<A>(part_norms[s], centroid_norms[c], p, place, x[c]));
            assert(is_key_at::<A>(part_norms[s], centroid_norms[c], p, rows, s, c, x[c]));
            assert(part_norms[s] == norms[r]);
            assert(is_norm::<A>(row(data, r, dim as int), norms[r]));
            assert(is_norm::<A>(row(centroids, c, dim as int), centroid_norms[c]));
            assert(is_distance_of::<A>(
                row(data, r, dim as int),
                row(data, order[c] as int, dim as int),
                dim,
                x[c],
            ));
        }
        if rows > 1 {
            let own = lemma_every_row_is_chosen(order, rows, r);
            assert(x[own] == Some(0i64));
            assert(x[part_assigned[s] as int] == Some(keys[s]));
            assert(part_assigned[s] == assigned[r]);
        }
    }
}

/// The sum of one coordinate is the coordinate, and that of none is zero.
proof fn lemma_sum_of_few<A: Arithmetic>(
    data: Seq<A::Value>,
    terms: Seq<A::Value>,
    place: int,
    total: A::Value,
)
    requires
        is_deterministic::<A>(),
        keeps_values::<A>(data),
        is_sum::<A>(terms, total),
        0 <= place < terms.len() ==> data.contains(terms[place]),
        forall|i: int|
            0 <= i < terms.len() && i != place ==> call_ensures(
                A::zero,
                (),
                #[trigger] terms[i],
            ),
    ensures
        0 <= place < terms.len() ==> total == terms[place],
        !(0 <= place < terms.len()) ==> call_ensures(A::zero, (), total),
    decreases terms.len(),
{
    if terms.len() > 0 {
        let fewer = terms.drop_last();
        let before = choose|before: A::Value|
            is_sum::<A>(fewer, before) && #[trigger] call_ensures(
                A::plus,
                (before, terms.last()),
                total,
            );
        assert forall|i: int| 0 <= i < fewer.len() && i != place implies call_ensures(
            A::zero,
            (),
            #[trigger] fewer[i],
        ) by {
            assert(fewer[i] == terms[i]);
        }
        lemma_sum_of_few::<A>(data, fewer, place, before);
        assert(terms.last() == terms[terms.len() - 1]);
    }
}

/// The coordinates of a cluster that has one point, or none.
proof fn lemma_members_of_one<T>(
    data: Seq<T>,
    dim: int,
    assigned: Seq<usize>,
    cluster: int,
    d: int,
    own: int,
)
    requires
        forall|r: int|
            0 <= r < assigned.len() ==> ((#[trigger] assigned[r]) == cluster <==> r == own),
    ensures
        member_values(data, dim, assigned, cluster, d) == if 0 <= own < assigned.len() {
            seq![data[own * dim + d]]
        } else {
            Seq::empty()
        },
    decreases assigned.len(),
{
    if assigned.len() > 0 {
        let fewer = assigned.drop_last();
        assert forall|r: int| 0 <= r < fewer.len() implies ((#[trigger] fewer[r]) == cluster
            <==> r == own) by {
            assert(fewer[r] == assigned[r]);
        }
        lemma_members_of_one(data, dim, fewer, cluster, d, own);
        assert(assigned.last() == assigned[assigned.len() - 1]);
        assert(member_values(data, dim, assigned, cluster, d) =~= if 0 <= own < assigned.len() {
            seq![data[own * dim + d]]
        } else {
            Seq::empty()
        });
    }
}

/// The sum of a cluster with one point is the point.
proof fn lemma_sum_is_the_point<A: Arithmetic>(
    data: Seq<A::Value>,
    norms: Seq<A::Value>,
    dim: usize,
    columns: Seq<A::Value>,
    centroid_norms: Seq<A::Value>,
    block: usize,
    assigned: Seq<usize>,
    summary: AssignmentSummary<A::Value>,
    c: int,
    own: int,
    d: int,
)
    requires
        is_deterministic::<A>(),
        keeps_values::<A>(data),
        block > 0,
        norms.len() <= usize::MAX,
        data.len() == norms.len() * dim,
        is_summarized::<A>(
            data,
            norms,
            dim,
            columns,
            centroid_norms,
            block,
            assigned,
            summary,
        ),
        0 <= c < centroid_norms.len(),
        0 <= own < norms.len(),
        0 <= d < dim,
        forall|r: int|
            0 <= r < norms.len() ==> ((#[trigger] assigned[r]) == c <==> r == own),
    ensures
        summary.sums@[c * dim + d] == data[own * dim + d],
{
    let rows = norms.len() as int;
    let k = centroid_norms.len() as int;
    let chunks = choose|chunks: Seq<ChunkResult<A::Value>>| #[trigger]
        is_swept::<A>(data, norms, dim, columns, centroid_norms, block, chunks) && is_merged::<A>(
            chunks,
            k,
            dim as int,
            assigned,
            summary,
        );
    lemma_chunks(rows, block as int);
    lemma_summarized::<A>(
        data,
        norms,
        dim,
        columns,
        centroid_norms,
        block,
        assigned,
        summary,
    );
    law_every_row_has_one_batch(rows, block as int, own);
    let home = choose|i: int|
        0 <= i < chunk_count(rows, block as int) && #[trigger] chunk_start(i, block as int) <= own
            < chunk_end(i, block as int, rows);
    lemma_row_fits(own, rows, dim as int);
    let value = data[own * dim + d];
    assert(data.contains(value));
    let place = c * dim + d;
    lemma_row_fits(c, k, dim as int);
    let terms = chunk_sums(chunks, place);
    assert(is_sum::<A>(terms, summary.sums@[place]));
    assert forall|i: int| 0 <= i < terms.len() implies if i == home {
        #[trigger] terms[i] == value
    } else {
        call_ensures(A::zero, (), terms[i])
    } by {
        let start = chunk_start(i, block as int);
        let end = chunk_end(i, block as int, rows);
        assert(0 <= start < end <= rows);
        lemma_swept::<A>(data, norms, dim, columns, centroid_norms, block, chunks, i);
        lemma_chunk_in_place::<A>(
            data,
            norms,
            dim,
            columns,
            centroid_norms,
            block,
            chunks,
            i,
        );
        let part = chunk_data(data, i, block as int, rows, dim as int);
        let list = chunks[i].assignments@;
        let inside = own - start;
        assert forall|r: int| 0 <= r < list.len() implies ((#[trigger] list[r]) == c <==> r
            == inside) by {
            assert(list[r] == chunk_items(assigned, i, block as int, rows)[r]);
        }
        lemma_members_of_one(part, dim as int, list, c, d, inside);
        let members = member_values(part, dim as int, list, c, d);
        assert(are_cluster_sums::<A>(part, dim as int, list, k, chunks[i].sums@));
        assert(is_sum::<A>(members, chunks[i].sums@[c * dim + d]));
        if i == home {
            lemma_row_in_batch(data, dim as int, rows, block as int, i, own);
            lemma_product_monotone(0, start, dim as int);
            lemma_product_monotone(start, end, dim as int);
            lemma_product_monotone(end, rows, dim as int);
            assert((end - start) * dim == end * dim - start * dim) by (nonlinear_arith);
            lemma_row_fits(inside, end - start, dim as int);
            assert(row(part, inside, dim as int)[d] == row(data, own, dim as int)[d]);
            assert(members[0] == value);
            lemma_sum_of_few::<A>(data, members, 0, chunks[i].sums@[place]);
        } else {
            assert(!(0 <= inside < list.len()));
            lemma_sum_of_few::<A>(data, members, -1, chunks[i].sums@[place]);
        }
    }
    assert(terms[home] == value);
    assert forall|i: int| 0 <= i < terms.len() && i != home implies call_ensures(
        A::zero,
        (),
        #[trigger] terms[i],
    ) by {}
    lemma_sum_of_few::<A>(data, terms, home, summary.sums@[place]);
}

/// Each of the points is alone in its cluster.
proof fn lemma_each_alone(order: Seq<usize>, rows: int, assigned: Seq<usize>, c: int)
    requires
        is_choice_of_rows(order, rows, rows),
        assigned.len() == rows,
        forall|r: int|
            0 <= r < rows ==> (#[trigger] assigned[r]) < rows && order[assigned[r] as int] == r,
        0 <= c < rows,
    ensures
        forall|r: int| 0 <= r < rows ==> ((#[trigger] assigned[r]) == c <==> r == order[c]),
        assigned.no_duplicates(),
        c <= usize::MAX,
        occurrences(assigned, c) == 1,
{
    broadcast use vstd::seq_lib::group_to_multiset_ensures;

    let own = order[c] as int;
    assert(order[assigned[own] as int] == order[c]);
    assert(assigned[own] == c);
    assert(assigned.contains(c as usize));
    assigned.lemma_multiset_has_no_duplicates();
}

/// Where each centroid is one of the points, and no other centroid is, a step assigns
/// each point to itself and leaves the centroids as they are.
pub proof fn law_points_stay_where_they_are<A: Arithmetic>(
    data: Seq<A::Value>,
    norms: Seq<A::Value>,
    dim: usize,
    block: usize,
    order: Seq<usize>,
    before: Progress<A::Value>,
    after: Progress<A::Value>,
)
    requires
        is_deterministic::<A>(),
        tells_apart::<A>(data, norms.len() as int, dim),
        keeps_values::<A>(data),
        block > 0,
        dim > 0,
        0 < norms.len() <= usize::MAX,
        data.len() == norms.len() * dim,
        are_norms::<A>(data, norms.len() as int, dim as int, norms),
        before.centroids.len() == norms.len() * dim,
        before.assigned.len() == norms.len(),
        are_points(data, norms.len() as int, dim as int, before.centroids, order),
        is_lloyd_step::<A>(data, norms, norms.len() as int, dim, false, block, before, after),
    ensures
        after.centroids == before.centroids,
        forall|r: int|
            0 <= r < norms.len() ==> (#[trigger] after.assigned[r]) < norms.len()
                && order[after.assigned[r] as int] == r,
{
    let rows = norms.len() as int;
    let assigned = after.assigned.take(rows);
    let (columns, centroid_norms, summary, moved) = choose|
        columns: Seq<A::Value>,
        centroid_norms: Seq<A::Value>,
        summary: AssignmentSummary<A::Value>,
        moved: Seq<A::Value>,
    | #[trigger]
        is_viewed::<A>(before.centroids, rows, dim as int, columns, centroid_norms)
            && #[trigger] is_summarized::<A>(
            data,
            norms,
            dim,
            columns,
            centroid_norms,
            block,
            assigned,
            summary,
        ) && #[trigger] is_updated::<A>(
            data,
            dim as int,
            summary,
            rows,
            before.centroids,
            before.generator,
            moved,
            after.generator,
        ) && is_finished::<A>(moved, rows, dim as int, false, after.centroids);
    lemma_summarized_is_assigned::<A>(
        data,
        norms,
        dim,
        columns,
        centroid_norms,
        block,
        assigned,
        summary,
    );
    lemma_points_find_themselves::<A>(
        data,
        norms,
        dim,
        before.centroids,
        columns,
        centroid_norms,
        block,
        order,
        assigned,
    );
    assert forall|r: int| 0 <= r < rows implies (#[trigger] after.assigned[r]) < rows
        && order[after.assigned[r] as int] == r by {
        assert(assigned[r] == after.assigned[r]);
    }
    let pool = choose|pool: Seq<usize>| #[trigger]
        is_pool(summary.candidates@, pool) && ({
            let (replacements, rest) = reseeds(
                summary.counts@.take(rows),
                pool,
                (data.len() as int / dim as int) as usize,
                before.generator,
            );
            are_moved::<A>(
                data,
                dim as int,
                summary.counts@,
                summary.sums@,
                replacements,
                rows,
                before.centroids,
                moved,
            ) && after.generator == rest && are_rows(
                replacements,
                data.len() as int / dim as int,
                empty_count(summary.counts@.take(rows)),
            )
        });
    let replacements = reseeds(
        summary.counts@.take(rows),
        pool,
        (data.len() as int / dim as int) as usize,
        before.generator,
    ).0;
    assert forall|c: int| 0 <= c < rows implies #[trigger] row(moved, c, dim as int) == row(
        before.centroids,
        c,
        dim as int,
    ) by {
        lemma_each_alone(order, rows, assigned, c);
        assert(is_tally(assigned, summary.counts@));
        assert(summary.counts@[c] == 1);
        let own = order[c] as int;
        let centroid = row(moved, c, dim as int);
        assert(is_moved::<A>(
            data,
            dim as int,
            summary.counts@,
            summary.sums@,
            replacements,
            c,
            centroid,
        ));
        let sums = row(summary.sums@, c, dim as int);
        assert(is_mean::<A>(sums, 1, centroid));
        let (divisor, inverse) = choose|divisor: A::Value, inverse: A::Value| #[trigger]
            call_ensures(A::from_count, (1usize,), divisor) && #[trigger] call_ensures(
                A::reciprocal,
                (divisor,),
                inverse,
            ) && is_scaled::<A>(sums, inverse, centroid);
        lemma_row_fits(c, rows, dim as int);
        lemma_row_fits(own, rows, dim as int);
        assert forall|d: int| 0 <= d < dim implies centroid[d] == row(data, own, dim as int)[d] by {
            lemma_sum_is_the_point::<A>(
                data,
                norms,
                dim,
                columns,
                centroid_norms,
                block,
                assigned,
                summary,
                c,
                own,
                d,
            );
            assert(data.contains(data[own * dim + d]));
            assert(call_ensures(A::times, (sums[d], inverse), centroid[d]));
        }
        assert(centroid =~= row(data, own, dim as int));
        assert(row(before.centroids, c, dim as int) == row(data, own, dim as int));
    }
    lemma_same_rows(moved, before.centroids, rows, dim as int);
}

/// The same of any number of steps.
proof fn lemma_points_stay<A: Arithmetic>(
    data: Seq<A::Value>,
    norms: Seq<A::Value>,
    dim: usize,
    block: usize,
    order: Seq<usize>,
    steps: nat,
    before: Progress<A::Value>,
    after: Progress<A::Value>,
)
    requires
        is_deterministic::<A>(),
        tells_apart::<A>(data, norms.len() as int, dim),
        keeps_values::<A>(data),
        block > 0,
        dim > 0,
        0 < norms.len() <= usize::MAX,
        data.len() == norms.len() * dim,
        are_norms::<A>(data, norms.len() as int, dim as int, norms),
        before.centroids.len() == norms.len() * dim,
        before.assigned.len() == norms.len(),
        are_points(data, norms.len() as int, dim as int, before.centroids, order),
        is_lloyd_run::<A>(
            data,
            norms,
            norms.len() as int,
            dim,
            false,
            block,
            steps,
            before,
            after,
        ),
    ensures
        after.centroids == before.centroids,
        after.assigned.len() == norms.len(),
    decreases steps,
{
    if steps > 0 {
        let between = choose|between: Progress<A::Value>|
            is_lloyd_run::<A>(
                data,
                norms,
                norms.len() as int,
                dim,
                false,
                block,
                (steps - 1) as nat,
                before,
                between,
            ) && #[trigger] is_lloyd_step::<A>(
                data,
                norms,
                norms.len() as int,
                dim,
                false,
                block,
                between,
                after,
            );
        lemma_points_stay::<A>(
            data,
            norms,
            dim,
            block,
            order,
            (steps - 1) as nat,
            before,
            between,
        );
        law_points_stay_where_they_are::<A>(data, norms, dim, block, order, between, after);
    }
}

/// Training on as many points as there are clusters ends at those points, whatever the
/// seed: each centroid is one of them, and each of them is a centroid. So training on
/// one point for one cluster ends at that point.
pub proof fn law_training_on_one_point_each_ends_there<A: Arithmetic>(
    training: Seq<A::Value>,
    rows: usize,
    dim: usize,
    config: KMeansConfig,
    seed: u64,
    centroids: Seq<A::Value>,
)
    requires
        is_deterministic::<A>(),
        tells_apart::<A>(training, rows as int, dim),
        keeps_values::<A>(training),
        config.decode_block_size > 0,
        !config.spherical,
        dim > 0,
        rows > 0,
        training.len() == rows * dim,
        is_trained::<A>(training, rows, rows as int, dim, config, seed, centroids),
    ensures
        are_points(
            training,
            rows as int,
            dim as int,
            centroids,
            shuffled_rows(seeded_state(seed), rows, rows as int),
        ),
        centroids.len() == rows * dim,
{
    let order = shuffled_rows(seeded_state(seed), rows, rows as int);
    let start = Progress {
        centroids: initial_centroids(
            training,
            rows,
            dim as int,
            rows as int,
            seeded_state(seed),
        ),
        assigned: Seq::new(rows as nat, |i: int| 0usize),
        generator: shuffle_outcome(seeded_state(seed), numbers(rows)).1,
    };
    let (norms, end) = choose|norms: Seq<A::Value>, end: Progress<A::Value>| #[trigger]
        are_norms::<A>(training, rows as int, dim as int, norms) && #[trigger] is_lloyd_run::<A>(
            training,
            norms,
            rows as int,
            dim,
            config.spherical,
            config.decode_block_size,
            config.niter as nat,
            start,
            end,
        ) && centroids == end.centroids;
    let parts = rows_at(training, order, dim as int);
    assert forall|c: int| 0 <= c < parts.len() implies (#[trigger] parts[c]).len() == dim by {
        lemma_row_fits(order[c] as int, rows as int, dim as int);
    }
    assert forall|c: int| 0 <= c < rows implies #[trigger] row(start.centroids, c, dim as int)
        == row(training, order[c] as int, dim as int) by {
        lemma_joined_row(parts, c, dim as int);
    }
    lemma_points_stay::<A>(
        training,
        norms,
        dim,
        config.decode_block_size,
        order,
        config.niter as nat,
        start,
        end,
    );
}

/// A coordinate has no distance to itself, and nothing comes of adding that up.
pub open spec fn has_no_distance_to_itself<A: Arithmetic>(data: Seq<A::Value>) -> bool {
    &&& forall|value: A::Value, square: A::Total| #[trigger]
        is_gap_square::<A>(value, value, square) && data.contains(value) ==> call_ensures(
            A::total_zero,
            (),
            square,
        )
    &&& forall|zero: A::Total, other: A::Total, sum: A::Total| #[trigger]
        call_ensures(A::total_plus, (zero, other), sum) && call_ensures(A::total_zero, (), zero)
            && call_ensures(A::total_zero, (), other) ==> call_ensures(A::total_zero, (), sum)
}

proof fn lemma_sum_of_zeros<A: Arithmetic>(
    data: Seq<A::Value>,
    terms: Seq<A::Total>,
    total: A::Total,
)
    requires
        has_no_distance_to_itself::<A>(data),
        is_total_sum::<A>(terms, total),
        forall|i: int|
            0 <= i < terms.len() ==> call_ensures(A::total_zero, (), #[trigger] terms[i]),
    ensures
        call_ensures(A::total_zero, (), total),
    decreases terms.len(),
{
    if terms.len() > 0 {
        let fewer = terms.drop_last();
        let before = choose|before: A::Total|
            is_total_sum::<A>(fewer, before) && #[trigger] call_ensures(
                A::total_plus,
                (before, terms.last()),
                total,
            );
        assert forall|i: int| 0 <= i < fewer.len() implies call_ensures(
            A::total_zero,
            (),
            #[trigger] fewer[i],
        ) by {
            assert(fewer[i] == terms[i]);
        }
        lemma_sum_of_zeros::<A>(data, fewer, before);
        assert(terms.last() == terms[terms.len() - 1]);
    }
}

/// Where each point is assigned to itself the objective is zero.
proof fn lemma_objective_is_zero<A: Arithmetic>(
    data: Seq<A::Value>,
    centroids: Seq<A::Value>,
    assigned: Seq<usize>,
    rows: int,
    dim: int,
    objective: A::Total,
)
    requires
        has_no_distance_to_itself::<A>(data),
        0 <= dim,
        data.len() == rows * dim,
        forall|r: int|
            0 <= r < rows ==> row(centroids, #[trigger] assigned[r] as int, dim) == row(
                data,
                r,
                dim,
            ),
        is_objective::<A>(data, centroids, assigned, rows, dim, objective),
    ensures
        call_ensures(A::total_zero, (), objective),
{
    let distances = choose|distances: Seq<A::Total>| #[trigger]
        are_point_distances::<A>(data, centroids, assigned, rows, dim, distances)
            && is_total_sum::<A>(distances, objective);
    assert forall|r: int| 0 <= r < rows implies call_ensures(
        A::total_zero,
        (),
        #[trigger] distances[r],
    ) by {
        let point = row(data, r, dim);
        assert(row(centroids, assigned[r] as int, dim) == point);
        assert(is_squared_distance::<A>(point, point, distances[r]));
        let squares = choose|squares: Seq<A::Total>| #[trigger]
            are_gap_squares::<A>(point, point, squares) && is_total_sum::<A>(
                squares,
                distances[r],
            );
        lemma_row_fits(r, rows, dim);
        assert forall|d: int| 0 <= d < squares.len() implies call_ensures(
            A::total_zero,
            (),
            #[trigger] squares[d],
        ) by {
            assert(point[d] == data[r * dim + d]);
            assert(data.contains(point[d]));
            assert(is_gap_square::<A>(point[d], point[d], squares[d]));
        }
        lemma_sum_of_zeros::<A>(data, squares, distances[r]);
    }
    lemma_sum_of_zeros::<A>(data, distances, objective);
}

/// With as many clusters as points, every point ends as the centroid of a cluster of
/// its own, and the objective is zero.
pub proof fn law_as_many_clusters_as_points<A: Arithmetic>(
    data: Seq<Vec<A::Value>>,
    k: usize,
    config: KMeansConfig,
    result: KMeansResult<A::Value, A::Total>,
)
    requires
        is_deterministic::<A>(),
        tells_apart::<A>(joined(contents(data)), k as int, data[0]@.len() as usize),
        keeps_values::<A>(joined(contents(data))),
        has_no_distance_to_itself::<A>(joined(contents(data))),
        can_cluster(
            data,
            k,
            config.niter,
            config.nredo,
            config.max_points_per_centroid,
            config.decode_block_size,
        ),
        data.len() == k,
        !config.spherical,
        is_clustering::<A>(data, k, config, result),
    ensures
        forall|r: int|
            0 <= r < k ==> (#[trigger] result.assignments@[r]) < k
                && result.centroids@[result.assignments@[r] as int]@ == data[r]@,
        result.assignments@.len() == k,
        result.assignments@.no_duplicates(),
        call_ensures(A::total_zero, (), result.objective),
{
    let flattened = joined(contents(data));
    let width = data[0]@.len() as int;
    assert(width <= data.len() * width) by (nonlinear_arith)
        requires
            0 <= width,
            data.len() >= 1,
    ;
    let dim = width as usize;
    let parts = contents(data);
    assert forall|i: int| 0 <= i < parts.len() implies (#[trigger] parts[i]).len() == dim by {
        assert(data[i]@.len() == data[0]@.len());
    }
    lemma_joined_len(parts, dim as int);
    let (training_rows, restarts) = choose|
        training_rows: usize,
        restarts: Seq<Restart<A::Total>>,
    | #[trigger]
        is_outcome::<A>(data, k, config, training_rows, restarts, result);
    let (indices, left) = choose|indices: Seq<usize>, left: Seq<u64>| #[trigger]
        is_training_sample(
            k,
            k as int,
            config.max_points_per_centroid as int,
            seeded_state(config.seed),
            indices,
            left,
        ) && training_rows == indices.len() && is_best_restart::<A>(
            flattened,
            k as int,
            joined(rows_at(flattened, indices, dim as int)),
            training_rows,
            k as int,
            dim,
            config,
            restarts,
            result,
        );
    law_small_data_is_trained_on_whole(
        flattened,
        k,
        dim as int,
        k as int,
        config.max_points_per_centroid as int,
        seeded_state(config.seed),
        indices,
        left,
    );
    let (results, chosen) = choose|
        results: Seq<KMeansResult<A::Value, A::Total>>,
        chosen: int,
    | #[trigger]
        are_restarts::<A>(
            flattened,
            k as int,
            flattened,
            training_rows,
            k as int,
            dim,
            config,
            results,
        ) && are_told(results, restarts) && #[trigger] is_selection::<A>(restarts, chosen) && 0
            <= chosen < results.len() && result == results[chosen];
    assert(training_rows == k);
    let seed = restart_seed(config.seed, chosen);
    assert(is_restart::<A>(
        flattened,
        k as int,
        flattened,
        k,
        k as int,
        dim,
        config,
        seed,
        results[chosen],
    ));
    let centroids = choose|centroids: Seq<A::Value>| #[trigger]
        is_trained::<A>(flattened, k, k as int, dim, config, seed, centroids) && is_evaluated::<
            A,
        >(
            flattened,
            k as int,
            k as int,
            dim,
            config.decode_block_size,
            centroids,
            result.assignments@,
            result.objective,
        ) && contents(result.centroids@) == rows_of(centroids, k as int, dim as int);
    law_training_on_one_point_each_ends_there::<A>(flattened, k, dim, config, seed, centroids);
    let order = shuffled_rows(seeded_state(seed), k, k as int);
    let (norms, columns, centroid_norms) = choose|
        norms: Seq<A::Value>,
        columns: Seq<A::Value>,
        centroid_norms: Seq<A::Value>,
    | #[trigger]
        are_norms::<A>(flattened, k as int, dim as int, norms) && #[trigger] is_viewed::<A>(
            centroids,
            k as int,
            dim as int,
            columns,
            centroid_norms,
        ) && is_assigned::<A>(
            flattened,
            norms,
            dim,
            columns,
            centroid_norms,
            config.decode_block_size,
            result.assignments@,
        );
    lemma_points_find_themselves::<A>(
        flattened,
        norms,
        dim,
        centroids,
        columns,
        centroid_norms,
        config.decode_block_size,
        order,
        result.assignments@,
    );
    lemma_each_alone(order, k as int, result.assignments@, 0);
    assert forall|r: int| 0 <= r < k implies row(
        centroids,
        #[trigger] result.assignments@[r] as int,
        dim as int,
    ) == row(flattened, r, dim as int) by {}
    lemma_objective_is_zero::<A>(
        flattened,
        centroids,
        result.assignments@,
        k as int,
        dim as int,
        result.objective,
    );
    assert forall|r: int| 0 <= r < k implies (#[trigger] result.assignments@[r]) < k
        && result.centroids@[result.assignments@[r] as int]@ == data[r]@ by {
        let c = result.assignments@[r] as int;
        assert(contents(result.centroids@).len() == k);
        assert(contents(result.centroids@)[c] == row(centroids, c, dim as int));
        lemma_joined_row(parts, r, dim as int);
    }
}

} // verus!
