//! What the size of the batches leaves as it is.
use crate::arithmetic::{is_sum, Arithmetic};
use crate::assignment::{
    are_distance_keys, are_rows_nearest, is_batch_assigned, is_cell_key, is_distance_key,
    is_nearest, is_product, is_row_nearest,
};
use crate::batch::{are_cluster_sums, is_tally, member_values, ChunkResult};
use crate::determinism::{
    is_deterministic, lemma_same_all_normalized, lemma_same_farthest, lemma_same_rows,
};
use crate::laws::{law_every_row_has_one_batch, lemma_reseeds_from_pool};
use crate::layout::{joined, lemma_cell_exists, lemma_product_monotone, row};
use crate::lloyd::{is_finished, is_lloyd_step, is_viewed, Progress};
use crate::ranking::{is_farthest, RESEED_CANDIDATES};
use crate::reproducibility::{lemma_same_update, lemma_same_views};
use crate::reseed_laws::{are_assigned_at, first_of_pool, law_pool_begins_with_the_farthest};
use crate::sampling::least;
use crate::sweep::{
    chunk_assignments, chunk_count, chunk_data, chunk_end, chunk_items, chunk_start, chunk_sums,
    is_assigned, is_merged, is_summarized, is_swept, lemma_chunks, lemma_joined_assignments_len,
    lemma_summarized_is_assigned, lemma_swept, AssignmentSummary,
};
use crate::update::{empty_count, is_pool, is_updated, reseeds};
use vstd::prelude::*;

verus! {

/// `value` is the entry of a product in row `r` and column `c`.
pub open spec fn is_entry<A: Arithmetic>(
    products: A::Products,
    columns: int,
    r: int,
    c: int,
    value: A::Value,
) -> bool {
    call_ensures(A::entry, (&products, (r * columns + c) as usize), value)
}

/// An entry of a product of matrices comes of its row of the left one and of the right
/// one alone: neither the other rows nor their number has a part in it.
pub open spec fn multiplies_by_rows<A: Arithmetic>() -> bool {
    forall|
        m: usize,
        n: usize,
        inner: usize,
        columns: usize,
        left: Seq<A::Value>,
        other: Seq<A::Value>,
        right: Seq<A::Value>,
        p: A::Products,
        q: A::Products,
        r: int,
        s: int,
        c: int,
        x: A::Value,
        y: A::Value,
    |
        #![trigger
            is_product::<A>(m, inner, columns, left, right, p),
            is_product::<A>(n, inner, columns, other, right, q),
            is_entry::<A>(p, columns as int, r, c, x),
            is_entry::<A>(q, columns as int, s, c, y)
        ]
        is_product::<A>(m, inner, columns, left, right, p) && is_product::<A>(
            n,
            inner,
            columns,
            other,
            right,
            q,
        ) && 0 <= r < m && 0 <= s < n && 0 <= c < columns && row(left, r, inner as int) == row(
            other,
            s,
            inner as int,
        ) && is_entry::<A>(p, columns as int, r, c, x) && is_entry::<A>(
            q,
            columns as int,
            s,
            c,
            y,
        ) ==> x == y
}

/// A point is assigned to the same cluster, at the same distance, in every batch that
/// it stands in.
proof fn lemma_same_point<A: Arithmetic>(
    dim: usize,
    columns: Seq<A::Value>,
    centroid_norms: Seq<A::Value>,
    data: Seq<A::Value>,
    norms: Seq<A::Value>,
    assigned: Seq<usize>,
    keys: Seq<i64>,
    r: int,
    other_data: Seq<A::Value>,
    other_norms: Seq<A::Value>,
    other_assigned: Seq<usize>,
    other_keys: Seq<i64>,
    s: int,
)
    requires
        is_deterministic::<A>(),
        multiplies_by_rows::<A>(),
        centroid_norms.len() <= usize::MAX,
        norms.len() <= usize::MAX,
        other_norms.len() <= usize::MAX,
        is_batch_assigned::<A>(data, norms, dim, columns, centroid_norms, assigned, keys),
        is_batch_assigned::<A>(
            other_data,
            other_norms,
            dim,
            columns,
            centroid_norms,
            other_assigned,
            other_keys,
        ),
        0 <= r < norms.len(),
        0 <= s < other_norms.len(),
        row(data, r, dim as int) == row(other_data, s, dim as int),
        norms[r] == other_norms[s],
    ensures
        assigned[r] == other_assigned[s],
        keys[r] == other_keys[s],
{
    let k = centroid_norms.len() as usize;
    let rows = norms.len() as usize;
    let other_rows = other_norms.len() as usize;
    let p = choose|p: A::Products| #[trigger]
        is_product::<A>(rows, dim, k, data, columns, p) && are_rows_nearest::<A>(
            norms,
            centroid_norms,
            p,
            assigned,
            keys,
        );
    let q = choose|q: A::Products| #[trigger]
        is_product::<A>(other_rows, dim, k, other_data, columns, q) && are_rows_nearest::<A>(
            other_norms,
            centroid_norms,
            q,
            other_assigned,
            other_keys,
        );
    assert(is_row_nearest::<A>(norms[r], centroid_norms, p, r, assigned[r], keys[r]));
    assert(is_row_nearest::<A>(
        other_norms[s],
        centroid_norms,
        q,
        s,
        other_assigned[s],
        other_keys[s],
    ));
    let x = choose|x: Seq<Option<i64>>| #[trigger]
        are_distance_keys::<A>(norms[r], centroid_norms, p, r, x) && x.len()
            == centroid_norms.len() && is_nearest(x, assigned[r] as int, keys[r]);
    let y = choose|y: Seq<Option<i64>>| #[trigger]
        are_distance_keys::<A>(other_norms[s], centroid_norms, q, s, y) && y.len()
            == centroid_norms.len() && is_nearest(y, other_assigned[s] as int, other_keys[s]);
    assert forall|c: int| 0 <= c < x.len() implies x[c] == y[c] by {
        let place = (r * centroid_norms.len() + c) as usize;
        let other_place = (s * centroid_norms.len() + c) as usize;
        assert(is_cell_key::<A>(norms[r], centroid_norms[c], p, place, x[c]));
        assert(is_cell_key::<A>(other_norms[s], centroid_norms[c], q, other_place, y[c]));
        let v = choose|v: A::Value| #[trigger]
            call_ensures(A::entry, (&p, place), v) && is_distance_key::<A>(
                norms[r],
                centroid_norms[c],
                v,
                x[c],
            );
        let w = choose|w: A::Value| #[trigger]
            call_ensures(A::entry, (&q, other_place), w) && is_distance_key::<A>(
                other_norms[s],
                centroid_norms[c],
                w,
                y[c],
            );
        assert(is_entry::<A>(p, k as int, r, c, v));
        assert(is_entry::<A>(q, k as int, s, c, w));
        assert(v == w);
    }
    assert(x =~= y);
    if keys[r] < i64::MAX {
        assert(x[assigned[r] as int] == Some(keys[r]));
    }
    if other_keys[s] < i64::MAX {
        assert(x[other_assigned[s] as int] == Some(other_keys[s]));
    }
}

/// A row of the data stands in its batch, as many rows from the start of it as its
/// number is above that of the first.
pub(crate) proof fn lemma_row_in_batch<T>(
    data: Seq<T>,
    dim: int,
    rows: int,
    block: int,
    i: int,
    r: int,
)
    requires
        0 < block,
        0 <= dim,
        0 <= i < chunk_count(rows, block),
        0 <= chunk_start(i, block) <= r < chunk_end(i, block, rows) <= rows,
        data.len() == rows * dim,
    ensures
        row(chunk_data(data, i, block, rows, dim), r - chunk_start(i, block), dim) == row(
            data,
            r,
            dim,
        ),
{
    let start = chunk_start(i, block);
    let end = chunk_end(i, block, rows);
    let inside = r - start;
    lemma_product_monotone(0, start, dim);
    lemma_product_monotone(start, end, dim);
    lemma_product_monotone(end, rows, dim);
    lemma_product_monotone(0, inside, dim);
    lemma_product_monotone(inside + 1, end - start, dim);
    assert((end - start) * dim == end * dim - start * dim) by (nonlinear_arith);
    assert((start + inside) * dim == start * dim + inside * dim) by (nonlinear_arith);
    assert((start + inside + 1) * dim == start * dim + (inside + 1) * dim) by (nonlinear_arith);
    assert((inside + 1) * dim == inside * dim + dim) by (nonlinear_arith);
    assert(row(chunk_data(data, i, block, rows, dim), inside, dim) =~= row(data, r, dim));
}

/// The size of the batches has no part in the assignments, where an entry of a product
/// of matrices does not depend on the rows beside its own.
pub proof fn law_batch_size_leaves_assignments<A: Arithmetic>(
    data: Seq<A::Value>,
    norms: Seq<A::Value>,
    dim: usize,
    columns: Seq<A::Value>,
    centroid_norms: Seq<A::Value>,
    block: usize,
    other_block: usize,
    assigned: Seq<usize>,
    other_assigned: Seq<usize>,
)
    requires
        is_deterministic::<A>(),
        multiplies_by_rows::<A>(),
        block > 0,
        other_block > 0,
        data.len() == norms.len() * dim,
        norms.len() <= usize::MAX,
        centroid_norms.len() <= usize::MAX,
        is_assigned::<A>(data, norms, dim, columns, centroid_norms, block, assigned),
        is_assigned::<A>(data, norms, dim, columns, centroid_norms, other_block, other_assigned),
    ensures
        assigned == other_assigned,
{
    let rows = norms.len() as int;
    lemma_chunks(rows, block as int);
    lemma_chunks(rows, other_block as int);
    assert forall|r: int| 0 <= r < rows implies assigned[r] == other_assigned[r] by {
        law_every_row_has_one_batch(rows, block as int, r);
        law_every_row_has_one_batch(rows, other_block as int, r);
        let i = choose|i: int|
            0 <= i < chunk_count(rows, block as int) && #[trigger] chunk_start(i, block as int)
                <= r < chunk_end(i, block as int, rows);
        let j = choose|j: int|
            0 <= j < chunk_count(rows, other_block as int) && #[trigger] chunk_start(
                j,
                other_block as int,
            ) <= r < chunk_end(j, other_block as int, rows);
        lemma_row_in_batch(data, dim as int, rows, block as int, i, r);
        lemma_row_in_batch(data, dim as int, rows, other_block as int, j, r);
        let part = chunk_data(data, i, block as int, rows, dim as int);
        let part_norms = chunk_items(norms, i, block as int, rows);
        let part_assigned = chunk_items(assigned, i, block as int, rows);
        let keys = choose|keys: Seq<i64>| #[trigger]
            is_batch_assigned::<A>(
                part,
                part_norms,
                dim,
                columns,
                centroid_norms,
                part_assigned,
                keys,
            );
        let other_part = chunk_data(data, j, other_block as int, rows, dim as int);
        let other_norms = chunk_items(norms, j, other_block as int, rows);
        let other_part_assigned = chunk_items(other_assigned, j, other_block as int, rows);
        let other_keys = choose|keys: Seq<i64>| #[trigger]
            is_batch_assigned::<A>(
                other_part,
                other_norms,
                dim,
                columns,
                centroid_norms,
                other_part_assigned,
                keys,
            );
        lemma_same_point::<A>(
            dim,
            columns,
            centroid_norms,
            part,
            part_norms,
            part_assigned,
            keys,
            r - chunk_start(i, block as int),
            other_part,
            other_norms,
            other_part_assigned,
            other_keys,
            r - chunk_start(j, other_block as int),
        );
    }
    assert(assigned =~= other_assigned);
}

/// The integer that a value stands for, where it stands for one.
pub open spec fn stands_for<V>(number: spec_fn(V) -> Option<int>, value: V, n: int) -> bool {
    number(value) == Some(n)
}

/// Sums of whole numbers up to `bound`, either way from zero, are exact. `number` says
/// which values stand for whole numbers.
pub open spec fn adds_exactly<A: Arithmetic>(
    number: spec_fn(A::Value) -> Option<int>,
    bound: int,
) -> bool {
    &&& forall|zero: A::Value| #[trigger]
        call_ensures(A::zero, (), zero) ==> stands_for(number, zero, 0)
    &&& forall|a: A::Value, b: A::Value, sum: A::Value| #[trigger]
        call_ensures(A::plus, (a, b), sum) && number(a) is Some && number(b) is Some && -bound
            <= number(a).unwrap() + number(b).unwrap() <= bound ==> stands_for(
            number,
            sum,
            number(a).unwrap() + number(b).unwrap(),
        )
}

/// No two values stand for one number.
pub open spec fn are_numbers_unique<V>(number: spec_fn(V) -> Option<int>) -> bool {
    forall|a: V, b: V|
        #![trigger number(a), number(b)]
        number(a) is Some && number(a) == number(b) ==> a == b
}

/// Every value stands for a whole number of at most `limit`, either way from zero.
pub open spec fn are_numbers_within<V>(
    number: spec_fn(V) -> Option<int>,
    values: Seq<V>,
    limit: int,
) -> bool {
    forall|i: int|
        0 <= i < values.len() ==> number(#[trigger] values[i]) is Some && -limit <= number(
            values[i],
        ).unwrap() <= limit
}

/// The sum of the numbers that the values stand for.
pub open spec fn number_sum<V>(number: spec_fn(V) -> Option<int>, values: Seq<V>) -> int
    decreases values.len(),
{
    if values.len() == 0 {
        0
    } else {
        number_sum(number, values.drop_last()) + number(values.last()).unwrap()
    }
}

proof fn lemma_number_sum_adds<V>(
    number: spec_fn(V) -> Option<int>,
    first: Seq<V>,
    second: Seq<V>,
)
    ensures
        number_sum(number, first + second) == number_sum(number, first) + number_sum(
            number,
            second,
        ),
    decreases second.len(),
{
    if second.len() == 0 {
        assert(first + second =~= first);
    } else {
        lemma_number_sum_adds(number, first, second.drop_last());
        assert((first + second).drop_last() =~= first + second.drop_last());
        assert((first + second).last() == second.last());
    }
}

/// A sum of small numbers is small.
pub(crate) proof fn lemma_number_sum_within<V>(
    number: spec_fn(V) -> Option<int>,
    values: Seq<V>,
    limit: int,
)
    requires
        are_numbers_within(number, values, limit),
    ensures
        -(values.len() * limit) <= number_sum(number, values) <= values.len() * limit,
    decreases values.len(),
{
    if values.len() > 0 {
        let fewer = values.drop_last();
        assert forall|i: int| 0 <= i < fewer.len() implies number(#[trigger] fewer[i]) is Some
            && -limit <= number(fewer[i]).unwrap() <= limit by {
            assert(fewer[i] == values[i]);
        }
        lemma_number_sum_within(number, fewer, limit);
        assert(values.last() == values[values.len() - 1]);
        assert(values.len() * limit == fewer.len() * limit + limit) by (nonlinear_arith)
            requires
                values.len() == fewer.len() + 1,
        ;
    } else {
        assert(values.len() * limit == 0) by (nonlinear_arith)
            requires
                values.len() == 0,
        ;
    }
}

/// A sum is exact where the numbers that it passes through are within the bound.
pub(crate) proof fn lemma_sum_is_exact<A: Arithmetic>(
    number: spec_fn(A::Value) -> Option<int>,
    bound: int,
    terms: Seq<A::Value>,
    total: A::Value,
)
    requires
        adds_exactly::<A>(number, bound),
        is_sum::<A>(terms, total),
        forall|i: int| 0 <= i < terms.len() ==> number(#[trigger] terms[i]) is Some,
        forall|i: int|
            0 <= i <= terms.len() ==> -bound <= #[trigger] number_sum(number, terms.take(i))
                <= bound,
    ensures
        stands_for(number, total, number_sum(number, terms)),
    decreases terms.len(),
{
    if terms.len() > 0 {
        let fewer = terms.drop_last();
        let before = choose|before: A::Value|
            is_sum::<A>(fewer, before) && #[trigger] call_ensures(
                A::plus,
                (before, terms.last()),
                total,
            );
        assert forall|i: int| 0 <= i < fewer.len() implies number(#[trigger] fewer[i]) is Some by {
            assert(fewer[i] == terms[i]);
        }
        assert forall|i: int| 0 <= i <= fewer.len() implies -bound <= #[trigger] number_sum(
            number,
            fewer.take(i),
        ) <= bound by {
            assert(fewer.take(i) =~= terms.take(i));
            assert(-bound <= number_sum(number, terms.take(i)) <= bound);
        }
        lemma_sum_is_exact::<A>(number, bound, fewer, before);
        assert(terms.last() == terms[terms.len() - 1]);
        assert(terms.take(terms.len() as int) =~= terms);
        assert(-bound <= number_sum(number, terms.take(terms.len() as int)) <= bound);
    }
}

/// The points of a cluster among the rows of a first part and the first rows of a second.
proof fn lemma_member_values_add<T>(
    data: Seq<T>,
    dim: int,
    first: Seq<usize>,
    second: Seq<usize>,
    part: Seq<T>,
    cluster: int,
    d: int,
    count: int,
)
    requires
        0 <= d < dim,
        0 <= count <= second.len(),
        (first.len() + second.len()) * dim <= data.len(),
        part == data.subrange(
            first.len() * dim,
            (first.len() + second.len()) * dim,
        ),
    ensures
        member_values(data, dim, first + second.take(count), cluster, d) == member_values(
            data,
            dim,
            first,
            cluster,
            d,
        ) + member_values(part, dim, second.take(count), cluster, d),
    decreases count,
{
    let taken = second.take(count);
    if count == 0 {
        assert(first + taken =~= first);
        assert(member_values(part, dim, taken, cluster, d) =~= Seq::<T>::empty());
        assert(member_values(data, dim, first, cluster, d) + Seq::<T>::empty() =~= member_values(
            data,
            dim,
            first,
            cluster,
            d,
        ));
    } else {
        lemma_member_values_add(data, dim, first, second, part, cluster, d, count - 1);
        assert((first + taken).drop_last() =~= first + second.take(count - 1));
        assert(taken.drop_last() =~= second.take(count - 1));
        assert((first + taken).last() == taken.last());
        let n = first.len() as int;
        assert((n + count - 1) * dim + d == n * dim + ((count - 1) * dim + d))
            by (nonlinear_arith);
        lemma_product_monotone(0, n, dim);
        lemma_product_monotone(0, count - 1, dim);
        lemma_product_monotone(count, second.len() as int, dim);
        assert(count * dim == (count - 1) * dim + dim) by (nonlinear_arith);
        assert((n + second.len()) * dim == n * dim + second.len() * dim) by (nonlinear_arith);
        assert(part[(count - 1) * dim + d] == data[(n + count - 1) * dim + d]);
        if taken.last() == cluster {
            assert(member_values(data, dim, first + taken, cluster, d) =~= member_values(
                data,
                dim,
                first,
                cluster,
                d,
            ) + member_values(part, dim, taken, cluster, d));
        }
    }
}

/// The coordinates of the points of a cluster are numbers within the same limit.
pub(crate) proof fn lemma_member_values_within<T>(
    number: spec_fn(T) -> Option<int>,
    limit: int,
    data: Seq<T>,
    dim: int,
    assigned: Seq<usize>,
    cluster: int,
    d: int,
)
    requires
        0 <= d < dim,
        assigned.len() * dim <= data.len(),
        are_numbers_within(number, data, limit),
    ensures
        member_values(data, dim, assigned, cluster, d).len() <= assigned.len(),
        are_numbers_within(number, member_values(data, dim, assigned, cluster, d), limit),
    decreases assigned.len(),
{
    if assigned.len() > 0 {
        let n = assigned.len() as int;
        lemma_product_monotone(0, n - 1, dim);
        assert(n * dim == (n - 1) * dim + dim) by (nonlinear_arith);
        lemma_member_values_within(number, limit, data, dim, assigned.drop_last(), cluster, d);
    }
}

/// Every prefix of small numbers has a sum within the bound.
pub(crate) proof fn lemma_prefix_sums_within<V>(
    number: spec_fn(V) -> Option<int>,
    values: Seq<V>,
    limit: int,
    count: int,
    bound: int,
)
    requires
        0 <= limit,
        values.len() <= count,
        count * limit <= bound,
        are_numbers_within(number, values, limit),
    ensures
        forall|i: int|
            0 <= i <= values.len() ==> -bound <= #[trigger] number_sum(number, values.take(i))
                <= bound,
{
    assert forall|i: int| 0 <= i <= values.len() implies -bound <= #[trigger] number_sum(
        number,
        values.take(i),
    ) <= bound by {
        let taken = values.take(i);
        assert forall|j: int| 0 <= j < taken.len() implies number(#[trigger] taken[j]) is Some
            && -limit <= number(taken[j]).unwrap() <= limit by {
            assert(taken[j] == values[j]);
        }
        lemma_number_sum_within(number, taken, limit);
        lemma_product_monotone(i, count, limit);
    }
}

/// The sums of a batch are exact.
proof fn lemma_batch_sum_is_exact<A: Arithmetic>(
    number: spec_fn(A::Value) -> Option<int>,
    limit: int,
    data: Seq<A::Value>,
    norms: Seq<A::Value>,
    dim: usize,
    columns: Seq<A::Value>,
    centroid_norms: Seq<A::Value>,
    block: usize,
    chunks: Seq<ChunkResult<A::Value>>,
    i: int,
    c: int,
    d: int,
)
    requires
        0 <= limit,
        adds_exactly::<A>(number, norms.len() * limit),
        are_numbers_within(number, data, limit),
        block > 0,
        data.len() == norms.len() * dim,
        norms.len() <= usize::MAX,
        is_swept::<A>(data, norms, dim, columns, centroid_norms, block, chunks),
        0 <= i < chunks.len(),
        0 <= c < centroid_norms.len(),
        0 <= d < dim,
    ensures
        stands_for(
            number,
            chunks[i].sums@[c * dim + d],
            number_sum(
                number,
                member_values(
                    chunk_data(data, i, block as int, norms.len() as int, dim as int),
                    dim as int,
                    chunks[i].assignments@,
                    c,
                    d,
                ),
            ),
        ),
{
    let rows = norms.len() as int;
    let bound = rows * limit;
    lemma_chunks(rows, block as int);
    lemma_swept::<A>(data, norms, dim, columns, centroid_norms, block, chunks, i);
    let start = chunk_start(i, block as int);
    let end = chunk_end(i, block as int, rows);
    assert(0 <= start < end <= rows);
    lemma_product_monotone(0, start, dim as int);
    lemma_product_monotone(start, end, dim as int);
    lemma_product_monotone(end, rows, dim as int);
    assert((end - start) * dim == end * dim - start * dim) by (nonlinear_arith);
    let part = chunk_data(data, i, block as int, rows, dim as int);
    assert forall|j: int| 0 <= j < part.len() implies number(#[trigger] part[j]) is Some && -limit
        <= number(part[j]).unwrap() <= limit by {
        assert(part[j] == data[start * dim + j]);
    }
    let chunk = chunks[i];
    assert(are_cluster_sums::<A>(
        part,
        dim as int,
        chunk.assignments@,
        centroid_norms.len() as int,
        chunk.sums@,
    ));
    let terms = member_values(part, dim as int, chunk.assignments@, c, d);
    assert(is_sum::<A>(terms, chunk.sums@[c * dim + d]));
    lemma_member_values_within(number, limit, part, dim as int, chunk.assignments@, c, d);
    lemma_prefix_sums_within(number, terms, limit, rows, bound);
    lemma_sum_is_exact::<A>(number, bound, terms, chunk.sums@[c * dim + d]);
}

/// The sums of the first batches together are those of their points.
proof fn lemma_batches_sum_up<A: Arithmetic>(
    number: spec_fn(A::Value) -> Option<int>,
    limit: int,
    data: Seq<A::Value>,
    norms: Seq<A::Value>,
    dim: usize,
    columns: Seq<A::Value>,
    centroid_norms: Seq<A::Value>,
    block: usize,
    chunks: Seq<ChunkResult<A::Value>>,
    count: int,
    c: int,
    d: int,
)
    requires
        0 <= limit,
        adds_exactly::<A>(number, norms.len() * limit),
        are_numbers_within(number, data, limit),
        block > 0,
        data.len() == norms.len() * dim,
        norms.len() <= usize::MAX,
        is_swept::<A>(data, norms, dim, columns, centroid_norms, block, chunks),
        0 <= count <= chunks.len(),
        0 <= c < centroid_norms.len(),
        0 <= d < dim,
    ensures
        number_sum(number, chunk_sums(chunks, c * dim + d).take(count)) == number_sum(
            number,
            member_values(
                data,
                dim as int,
                joined(chunk_assignments(chunks.take(count))),
                c,
                d,
            ),
        ),
        joined(chunk_assignments(chunks.take(count))).len() <= norms.len(),
    decreases count,
{
    let rows = norms.len() as int;
    let place = c * dim + d;
    lemma_chunks(rows, block as int);
    lemma_joined_assignments_len::<A>(
        data,
        norms,
        dim,
        columns,
        centroid_norms,
        block,
        chunks,
        count,
    );
    if count > 0 {
        let i = count - 1;
        assert(0 <= chunk_start(i, block as int));
        lemma_batches_sum_up::<A>(
            number,
            limit,
            data,
            norms,
            dim,
            columns,
            centroid_norms,
            block,
            chunks,
            i,
            c,
            d,
        );
        lemma_batch_sum_is_exact::<A>(
            number,
            limit,
            data,
            norms,
            dim,
            columns,
            centroid_norms,
            block,
            chunks,
            i,
            c,
            d,
        );
        lemma_joined_assignments_len::<A>(
            data,
            norms,
            dim,
            columns,
            centroid_norms,
            block,
            chunks,
            i,
        );
        lemma_swept::<A>(data, norms, dim, columns, centroid_norms, block, chunks, i);
        let first = joined(chunk_assignments(chunks.take(i)));
        let second = chunks[i].assignments@;
        let part = chunk_data(data, i, block as int, rows, dim as int);
        let sums = chunk_sums(chunks, place);
        assert(sums.take(count).drop_last() =~= sums.take(i));
        assert(sums.take(count).last() == chunks[i].sums@[place]);
        assert(chunk_assignments(chunks.take(count)).drop_last() =~= chunk_assignments(
            chunks.take(i),
        ));
        assert(joined(chunk_assignments(chunks.take(count))) == first + second);
        lemma_product_monotone((first.len() + second.len()) as int, rows, dim as int);
        lemma_member_values_add(
            data,
            dim as int,
            first,
            second,
            part,
            c,
            d,
            second.len() as int,
        );
        assert(second.take(second.len() as int) =~= second);
        lemma_number_sum_adds(
            number,
            member_values(data, dim as int, first, c, d),
            member_values(part, dim as int, second, c, d),
        );
    } else {
        assert(chunk_assignments(chunks.take(0)) =~= Seq::<Seq<usize>>::empty());
        assert(chunk_start(0, block as int) == 0) by (nonlinear_arith);
    }
}

/// The sum that a pass hands to the update of the centroids is the exact sum of the
/// points of the cluster, whatever the size of the batches, where the coordinates are
/// whole numbers whose sums the arithmetic adds exactly.
pub proof fn law_sums_are_exact<A: Arithmetic>(
    number: spec_fn(A::Value) -> Option<int>,
    limit: int,
    data: Seq<A::Value>,
    norms: Seq<A::Value>,
    dim: usize,
    columns: Seq<A::Value>,
    centroid_norms: Seq<A::Value>,
    block: usize,
    assigned: Seq<usize>,
    summary: AssignmentSummary<A::Value>,
)
    requires
        0 <= limit,
        adds_exactly::<A>(number, norms.len() * limit),
        are_numbers_within(number, data, limit),
        block > 0,
        data.len() == norms.len() * dim,
        norms.len() <= usize::MAX,
        is_summarized::<A>(
            data,
            norms,
            dim,
            columns,
            centroid_norms,
            block,
            assigned,
            summary,
        ),
    ensures
        forall|c: int, d: int|
            0 <= c < centroid_norms.len() && 0 <= d < dim ==> stands_for(
                number,
                #[trigger] summary.sums@[c * dim + d],
                number_sum(number, member_values(data, dim as int, assigned, c, d)),
            ),
{
    let rows = norms.len() as int;
    let k = centroid_norms.len() as int;
    let bound = rows * limit;
    let chunks = choose|chunks: Seq<ChunkResult<A::Value>>| #[trigger]
        is_swept::<A>(data, norms, dim, columns, centroid_norms, block, chunks) && is_merged::<A>(
            chunks,
            k,
            dim as int,
            assigned,
            summary,
        );
    assert forall|c: int, d: int| 0 <= c < k && 0 <= d < dim implies stands_for(
        number,
        #[trigger] summary.sums@[c * dim + d],
        number_sum(number, member_values(data, dim as int, assigned, c, d)),
    ) by {
        let place = c * dim + d;
        lemma_product_monotone(0, c, dim as int);
        lemma_product_monotone(c + 1, k, dim as int);
        assert((c + 1) * dim == c * dim + dim) by (nonlinear_arith);
        let terms = chunk_sums(chunks, place);
        assert forall|i: int| 0 <= i < terms.len() implies number(#[trigger] terms[i]) is Some by {
            lemma_batch_sum_is_exact::<A>(
                number,
                limit,
                data,
                norms,
                dim,
                columns,
                centroid_norms,
                block,
                chunks,
                i,
                c,
                d,
            );
        }
        assert forall|i: int| 0 <= i <= terms.len() implies -bound <= #[trigger] number_sum(
            number,
            terms.take(i),
        ) <= bound by {
            lemma_batches_sum_up::<A>(
                number,
                limit,
                data,
                norms,
                dim,
                columns,
                centroid_norms,
                block,
                chunks,
                i,
                c,
                d,
            );
            let done = joined(chunk_assignments(chunks.take(i)));
            let values = member_values(data, dim as int, done, c, d);
            lemma_product_monotone(done.len() as int, rows, dim as int);
            lemma_member_values_within(number, limit, data, dim as int, done, c, d);
            lemma_prefix_sums_within(number, values, limit, rows, bound);
            assert(values.take(values.len() as int) =~= values);
            assert(-bound <= number_sum(number, values.take(values.len() as int)) <= bound);
        }
        lemma_sum_is_exact::<A>(number, bound, terms, summary.sums@[place]);
        lemma_batches_sum_up::<A>(
            number,
            limit,
            data,
            norms,
            dim,
            columns,
            centroid_norms,
            block,
            chunks,
            chunks.len() as int,
            c,
            d,
        );
        assert(terms.take(chunks.len() as int) =~= terms);
        assert(chunks.take(chunks.len() as int) =~= chunks);
    }
}

/// The size of the batches changes neither the assignments nor the counts and the sums
/// that the centroids are moved by, where products go row by row and sums are exact.
pub proof fn law_batch_size_leaves_the_means<A: Arithmetic>(
    number: spec_fn(A::Value) -> Option<int>,
    limit: int,
    data: Seq<A::Value>,
    norms: Seq<A::Value>,
    dim: usize,
    columns: Seq<A::Value>,
    centroid_norms: Seq<A::Value>,
    block: usize,
    other_block: usize,
    assigned: Seq<usize>,
    summary: AssignmentSummary<A::Value>,
    other_assigned: Seq<usize>,
    other_summary: AssignmentSummary<A::Value>,
)
    requires
        is_deterministic::<A>(),
        multiplies_by_rows::<A>(),
        0 <= limit,
        adds_exactly::<A>(number, norms.len() * limit),
        are_numbers_unique(number),
        are_numbers_within(number, data, limit),
        block > 0,
        other_block > 0,
        data.len() == norms.len() * dim,
        norms.len() <= usize::MAX,
        0 < centroid_norms.len() <= usize::MAX,
        is_summarized::<A>(
            data,
            norms,
            dim,
            columns,
            centroid_norms,
            block,
            assigned,
            summary,
        ),
        is_summarized::<A>(
            data,
            norms,
            dim,
            columns,
            centroid_norms,
            other_block,
            other_assigned,
            other_summary,
        ),
    ensures
        assigned == other_assigned,
        summary.counts@ == other_summary.counts@,
        summary.sums@ == other_summary.sums@,
{
    let k = centroid_norms.len() as int;
    lemma_summarized_is_assigned::<A>(
        data,
        norms,
        dim,
        columns,
        centroid_norms,
        block,
        assigned,
        summary,
    );
    lemma_summarized_is_assigned::<A>(
        data,
        norms,
        dim,
        columns,
        centroid_norms,
        other_block,
        other_assigned,
        other_summary,
    );
    law_batch_size_leaves_assignments::<A>(
        data,
        norms,
        dim,
        columns,
        centroid_norms,
        block,
        other_block,
        assigned,
        other_assigned,
    );
    assert(summary.counts@ =~= other_summary.counts@) by {
        assert(is_tally(assigned, summary.counts@));
        assert(is_tally(assigned, other_summary.counts@));
    }
    law_sums_are_exact::<A>(
        number,
        limit,
        data,
        norms,
        dim,
        columns,
        centroid_norms,
        block,
        assigned,
        summary,
    );
    law_sums_are_exact::<A>(
        number,
        limit,
        data,
        norms,
        dim,
        columns,
        centroid_norms,
        other_block,
        assigned,
        other_summary,
    );
    assert forall|place: int| 0 <= place < k * dim implies summary.sums@[place]
        == other_summary.sums@[place] by {
        assert(0 < dim) by (nonlinear_arith)
            requires
                0 <= place < k * dim,
                0 <= dim,
        ;
        lemma_cell_exists(place, k, dim as int);
        let c = place / dim as int;
        let d = place % dim as int;
        assert(stands_for(
            number,
            summary.sums@[c * dim + d],
            number_sum(number, member_values(data, dim as int, assigned, c, d)),
        ));
        assert(stands_for(
            number,
            other_summary.sums@[c * dim + d],
            number_sum(number, member_values(data, dim as int, assigned, c, d)),
        ));
    }
    assert(summary.sums@ =~= other_summary.sums@);
}

/// The size of the batches has no part in the distances that the points are assigned
/// at.
proof fn lemma_same_distances<A: Arithmetic>(
    data: Seq<A::Value>,
    norms: Seq<A::Value>,
    dim: usize,
    columns: Seq<A::Value>,
    centroid_norms: Seq<A::Value>,
    block: usize,
    other_block: usize,
    assigned: Seq<usize>,
    keys: Seq<i64>,
    other_assigned: Seq<usize>,
    other_keys: Seq<i64>,
)
    requires
        is_deterministic::<A>(),
        multiplies_by_rows::<A>(),
        block > 0,
        other_block > 0,
        data.len() == norms.len() * dim,
        norms.len() <= usize::MAX,
        centroid_norms.len() <= usize::MAX,
        are_assigned_at::<A>(
            data,
            norms,
            dim,
            columns,
            centroid_norms,
            block,
            assigned,
            keys,
        ),
        are_assigned_at::<A>(
            data,
            norms,
            dim,
            columns,
            centroid_norms,
            other_block,
            other_assigned,
            other_keys,
        ),
    ensures
        keys == other_keys,
{
    let rows = norms.len() as int;
    lemma_chunks(rows, block as int);
    lemma_chunks(rows, other_block as int);
    assert forall|r: int| 0 <= r < rows implies keys[r] == other_keys[r] by {
        law_every_row_has_one_batch(rows, block as int, r);
        law_every_row_has_one_batch(rows, other_block as int, r);
        let i = choose|i: int|
            0 <= i < chunk_count(rows, block as int) && #[trigger] chunk_start(i, block as int)
                <= r < chunk_end(i, block as int, rows);
        let j = choose|j: int|
            0 <= j < chunk_count(rows, other_block as int) && #[trigger] chunk_start(
                j,
                other_block as int,
            ) <= r < chunk_end(j, other_block as int, rows);
        lemma_row_in_batch(data, dim as int, rows, block as int, i, r);
        lemma_row_in_batch(data, dim as int, rows, other_block as int, j, r);
        lemma_same_point::<A>(
            dim,
            columns,
            centroid_norms,
            chunk_data(data, i, block as int, rows, dim as int),
            chunk_items(norms, i, block as int, rows),
            chunk_items(assigned, i, block as int, rows),
            chunk_items(keys, i, block as int, rows),
            r - chunk_start(i, block as int),
            chunk_data(data, j, other_block as int, rows, dim as int),
            chunk_items(norms, j, other_block as int, rows),
            chunk_items(other_assigned, j, other_block as int, rows),
            chunk_items(other_keys, j, other_block as int, rows),
            r - chunk_start(j, other_block as int),
        );
    }
    assert(keys =~= other_keys);
}

/// The size of the batches has no part in what empty clusters are reseeded with, as
/// long as there are no more of them than a batch has candidates for.
pub proof fn law_batch_size_leaves_the_reseeds<A: Arithmetic>(
    data: Seq<A::Value>,
    norms: Seq<A::Value>,
    dim: usize,
    columns: Seq<A::Value>,
    centroid_norms: Seq<A::Value>,
    block: usize,
    other_block: usize,
    assigned: Seq<usize>,
    summary: AssignmentSummary<A::Value>,
    pool: Seq<usize>,
    other_assigned: Seq<usize>,
    other_summary: AssignmentSummary<A::Value>,
    other_pool: Seq<usize>,
    counts: Seq<usize>,
    total_rows: usize,
    state: Seq<u64>,
)
    requires
        is_deterministic::<A>(),
        multiplies_by_rows::<A>(),
        block > 0,
        other_block > 0,
        data.len() == norms.len() * dim,
        norms.len() <= usize::MAX,
        0 < centroid_norms.len() <= usize::MAX,
        is_summarized::<A>(
            data,
            norms,
            dim,
            columns,
            centroid_norms,
            block,
            assigned,
            summary,
        ),
        is_summarized::<A>(
            data,
            norms,
            dim,
            columns,
            centroid_norms,
            other_block,
            other_assigned,
            other_summary,
        ),
        is_pool(summary.candidates@, pool),
        is_pool(other_summary.candidates@, other_pool),
        empty_count(counts) <= RESEED_CANDIDATES,
    ensures
        reseeds(counts, pool, total_rows, state) == reseeds(
            counts,
            other_pool,
            total_rows,
            state,
        ),
{
    let rows = norms.len() as int;
    law_pool_begins_with_the_farthest::<A>(
        data,
        norms,
        dim,
        columns,
        centroid_norms,
        block,
        assigned,
        summary,
        pool,
    );
    law_pool_begins_with_the_farthest::<A>(
        data,
        norms,
        dim,
        columns,
        centroid_norms,
        other_block,
        other_assigned,
        other_summary,
        other_pool,
    );
    let keys = choose|keys: Seq<i64>| #[trigger]
        are_assigned_at::<A>(
            data,
            norms,
            dim,
            columns,
            centroid_norms,
            block,
            assigned,
            keys,
        ) && is_farthest(keys, 0, first_of_pool(keys, pool));
    let other_keys = choose|keys: Seq<i64>| #[trigger]
        are_assigned_at::<A>(
            data,
            norms,
            dim,
            columns,
            centroid_norms,
            other_block,
            other_assigned,
            keys,
        ) && is_farthest(keys, 0, first_of_pool(keys, other_pool));
    lemma_same_distances::<A>(
        data,
        norms,
        dim,
        columns,
        centroid_norms,
        block,
        other_block,
        assigned,
        keys,
        other_assigned,
        other_keys,
    );
    let count = least(rows, RESEED_CANDIDATES as int);
    let first = first_of_pool(keys, pool);
    let other_first = first_of_pool(keys, other_pool);
    lemma_same_farthest(keys, 0, first, other_first, count);
    assert forall|j: int| 0 <= j < count implies pool[j] == other_pool[j] by {
        assert(first[j] == other_first[j]);
    }
    if rows < RESEED_CANDIDATES {
        assert(pool =~= other_pool);
    } else {
        lemma_reseeds_from_pool(counts, pool, total_rows, state);
        lemma_reseeds_from_pool(counts, other_pool, total_rows, state);
        assert(pool.take(empty_count(counts) as int) =~= other_pool.take(
            empty_count(counts) as int,
        ));
    }
}

/// The size of the batches has no part in a step, where products go row by row and sums
/// are exact, as long as the step leaves no more clusters empty than a batch has
/// candidates for.
pub proof fn law_batch_size_leaves_a_step<A: Arithmetic>(
    number: spec_fn(A::Value) -> Option<int>,
    limit: int,
    data: Seq<A::Value>,
    norms: Seq<A::Value>,
    k: int,
    dim: usize,
    spherical: bool,
    block: usize,
    other_block: usize,
    before: Progress<A::Value>,
    after: Progress<A::Value>,
    other_after: Progress<A::Value>,
)
    requires
        is_deterministic::<A>(),
        multiplies_by_rows::<A>(),
        0 <= limit,
        adds_exactly::<A>(number, norms.len() * limit),
        are_numbers_unique(number),
        are_numbers_within(number, data, limit),
        block > 0,
        other_block > 0,
        dim > 0,
        0 < k <= usize::MAX,
        data.len() == norms.len() * dim,
        norms.len() <= usize::MAX,
        norms.len() <= before.assigned.len(),
        k * dim <= before.centroids.len(),
        is_lloyd_step::<A>(data, norms, k, dim, spherical, block, before, after),
        is_lloyd_step::<A>(data, norms, k, dim, spherical, other_block, before, other_after),
        forall|counts: Seq<usize>|
            counts.len() == k && #[trigger] is_tally(
                after.assigned.take(norms.len() as int),
                counts,
            ) ==> empty_count(counts) <= RESEED_CANDIDATES,
    ensures
        after == other_after,
{
    let rows = norms.len() as int;
    let (columns, centroid_norms, summary, moved) = choose|
        columns: Seq<A::Value>,
        centroid_norms: Seq<A::Value>,
        summary: AssignmentSummary<A::Value>,
        moved: Seq<A::Value>,
    | #[trigger]
        is_viewed::<A>(before.centroids, k, dim as int, columns, centroid_norms)
            && #[trigger] is_summarized::<A>(
            data,
            norms,
            dim,
            columns,
            centroid_norms,
            block,
            after.assigned.take(rows),
            summary,
        ) && #[trigger] is_updated::<A>(
            data,
            dim as int,
            summary,
            k,
            before.centroids,
            before.generator,
            moved,
            after.generator,
        ) && is_finished::<A>(moved, k, dim as int, spherical, after.centroids);
    let (other_columns, other_norms, other_summary, other_moved) = choose|
        columns: Seq<A::Value>,
        centroid_norms: Seq<A::Value>,
        summary: AssignmentSummary<A::Value>,
        moved: Seq<A::Value>,
    | #[trigger]
        is_viewed::<A>(before.centroids, k, dim as int, columns, centroid_norms)
            && #[trigger] is_summarized::<A>(
            data,
            norms,
            dim,
            columns,
            centroid_norms,
            other_block,
            other_after.assigned.take(rows),
            summary,
        ) && #[trigger] is_updated::<A>(
            data,
            dim as int,
            summary,
            k,
            before.centroids,
            before.generator,
            moved,
            other_after.generator,
        ) && is_finished::<A>(moved, k, dim as int, spherical, other_after.centroids);
    lemma_same_views::<A>(
        before.centroids,
        k,
        dim as int,
        columns,
        centroid_norms,
        other_columns,
        other_norms,
    );
    law_batch_size_leaves_the_means::<A>(
        number,
        limit,
        data,
        norms,
        dim,
        columns,
        centroid_norms,
        block,
        other_block,
        after.assigned.take(rows),
        summary,
        other_after.assigned.take(rows),
        other_summary,
    );
    assert(is_tally(after.assigned.take(rows), summary.counts@));
    assert(summary.counts@.take(k) =~= summary.counts@);
    let total_rows = (data.len() as int / dim as int) as usize;
    assert forall|x: Seq<usize>, y: Seq<usize>|
        #![trigger is_pool(summary.candidates@, x), is_pool(other_summary.candidates@, y)]
        is_pool(summary.candidates@, x) && is_pool(other_summary.candidates@, y) implies reseeds(
        summary.counts@.take(k),
        x,
        total_rows,
        before.generator,
    ) == reseeds(summary.counts@.take(k), y, total_rows, before.generator) by {
        law_batch_size_leaves_the_reseeds::<A>(
            data,
            norms,
            dim,
            columns,
            centroid_norms,
            block,
            other_block,
            after.assigned.take(rows),
            summary,
            x,
            other_after.assigned.take(rows),
            other_summary,
            y,
            summary.counts@.take(k),
            total_rows,
            before.generator,
        );
    }
    lemma_same_update::<A>(
        data,
        dim as int,
        summary,
        other_summary,
        k,
        before.centroids,
        before.centroids,
        before.generator,
        moved,
        after.generator,
        other_moved,
        other_after.generator,
    );
    lemma_same_rows(moved, other_moved, k, dim as int);
    if spherical {
        lemma_same_all_normalized::<A>(
            moved,
            k,
            dim as int,
            after.centroids,
            other_after.centroids,
        );
    }
    assert(after.assigned =~= after.assigned.take(rows) + after.assigned.skip(rows));
    assert(other_after.assigned =~= other_after.assigned.take(rows) + other_after.assigned.skip(
        rows,
    ));
    assert(after =~= other_after);
}

} // verus!
