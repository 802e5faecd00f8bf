//! Where every operation of the arithmetic gives one value for one input, so does
//! clustering as a whole: what two runs on the same points and with the same
//! configuration yield is the same.
use crate::arithmetic::{
    are_gap_squares, are_norms, are_point_distances, are_squares, is_gap_square, is_norm,
    is_objective, is_squared_distance, is_sum, is_total_sum, Arithmetic,
};
use crate::assignment::{
    are_distance_keys, are_rows_nearest, is_batch_assigned, is_batch_nearest, is_cell_key,
    is_distance_key, is_nearest, is_product, is_row_nearest,
};
use crate::batch::{are_cluster_sums, is_chunk_result, member_values, ChunkResult};
use crate::centroids::{are_normalized, is_normalized, is_scaled, is_scaled_by_norm, is_transposed};
use crate::layout::{lemma_cell_exists, lemma_product_monotone, lemma_row_fits, row};
use crate::ranking::{is_farthest, is_ranking, ranks_before};
use vstd::prelude::*;

verus! {

/// Every operation has one outcome for one input.
pub open spec fn is_deterministic<A: Arithmetic>() -> bool {
    &&& forall|x: A::Value, y: A::Value| #[trigger]
        call_ensures(A::zero, (), x) && #[trigger] call_ensures(A::zero, (), y) ==> x == y
    &&& forall|x: A::Value, y: A::Value| #[trigger]
        call_ensures(A::two, (), x) && #[trigger] call_ensures(A::two, (), y) ==> x == y
    &&& forall|n: usize, x: A::Value, y: A::Value| #[trigger]
        call_ensures(A::from_count, (n,), x) && #[trigger] call_ensures(A::from_count, (n,), y)
            ==> x == y
    &&& forall|a: A::Value, b: A::Value, x: A::Value, y: A::Value| #[trigger]
        call_ensures(A::plus, (a, b), x) && #[trigger] call_ensures(A::plus, (a, b), y) ==> x == y
    &&& forall|a: A::Value, b: A::Value, x: A::Value, y: A::Value| #[trigger]
        call_ensures(A::minus, (a, b), x) && #[trigger] call_ensures(A::minus, (a, b), y) ==> x
            == y
    &&& forall|a: A::Value, b: A::Value, x: A::Value, y: A::Value| #[trigger]
        call_ensures(A::times, (a, b), x) && #[trigger] call_ensures(A::times, (a, b), y) ==> x
            == y
    &&& forall|a: A::Value, x: A::Value, y: A::Value| #[trigger]
        call_ensures(A::square_root, (a,), x) && #[trigger] call_ensures(A::square_root, (a,), y)
            ==> x == y
    &&& forall|a: A::Value, x: A::Value, y: A::Value| #[trigger]
        call_ensures(A::reciprocal, (a,), x) && #[trigger] call_ensures(A::reciprocal, (a,), y)
            ==> x == y
    &&& forall|a: A::Value, x: Option<i64>, y: Option<i64>| #[trigger]
        call_ensures(A::key, (a,), x) && #[trigger] call_ensures(A::key, (a,), y) ==> x == y
    &&& forall|
        rows: usize,
        inner: usize,
        columns: usize,
        a: &[A::Value],
        b: &[A::Value],
        c: &[A::Value],
        d: &[A::Value],
        x: A::Products,
        y: A::Products,
    | #[trigger]
        call_ensures(A::multiply, (rows, inner, columns, a, b), x) && #[trigger] call_ensures(
            A::multiply,
            (rows, inner, columns, c, d),
            y,
        ) && a@ == c@ && b@ == d@ ==> x == y
    &&& forall|p: &A::Products, place: usize, x: A::Value, y: A::Value| #[trigger]
        call_ensures(A::entry, (p, place), x) && #[trigger] call_ensures(A::entry, (p, place), y)
            ==> x == y
    &&& forall|x: A::Total, y: A::Total| #[trigger]
        call_ensures(A::total_zero, (), x) && #[trigger] call_ensures(A::total_zero, (), y) ==> x
            == y
    &&& forall|a: A::Value, x: A::Total, y: A::Total| #[trigger]
        call_ensures(A::widen, (a,), x) && #[trigger] call_ensures(A::widen, (a,), y) ==> x == y
    &&& forall|a: A::Total, b: A::Total, x: A::Total, y: A::Total| #[trigger]
        call_ensures(A::total_plus, (a, b), x) && #[trigger] call_ensures(A::total_plus, (a, b), y)
            ==> x == y
    &&& forall|a: A::Total, b: A::Total, x: A::Total, y: A::Total| #[trigger]
        call_ensures(A::total_times, (a, b), x) && #[trigger] call_ensures(
            A::total_times,
            (a, b),
            y,
        ) ==> x == y
    &&& forall|a: A::Total, x: Option<i64>, y: Option<i64>| #[trigger]
        call_ensures(A::total_key, (a,), x) && #[trigger] call_ensures(A::total_key, (a,), y) ==> x
            == y
}

pub(crate) proof fn lemma_same_sum<A: Arithmetic>(terms: Seq<A::Value>, a: A::Value, b: A::Value)
    requires
        is_deterministic::<A>(),
        is_sum::<A>(terms, a),
        is_sum::<A>(terms, b),
    ensures
        a == b,
    decreases terms.len(),
{
    if terms.len() > 0 {
        let p = choose|p: A::Value|
            is_sum::<A>(terms.drop_last(), p) && #[trigger] call_ensures(
                A::plus,
                (p, terms.last()),
                a,
            );
        let q = choose|q: A::Value|
            is_sum::<A>(terms.drop_last(), q) && #[trigger] call_ensures(
                A::plus,
                (q, terms.last()),
                b,
            );
        lemma_same_sum::<A>(terms.drop_last(), p, q);
    }
}

proof fn lemma_same_total_sum<A: Arithmetic>(terms: Seq<A::Total>, a: A::Total, b: A::Total)
    requires
        is_deterministic::<A>(),
        is_total_sum::<A>(terms, a),
        is_total_sum::<A>(terms, b),
    ensures
        a == b,
    decreases terms.len(),
{
    if terms.len() > 0 {
        let p = choose|p: A::Total|
            is_total_sum::<A>(terms.drop_last(), p) && #[trigger] call_ensures(
                A::total_plus,
                (p, terms.last()),
                a,
            );
        let q = choose|q: A::Total|
            is_total_sum::<A>(terms.drop_last(), q) && #[trigger] call_ensures(
                A::total_plus,
                (q, terms.last()),
                b,
            );
        lemma_same_total_sum::<A>(terms.drop_last(), p, q);
    }
}

proof fn lemma_same_norm<A: Arithmetic>(values: Seq<A::Value>, a: A::Value, b: A::Value)
    requires
        is_deterministic::<A>(),
        is_norm::<A>(values, a),
        is_norm::<A>(values, b),
    ensures
        a == b,
{
    let s = choose|s: Seq<A::Value>| #[trigger]
        are_squares::<A>(values, s) && is_sum::<A>(s, a);
    let t = choose|t: Seq<A::Value>| #[trigger]
        are_squares::<A>(values, t) && is_sum::<A>(t, b);
    assert forall|i: int| 0 <= i < s.len() implies s[i] == t[i] by {
        assert(call_ensures(A::times, (values[i], values[i]), s[i]));
        assert(call_ensures(A::times, (values[i], values[i]), t[i]));
    }
    assert(s =~= t);
    lemma_same_sum::<A>(s, a, b);
}

pub(crate) proof fn lemma_same_norms<A: Arithmetic>(
    data: Seq<A::Value>,
    rows: int,
    dim: int,
    a: Seq<A::Value>,
    b: Seq<A::Value>,
)
    requires
        is_deterministic::<A>(),
        are_norms::<A>(data, rows, dim, a),
        are_norms::<A>(data, rows, dim, b),
    ensures
        a == b,
{
    assert forall|i: int| 0 <= i < rows implies a[i] == b[i] by {
        lemma_same_norm::<A>(row(data, i, dim), a[i], b[i]);
    }
    assert(a =~= b);
}

pub(crate) proof fn lemma_same_transposed<T>(
    centroids: Seq<T>,
    k: int,
    dim: int,
    a: Seq<T>,
    b: Seq<T>,
)
    requires
        k > 0,
        is_transposed(centroids, k, dim, a),
        is_transposed(centroids, k, dim, b),
    ensures
        a == b,
{
    assert forall|i: int| 0 <= i < a.len() implies a[i] == b[i] by {
        lemma_cell_exists(i, dim, k);
        let d = i / k;
        let c = i % k;
        assert(a[d * k + c] == centroids[c * dim + d]);
        assert(b[d * k + c] == centroids[c * dim + d]);
    }
    assert(a =~= b);
}

proof fn lemma_same_cell_key<A: Arithmetic>(
    norm: A::Value,
    centroid_norm: A::Value,
    products: A::Products,
    place: usize,
    a: Option<i64>,
    b: Option<i64>,
)
    requires
        is_deterministic::<A>(),
        is_cell_key::<A>(norm, centroid_norm, products, place, a),
        is_cell_key::<A>(norm, centroid_norm, products, place, b),
    ensures
        a == b,
{
    let x = choose|x: A::Value| #[trigger]
        call_ensures(A::entry, (&products, place), x) && is_distance_key::<A>(
            norm,
            centroid_norm,
            x,
            a,
        );
    let y = choose|y: A::Value| #[trigger]
        call_ensures(A::entry, (&products, place), y) && is_distance_key::<A>(
            norm,
            centroid_norm,
            y,
            b,
        );
    assert(x == y);
}

proof fn lemma_same_row_nearest<A: Arithmetic>(
    norm: A::Value,
    centroid_norms: Seq<A::Value>,
    products: A::Products,
    r: int,
    a: usize,
    a_best: i64,
    b: usize,
    b_best: i64,
)
    requires
        is_deterministic::<A>(),
        is_row_nearest::<A>(norm, centroid_norms, products, r, a, a_best),
        is_row_nearest::<A>(norm, centroid_norms, products, r, b, b_best),
    ensures
        a == b,
        a_best == b_best,
{
    let x = choose|x: Seq<Option<i64>>| #[trigger]
        are_distance_keys::<A>(norm, centroid_norms, products, r, x) && x.len()
            == centroid_norms.len() && is_nearest(x, a as int, a_best);
    let y = choose|y: Seq<Option<i64>>| #[trigger]
        are_distance_keys::<A>(norm, centroid_norms, products, r, y) && y.len()
            == centroid_norms.len() && is_nearest(y, b as int, b_best);
    assert forall|c: int| 0 <= c < x.len() implies x[c] == y[c] by {
        lemma_same_cell_key::<A>(
            norm,
            centroid_norms[c],
            products,
            (r * centroid_norms.len() + c) as usize,
            x[c],
            y[c],
        );
    }
    assert(x =~= y);
    if a_best < i64::MAX {
        assert(x[a as int] == Some(a_best));
    }
    if b_best < i64::MAX {
        assert(x[b as int] == Some(b_best));
    }
}

proof fn lemma_same_batch<A: Arithmetic>(
    data: Seq<A::Value>,
    norms: Seq<A::Value>,
    dim: usize,
    columns: Seq<A::Value>,
    centroid_norms: Seq<A::Value>,
    a: Seq<usize>,
    a_keys: Seq<i64>,
    b: Seq<usize>,
    b_keys: Seq<i64>,
)
    requires
        is_deterministic::<A>(),
        is_batch_assigned::<A>(data, norms, dim, columns, centroid_norms, a, a_keys),
        is_batch_assigned::<A>(data, norms, dim, columns, centroid_norms, b, b_keys),
    ensures
        a == b,
        a_keys == b_keys,
{
    let rows = norms.len() as usize;
    let k = centroid_norms.len() as usize;
    let x = choose|x: A::Products| #[trigger]
        is_product::<A>(rows, dim, k, data, columns, x) && are_rows_nearest::<A>(
            norms,
            centroid_norms,
            x,
            a,
            a_keys,
        );
    let y = choose|y: A::Products| #[trigger]
        is_product::<A>(rows, dim, k, data, columns, y) && are_rows_nearest::<A>(
            norms,
            centroid_norms,
            y,
            b,
            b_keys,
        );
    assert(x == y);
    assert forall|r: int| 0 <= r < norms.len() implies a[r] == b[r] && a_keys[r] == b_keys[r] by {
        assert(is_row_nearest::<A>(norms[r], centroid_norms, x, r, a[r], a_keys[r]));
        assert(is_row_nearest::<A>(norms[r], centroid_norms, x, r, b[r], b_keys[r]));
        lemma_same_row_nearest::<A>(
            norms[r],
            centroid_norms,
            x,
            r,
            a[r],
            a_keys[r],
            b[r],
            b_keys[r],
        );
    }
    assert(a =~= b);
    assert(a_keys =~= b_keys);
}

pub(crate) proof fn lemma_same_nearest_batch<A: Arithmetic>(
    data: Seq<A::Value>,
    norms: Seq<A::Value>,
    dim: usize,
    columns: Seq<A::Value>,
    centroid_norms: Seq<A::Value>,
    a: Seq<usize>,
    b: Seq<usize>,
)
    requires
        is_deterministic::<A>(),
        is_batch_nearest::<A>(data, norms, dim, columns, centroid_norms, a),
        is_batch_nearest::<A>(data, norms, dim, columns, centroid_norms, b),
    ensures
        a == b,
{
    let x = choose|x: Seq<i64>| #[trigger]
        is_batch_assigned::<A>(data, norms, dim, columns, centroid_norms, a, x);
    let y = choose|y: Seq<i64>| #[trigger]
        is_batch_assigned::<A>(data, norms, dim, columns, centroid_norms, b, y);
    lemma_same_batch::<A>(data, norms, dim, columns, centroid_norms, a, x, b, y);
}

/// A candidate of one short list that is ahead of the other list's candidate at the
/// same place, with all earlier ones the same, cannot be.
proof fn lemma_not_ahead(
    keys: Seq<i64>,
    start: int,
    a: Seq<(i64, usize)>,
    b: Seq<(i64, usize)>,
    i: int,
)
    requires
        is_farthest(keys, start, a),
        is_farthest(keys, start, b),
        0 <= i < a.len(),
        forall|j: int| 0 <= j < i ==> a[j] == b[j],
    ensures
        ranks_before(b[i], a[i]),
{
    let member = a[i];
    let r = member.1 - start;
    assert(member == (keys[r], (start + r) as usize));
    if b.contains(member) {
        let m = choose|m: int| 0 <= m < b.len() && b[m] == member;
        if m < i {
            assert(a[m] == member);
        }
        assert(ranks_before(b[i], b[m]));
    } else {
        assert(ranks_before(b.last(), member));
        assert(ranks_before(b[i], b[b.len() - 1]));
    }
}

/// The short list of a batch is decided by the distances.
pub(crate) proof fn lemma_same_farthest(
    keys: Seq<i64>,
    start: int,
    a: Seq<(i64, usize)>,
    b: Seq<(i64, usize)>,
    count: int,
)
    requires
        is_farthest(keys, start, a),
        is_farthest(keys, start, b),
        0 <= count <= a.len(),
    ensures
        a.len() == b.len(),
        forall|j: int| 0 <= j < count ==> a[j] == b[j],
    decreases count,
{
    if count > 0 {
        lemma_same_farthest(keys, start, a, b, count - 1);
        lemma_not_ahead(keys, start, a, b, count - 1);
        lemma_not_ahead(keys, start, b, a, count - 1);
    }
}

proof fn lemma_same_cluster_sums<A: Arithmetic>(
    data: Seq<A::Value>,
    dim: int,
    assigned: Seq<usize>,
    k: int,
    a: Seq<A::Value>,
    b: Seq<A::Value>,
)
    requires
        is_deterministic::<A>(),
        dim > 0,
        are_cluster_sums::<A>(data, dim, assigned, k, a),
        are_cluster_sums::<A>(data, dim, assigned, k, b),
    ensures
        a == b,
{
    assert forall|i: int| 0 <= i < a.len() implies a[i] == b[i] by {
        lemma_cell_exists(i, k, dim);
        let c = i / dim;
        let d = i % dim;
        let terms = member_values(data, dim, assigned, c, d);
        assert(is_sum::<A>(terms, a[c * dim + d]));
        assert(is_sum::<A>(terms, b[c * dim + d]));
        lemma_same_sum::<A>(terms, a[i], b[i]);
    }
    assert(a =~= b);
}

/// What a batch contributes is decided by its points and the centroids.
pub(crate) proof fn lemma_same_chunk_result<A: Arithmetic>(
    start: usize,
    data: Seq<A::Value>,
    norms: Seq<A::Value>,
    dim: usize,
    columns: Seq<A::Value>,
    centroid_norms: Seq<A::Value>,
    a: ChunkResult<A::Value>,
    b: ChunkResult<A::Value>,
)
    requires
        is_deterministic::<A>(),
        dim > 0,
        is_chunk_result::<A>(start, data, norms, dim, columns, centroid_norms, a),
        is_chunk_result::<A>(start, data, norms, dim, columns, centroid_norms, b),
    ensures
        a.assignments@ == b.assignments@,
        a.sums@ == b.sums@,
        a.candidates@ == b.candidates@,
{
    let x = choose|x: Seq<i64>| #[trigger]
        is_batch_assigned::<A>(data, norms, dim, columns, centroid_norms, a.assignments@, x)
            && is_farthest(x, start as int, a.candidates@);
    let y = choose|y: Seq<i64>| #[trigger]
        is_batch_assigned::<A>(data, norms, dim, columns, centroid_norms, b.assignments@, y)
            && is_farthest(y, start as int, b.candidates@);
    lemma_same_batch::<A>(
        data,
        norms,
        dim,
        columns,
        centroid_norms,
        a.assignments@,
        x,
        b.assignments@,
        y,
    );
    lemma_same_cluster_sums::<A>(
        data,
        dim as int,
        a.assignments@,
        centroid_norms.len() as int,
        a.sums@,
        b.sums@,
    );
    lemma_same_farthest(
        x,
        start as int,
        a.candidates@,
        b.candidates@,
        a.candidates@.len() as int,
    );
    assert(a.candidates@ =~= b.candidates@);
}

pub(crate) proof fn lemma_same_scaled<A: Arithmetic>(
    values: Seq<A::Value>,
    factor: A::Value,
    a: Seq<A::Value>,
    b: Seq<A::Value>,
)
    requires
        is_deterministic::<A>(),
        is_scaled::<A>(values, factor, a),
        is_scaled::<A>(values, factor, b),
    ensures
        a == b,
{
    assert forall|d: int| 0 <= d < a.len() implies a[d] == b[d] by {
        assert(call_ensures(A::times, (values[d], factor), a[d]));
        assert(call_ensures(A::times, (values[d], factor), b[d]));
    }
    assert(a =~= b);
}

proof fn lemma_same_scaled_by_norm<A: Arithmetic>(
    values: Seq<A::Value>,
    norm: A::Value,
    a: Seq<A::Value>,
    b: Seq<A::Value>,
)
    requires
        is_deterministic::<A>(),
        is_scaled_by_norm::<A>(values, norm, a),
        is_scaled_by_norm::<A>(values, norm, b),
    ensures
        a == b,
{
    let (r, x) = choose|r: A::Value, x: A::Value| #[trigger]
        call_ensures(A::square_root, (norm,), r) && #[trigger] call_ensures(
            A::reciprocal,
            (r,),
            x,
        ) && is_scaled::<A>(values, x, a);
    let (s, y) = choose|s: A::Value, y: A::Value| #[trigger]
        call_ensures(A::square_root, (norm,), s) && #[trigger] call_ensures(
            A::reciprocal,
            (s,),
            y,
        ) && is_scaled::<A>(values, y, b);
    assert(r == s);
    assert(x == y);
    lemma_same_scaled::<A>(values, x, a, b);
}

proof fn lemma_same_normalized<A: Arithmetic>(
    before: Seq<A::Value>,
    a: Seq<A::Value>,
    b: Seq<A::Value>,
)
    requires
        is_deterministic::<A>(),
        is_normalized::<A>(before, a),
        is_normalized::<A>(before, b),
    ensures
        a == b,
{
    let (n, x) = choose|n: A::Value, x: Option<i64>| #[trigger]
        is_norm::<A>(before, n) && #[trigger] call_ensures(A::key, (n,), x) && if x is Some
            && x.unwrap() > 0 {
            is_scaled_by_norm::<A>(before, n, a)
        } else {
            a == before
        };
    let (m, y) = choose|m: A::Value, y: Option<i64>| #[trigger]
        is_norm::<A>(before, m) && #[trigger] call_ensures(A::key, (m,), y) && if y is Some
            && y.unwrap() > 0 {
            is_scaled_by_norm::<A>(before, m, b)
        } else {
            b == before
        };
    lemma_same_norm::<A>(before, n, m);
    assert(x == y);
    if x is Some && x.unwrap() > 0 {
        lemma_same_scaled_by_norm::<A>(before, n, a, b);
    }
}

/// Matrices with the same first rows and the same rest are the same.
pub(crate) proof fn lemma_same_rows<T>(a: Seq<T>, b: Seq<T>, k: int, dim: int)
    requires
        0 <= k,
        dim > 0,
        a.len() == b.len(),
        k * dim <= a.len(),
        forall|c: int| 0 <= c < k ==> #[trigger] row(a, c, dim) == row(b, c, dim),
        a.skip(k * dim) == b.skip(k * dim),
    ensures
        a == b,
{
    lemma_product_monotone(0, k, dim);
    assert forall|i: int| 0 <= i < a.len() implies a[i] == b[i] by {
        if i < k * dim {
            lemma_cell_exists(i, k, dim);
            let c = i / dim;
            lemma_row_fits(c, k, dim);
            assert(row(a, c, dim)[i % dim] == row(b, c, dim)[i % dim]);
        } else {
            assert(a.skip(k * dim)[i - k * dim] == b.skip(k * dim)[i - k * dim]);
        }
    }
    assert(a =~= b);
}

pub(crate) proof fn lemma_same_all_normalized<A: Arithmetic>(
    before: Seq<A::Value>,
    k: int,
    dim: int,
    a: Seq<A::Value>,
    b: Seq<A::Value>,
)
    requires
        is_deterministic::<A>(),
        0 <= k,
        dim > 0,
        k * dim <= before.len(),
        are_normalized::<A>(before, k, dim, a),
        are_normalized::<A>(before, k, dim, b),
    ensures
        a == b,
{
    assert forall|c: int| 0 <= c < k implies #[trigger] row(a, c, dim) == row(b, c, dim) by {
        assert(is_normalized::<A>(row(before, c, dim), row(a, c, dim)));
        lemma_same_normalized::<A>(row(before, c, dim), row(a, c, dim), row(b, c, dim));
    }
    lemma_same_rows(a, b, k, dim);
}

/// A list of candidates has one ranking.
pub(crate) proof fn lemma_same_ranking(
    list: Seq<(i64, usize)>,
    a: Seq<(i64, usize)>,
    b: Seq<(i64, usize)>,
)
    requires
        is_ranking(list, a),
        is_ranking(list, b),
    ensures
        a == b,
{
    let leq = |x: (i64, usize), y: (i64, usize)| ranks_before(x, y);
    vstd::seq_lib::lemma_sorted_unique(a, b, leq);
}

proof fn lemma_same_gap_square<A: Arithmetic>(
    p: A::Value,
    q: A::Value,
    a: A::Total,
    b: A::Total,
)
    requires
        is_deterministic::<A>(),
        is_gap_square::<A>(p, q, a),
        is_gap_square::<A>(p, q, b),
    ensures
        a == b,
{
    let (g, v) = choose|g: A::Value, v: A::Total| #[trigger]
        call_ensures(A::minus, (p, q), g) && #[trigger] call_ensures(A::widen, (g,), v)
            && call_ensures(A::total_times, (v, v), a);
    let (h, w) = choose|h: A::Value, w: A::Total| #[trigger]
        call_ensures(A::minus, (p, q), h) && #[trigger] call_ensures(A::widen, (h,), w)
            && call_ensures(A::total_times, (w, w), b);
    assert(g == h);
    assert(v == w);
}

proof fn lemma_same_squared_distance<A: Arithmetic>(
    p: Seq<A::Value>,
    q: Seq<A::Value>,
    a: A::Total,
    b: A::Total,
)
    requires
        is_deterministic::<A>(),
        is_squared_distance::<A>(p, q, a),
        is_squared_distance::<A>(p, q, b),
    ensures
        a == b,
{
    let s = choose|s: Seq<A::Total>| #[trigger]
        are_gap_squares::<A>(p, q, s) && is_total_sum::<A>(s, a);
    let t = choose|t: Seq<A::Total>| #[trigger]
        are_gap_squares::<A>(p, q, t) && is_total_sum::<A>(t, b);
    assert forall|i: int| 0 <= i < s.len() implies s[i] == t[i] by {
        lemma_same_gap_square::<A>(p[i], q[i], s[i], t[i]);
    }
    assert(s =~= t);
    lemma_same_total_sum::<A>(s, a, b);
}

pub(crate) proof fn lemma_same_objective<A: Arithmetic>(
    data: Seq<A::Value>,
    centroids: Seq<A::Value>,
    assigned: Seq<usize>,
    rows: int,
    dim: int,
    a: A::Total,
    b: A::Total,
)
    requires
        is_deterministic::<A>(),
        is_objective::<A>(data, centroids, assigned, rows, dim, a),
        is_objective::<A>(data, centroids, assigned, rows, dim, b),
    ensures
        a == b,
{
    let s = choose|s: Seq<A::Total>| #[trigger]
        are_point_distances::<A>(data, centroids, assigned, rows, dim, s) && is_total_sum::<A>(
            s,
            a,
        );
    let t = choose|t: Seq<A::Total>| #[trigger]
        are_point_distances::<A>(data, centroids, assigned, rows, dim, t) && is_total_sum::<A>(
            t,
            b,
        );
    assert forall|i: int| 0 <= i < s.len() implies s[i] == t[i] by {
        lemma_same_squared_distance::<A>(
            row(data, i, dim),
            row(centroids, assigned[i] as int, dim),
            s[i],
            t[i],
        );
    }
    assert(s =~= t);
    lemma_same_total_sum::<A>(s, a, b);
}

} // verus!
