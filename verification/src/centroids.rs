//! Centroids seen column by column, and centroids scaled to unit length.
use crate::arithmetic::{compute_norm, is_norm, Arithmetic};
use crate::layout::{lemma_cell_unique, lemma_product_monotone, lemma_row_fits, repeated, row};
use vstd::prelude::*;

verus! {

/// `columns` holds the `k` centroids column by column: coordinate `d` of centroid
/// `c` stands at `d * k + c`.
pub open spec fn is_transposed<T>(centroids: Seq<T>, k: int, dim: int, columns: Seq<T>) -> bool {
    &&& columns.len() == dim * k
    &&& forall|c: int, d: int|
        0 <= c < k && 0 <= d < dim ==> #[trigger] columns[d * k + c] == #[trigger] centroids[c * dim
            + d]
}

/// Refills both buffers with the centroids column by column and with their squared
/// norms.
pub fn rebuild_centroid_views<A: Arithmetic>(
    centroids: &[A::Value],
    k: usize,
    dim: usize,
    centroid_col: &mut Vec<A::Value>,
    centroid_norms: &mut Vec<A::Value>,
)
    requires
        k * dim <= centroids@.len(),
    ensures
        is_transposed(centroids@, k as int, dim as int, final(centroid_col)@),
        final(centroid_norms)@.len() == k,
        forall|c: int|
            0 <= c < k ==> is_norm::<A>(
                row(centroids@, c, dim as int),
                #[trigger] final(centroid_norms)@[c],
            ),
{
    let size: usize = centroids.len();
    assert(dim * k == k * dim) by (nonlinear_arith);
    *centroid_col = repeated(A::zero(), dim * k);
    centroid_norms.clear();
    let mut cluster: usize = 0;
    while cluster < k
        invariant
            cluster <= k,
            size == centroids@.len(),
            k * dim <= size,
            dim * k == k * dim,
            centroid_col@.len() == dim * k,
            forall|c: int, d: int|
                0 <= c < cluster && 0 <= d < dim ==> #[trigger] centroid_col@[d * k + c]
                    == #[trigger] centroids@[c * dim + d],
            centroid_norms@.len() == cluster,
            forall|c: int|
                0 <= c < cluster ==> is_norm::<A>(
                    row(centroids@, c, dim as int),
                    #[trigger] centroid_norms@[c],
                ),
        decreases k - cluster,
    {
        proof {
            lemma_row_fits(cluster as int, k as int, dim as int);
        }
        let mut d: usize = 0;
        while d < dim
            invariant
                cluster < k,
                d <= dim,
                size == centroids@.len(),
                k * dim <= size,
                cluster * dim + dim <= k * dim,
                0 <= cluster * dim,
                dim * k == k * dim,
                centroid_col@.len() == dim * k,
                forall|c: int, e: int|
                    0 <= c < cluster && 0 <= e < dim ==> #[trigger] centroid_col@[e * k + c]
                        == #[trigger] centroids@[c * dim + e],
                forall|e: int|
                    0 <= e < d ==> #[trigger] centroid_col@[e * k + cluster] == centroids@[cluster
                        * dim + e],
            decreases dim - d,
        {
            proof {
                lemma_row_fits(d as int, dim as int, k as int);
            }
            let ghost before = centroid_col@;
            centroid_col.set(d * k + cluster, centroids[cluster * dim + d]);
            assert forall|c: int, e: int|
                0 <= c < cluster && 0 <= e < dim implies #[trigger] centroid_col@[e * k + c]
                == #[trigger] centroids@[c * dim + e] by {
                if e * k + c == d * k + cluster {
                    lemma_cell_unique(e, c, d as int, cluster as int, k as int);
                }
                lemma_row_fits(e, dim as int, k as int);
                assert(before[e * k + c] == centroids@[c * dim + e]);
            }
            assert forall|e: int| 0 <= e < d + 1 implies #[trigger] centroid_col@[e * k + cluster]
                == centroids@[cluster * dim + e] by {
                if e < d {
                    if e * k + cluster == d * k + cluster {
                        lemma_cell_unique(e, cluster as int, d as int, cluster as int, k as int);
                    }
                    lemma_row_fits(e, dim as int, k as int);
                    assert(before[e * k + cluster] == centroids@[cluster * dim + e]);
                }
            }
            d = d + 1;
        }
        let norm = compute_norm::<A>(centroids, cluster * dim, dim);
        centroid_norms.push(norm);
        assert forall|c: int, e: int|
            0 <= c < cluster + 1 && 0 <= e < dim implies #[trigger] centroid_col@[e * k + c]
            == #[trigger] centroids@[c * dim + e] by {
            if c == cluster {
                assert(centroid_col@[e * k + cluster] == centroids@[cluster * dim + e]);
            }
        }
        cluster = cluster + 1;
    }
}

/// `scaled` holds each of `values` times `factor`.
pub open spec fn is_scaled<A: Arithmetic>(
    values: Seq<A::Value>,
    factor: A::Value,
    scaled: Seq<A::Value>,
) -> bool {
    &&& scaled.len() == values.len()
    &&& forall|d: int|
        0 <= d < values.len() ==> call_ensures(A::times, (values[d], factor), #[trigger] scaled[d])
}

/// `scaled` holds `values` times the reciprocal of the root of `norm`.
pub open spec fn is_scaled_by_norm<A: Arithmetic>(
    values: Seq<A::Value>,
    norm: A::Value,
    scaled: Seq<A::Value>,
) -> bool {
    exists|root: A::Value, inverse: A::Value| #[trigger]
        call_ensures(A::square_root, (norm,), root) && #[trigger] call_ensures(
            A::reciprocal,
            (root,),
            inverse,
        ) && is_scaled::<A>(values, inverse, scaled)
}

/// `after` is `before` scaled by its own norm, or `before` itself where that norm
/// is not above zero.
pub open spec fn is_normalized<A: Arithmetic>(before: Seq<A::Value>, after: Seq<A::Value>) -> bool {
    exists|norm: A::Value, key: Option<i64>| #[trigger]
        is_norm::<A>(before, norm) && #[trigger] call_ensures(A::key, (norm,), key) && if key
            is Some && key.unwrap() > 0 {
            is_scaled_by_norm::<A>(before, norm, after)
        } else {
            after == before
        }
}

/// Each of the first `k` rows of `before` has been normalized in `after`, and
/// nothing else has changed.
pub open spec fn are_normalized<A: Arithmetic>(
    before: Seq<A::Value>,
    k: int,
    dim: int,
    after: Seq<A::Value>,
) -> bool {
    &&& after.len() == before.len()
    &&& forall|c: int|
        0 <= c < k ==> is_normalized::<A>(#[trigger] row(before, c, dim), row(after, c, dim))
    &&& after.skip(k * dim) == before.skip(k * dim)
}

/// Multiplies `len` values from `start` on by `factor`.
fn scale_range<A: Arithmetic>(
    values: &mut Vec<A::Value>,
    start: usize,
    len: usize,
    factor: A::Value,
)
    requires
        start + len <= old(values)@.len(),
    ensures
        final(values)@.len() == old(values)@.len(),
        is_scaled::<A>(
            old(values)@.subrange(start as int, start + len),
            factor,
            final(values)@.subrange(start as int, start + len),
        ),
        forall|i: int|
            0 <= i < old(values)@.len() && !(start <= i < start + len)
                ==> #[trigger] final(values)@[i] == old(values)@[i],
{
    let size: usize = values.len();
    let ghost before = values@;
    let mut i: usize = 0;
    while i < len
        invariant
            i <= len,
            start + len <= size,
            values@.len() == size,
            before.len() == size,
            forall|j: int|
                start <= j < start + i ==> call_ensures(
                    A::times,
                    (before[j], factor),
                    #[trigger] values@[j],
                ),
            forall|j: int|
                0 <= j < size && !(start <= j < start + i) ==> #[trigger] values@[j] == before[j],
        decreases len - i,
    {
        let value = A::times(values[start + i], factor);
        values.set(start + i, value);
        i = i + 1;
    }
}

/// Scales each centroid to unit length. A centroid whose squared norm is not above
/// zero is left as it is.
pub fn normalize_centroids<A: Arithmetic>(centroids: &mut Vec<A::Value>, k: usize, dim: usize)
    requires
        k * dim <= old(centroids)@.len(),
    ensures
        are_normalized::<A>(old(centroids)@, k as int, dim as int, final(centroids)@),
{
    let size: usize = centroids.len();
    let ghost before = centroids@;
    let mut cluster: usize = 0;
    while cluster < k
        invariant
            cluster <= k,
            k * dim <= size,
            centroids@.len() == size,
            before.len() == size,
            forall|c: int|
                0 <= c < cluster ==> is_normalized::<A>(
                    #[trigger] row(before, c, dim as int),
                    row(centroids@, c, dim as int),
                ),
            forall|i: int| cluster * dim <= i < size ==> #[trigger] centroids@[i] == before[i],
        decreases k - cluster,
    {
        proof {
            lemma_row_fits(cluster as int, k as int, dim as int);
        }
        let offset: usize = cluster * dim;
        let ghost current = centroids@;
        assert(row(current, cluster as int, dim as int) =~= row(
            before,
            cluster as int,
            dim as int,
        ));
        let norm = compute_norm::<A>(centroids.as_slice(), offset, dim);
        let key = A::key(norm);
        let positive: bool = match key {
            Some(place) => place > 0,
            None => false,
        };
        if positive {
            let root = A::square_root(norm);
            let inverse = A::reciprocal(root);
            scale_range::<A>(centroids, offset, dim, inverse);
            assert(is_scaled_by_norm::<A>(
                row(before, cluster as int, dim as int),
                norm,
                row(centroids@, cluster as int, dim as int),
            ));
        }
        assert(is_normalized::<A>(
            row(before, cluster as int, dim as int),
            row(centroids@, cluster as int, dim as int),
        ));
        assert forall|c: int| 0 <= c < cluster + 1 implies is_normalized::<A>(
            #[trigger] row(before, c, dim as int),
            row(centroids@, c, dim as int),
        ) by {
            if c < cluster {
                lemma_row_fits(c, cluster as int, dim as int);
                assert(row(centroids@, c, dim as int) =~= row(current, c, dim as int));
            }
        }
        cluster = cluster + 1;
    }
    proof {
        lemma_product_monotone(0, k as int, dim as int);
    }
    assert(centroids@.skip(k * dim) =~= before.skip(k * dim));
}

} // verus!
