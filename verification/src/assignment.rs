//! The assignment of a batch of points to their nearest centroids.
use crate::arithmetic::Arithmetic;
use crate::layout::lemma_row_fits;
use vstd::prelude::*;
use vstd::slice::slice_subrange;

verus! {

/// The key of a distance that is taken as zero where it came out below.
pub open spec fn clamped(key: Option<i64>) -> Option<i64> {
    match key {
        Some(place) if place < 0 => Some(0),
        _ => key,
    }
}

/// `key` is the place of the squared distance of a point and a centroid with the
/// given squared norms and dot product: the norms added, less twice the product.
pub open spec fn is_distance_key<A: Arithmetic>(
    norm: A::Value,
    centroid_norm: A::Value,
    dot: A::Value,
    key: Option<i64>,
) -> bool {
    exists|
        norms: A::Value,
        two: A::Value,
        twice: A::Value,
        distance: A::Value,
        raw: Option<i64>,
    | #[trigger]
        call_ensures(A::plus, (norm, centroid_norm), norms) && #[trigger] call_ensures(
            A::two,
            (),
            two,
        ) && #[trigger] call_ensures(A::times, (two, dot), twice) && #[trigger] call_ensures(
            A::minus,
            (norms, twice),
            distance,
        ) && #[trigger] call_ensures(A::key, (distance,), raw) && key == clamped(raw)
}

/// The same with the dot product read at a place of `products`.
pub open spec fn is_cell_key<A: Arithmetic>(
    norm: A::Value,
    centroid_norm: A::Value,
    products: A::Products,
    place: usize,
    key: Option<i64>,
) -> bool {
    exists|dot: A::Value| #[trigger]
        call_ensures(A::entry, (&products, place), dot) && is_distance_key::<A>(
            norm,
            centroid_norm,
            dot,
            key,
        )
}

/// `keys` holds the distance keys of a point, the row `r` of its batch, to the first
/// `keys.len()` of the centroids.
pub open spec fn are_distance_keys<A: Arithmetic>(
    norm: A::Value,
    centroid_norms: Seq<A::Value>,
    products: A::Products,
    r: int,
    keys: Seq<Option<i64>>,
) -> bool {
    forall|c: int|
        0 <= c < keys.len() ==> is_cell_key::<A>(
            norm,
            centroid_norms[c],
            products,
            (r * centroid_norms.len() + c) as usize,
            #[trigger] keys[c],
        )
}

/// `cluster` is the first of those that have the least key, and `best` is that key.
/// Where no key is below infinity the first cluster of all is taken.
pub open spec fn is_nearest(keys: Seq<Option<i64>>, cluster: int, best: i64) -> bool {
    &&& forall|c: int|
        0 <= c < keys.len() ==> ((#[trigger] keys[c]) is Some ==> best <= keys[c].unwrap())
    &&& if best == i64::MAX {
        cluster == 0
    } else {
        &&& 0 <= cluster < keys.len()
        &&& keys[cluster] == Some(best)
        &&& forall|c: int| 0 <= c < cluster ==> #[trigger] keys[c] != Some(best)
    }
}

/// `cluster` is the nearest to the point of row `r`, at the distance key `best`.
pub open spec fn is_row_nearest<A: Arithmetic>(
    norm: A::Value,
    centroid_norms: Seq<A::Value>,
    products: A::Products,
    r: int,
    cluster: usize,
    best: i64,
) -> bool {
    exists|keys: Seq<Option<i64>>| #[trigger]
        are_distance_keys::<A>(norm, centroid_norms, products, r, keys) && keys.len()
            == centroid_norms.len() && is_nearest(keys, cluster as int, best)
}

/// The first `assigned.len()` points are assigned to their nearest centroids, at
/// the distance keys `keys`.
pub open spec fn are_rows_nearest<A: Arithmetic>(
    norms: Seq<A::Value>,
    centroid_norms: Seq<A::Value>,
    products: A::Products,
    assigned: Seq<usize>,
    keys: Seq<i64>,
) -> bool {
    &&& assigned.len() == keys.len()
    &&& forall|r: int|
        0 <= r < keys.len() ==> is_row_nearest::<A>(
            norms[r],
            centroid_norms,
            products,
            r,
            assigned[r],
            #[trigger] keys[r],
        )
}

/// `products` is the product of two matrices.
pub open spec fn is_product<A: Arithmetic>(
    rows: usize,
    inner: usize,
    columns: usize,
    left: Seq<A::Value>,
    right: Seq<A::Value>,
    products: A::Products,
) -> bool {
    exists|x: &[A::Value], y: &[A::Value]|
        x@ == left && y@ == right && #[trigger] call_ensures(
            A::multiply,
            (rows, inner, columns, x, y),
            products,
        )
}

/// The points of a batch are assigned to their nearest centroids, at the distance
/// keys `keys`. All dot products come from one product of matrices.
pub open spec fn is_batch_assigned<A: Arithmetic>(
    data: Seq<A::Value>,
    norms: Seq<A::Value>,
    dim: usize,
    columns: Seq<A::Value>,
    centroid_norms: Seq<A::Value>,
    assigned: Seq<usize>,
    keys: Seq<i64>,
) -> bool {
    &&& assigned.len() == norms.len()
    &&& exists|products: A::Products| #[trigger]
        is_product::<A>(
            norms.len() as usize,
            dim,
            centroid_norms.len() as usize,
            data,
            columns,
            products,
        ) && are_rows_nearest::<A>(norms, centroid_norms, products, assigned, keys)
}

/// The points of a batch are assigned to their nearest centroids.
pub open spec fn is_batch_nearest<A: Arithmetic>(
    data: Seq<A::Value>,
    norms: Seq<A::Value>,
    dim: usize,
    columns: Seq<A::Value>,
    centroid_norms: Seq<A::Value>,
    assigned: Seq<usize>,
) -> bool {
    exists|keys: Seq<i64>| #[trigger]
        is_batch_assigned::<A>(data, norms, dim, columns, centroid_norms, assigned, keys)
}

/// Every point of a batch is assigned to a cluster there is.
pub(crate) proof fn lemma_assigned_below<A: Arithmetic>(
    data: Seq<A::Value>,
    norms: Seq<A::Value>,
    dim: usize,
    columns: Seq<A::Value>,
    centroid_norms: Seq<A::Value>,
    assigned: Seq<usize>,
    keys: Seq<i64>,
)
    requires
        is_batch_assigned::<A>(data, norms, dim, columns, centroid_norms, assigned, keys),
        centroid_norms.len() > 0,
    ensures
        forall|r: int| 0 <= r < assigned.len() ==> #[trigger] assigned[r] < centroid_norms.len(),
{
    let products = choose|products: A::Products| #[trigger]
        is_product::<A>(
            norms.len() as usize,
            dim,
            centroid_norms.len() as usize,
            data,
            columns,
            products,
        ) && are_rows_nearest::<A>(norms, centroid_norms, products, assigned, keys);
    assert forall|r: int| 0 <= r < assigned.len() implies #[trigger] assigned[r]
        < centroid_norms.len() by {
        assert(is_row_nearest::<A>(
            norms[r],
            centroid_norms,
            products,
            r,
            assigned[r],
            keys[r],
        ));
    }
}

/// Finds the centroid nearest to the point of row `r` of a batch.
pub fn nearest_cluster<A: Arithmetic>(
    norm: A::Value,
    centroid_norms: &[A::Value],
    products: &A::Products,
    r: usize,
) -> (nearest: (usize, i64))
    requires
        r * centroid_norms@.len() + centroid_norms@.len() <= usize::MAX,
    ensures
        is_row_nearest::<A>(
            norm,
            centroid_norms@,
            *products,
            r as int,
            nearest.0,
            nearest.1,
        ),
        centroid_norms@.len() > 0 ==> nearest.0 < centroid_norms@.len(),
{
    let k: usize = centroid_norms.len();
    let mut best_cluster: usize = 0;
    let mut best_distance: i64 = i64::MAX;
    let ghost mut keys: Seq<Option<i64>> = Seq::empty();
    let mut cluster: usize = 0;
    assert(0 <= r * k) by (nonlinear_arith);
    while cluster < k
        invariant
            cluster <= k,
            k == centroid_norms@.len(),
            0 <= r * k,
            r * k + k <= usize::MAX,
            keys.len() == cluster,
            are_distance_keys::<A>(norm, centroid_norms@, *products, r as int, keys),
            is_nearest(keys, best_cluster as int, best_distance),
        decreases k - cluster,
    {
        let dot = A::entry(products, r * k + cluster);
        let norms = A::plus(norm, centroid_norms[cluster]);
        let twice = A::times(A::two(), dot);
        let distance = A::minus(norms, twice);
        let raw = A::key(distance);
        let key: Option<i64> = match raw {
            Some(place) => if place < 0 {
                Some(0)
            } else {
                Some(place)
            },
            None => None,
        };
        proof {
            assert(key == clamped(raw));
            assert(is_distance_key::<A>(norm, centroid_norms@[cluster as int], dot, key));
            keys = keys.push(key);
        }
        if let Some(place) = key {
            if place < best_distance {
                best_distance = place;
                best_cluster = cluster;
            }
        }
        cluster = cluster + 1;
    }
    (best_cluster, best_distance)
}

/// Assigns the points of a batch to their nearest centroids.
pub fn compute_chunk_assignments_only<A: Arithmetic>(
    data_chunk: &[A::Value],
    norms_chunk: &[A::Value],
    len: usize,
    k: usize,
    dim: usize,
    centroid_col: &[A::Value],
    centroid_norms: &[A::Value],
) -> (assignments: Vec<usize>)
    requires
        norms_chunk@.len() >= len,
        centroid_norms@.len() >= k,
        data_chunk@.len() >= len * dim,
        centroid_col@.len() >= dim * k,
        len * k <= usize::MAX,
    ensures
        is_batch_nearest::<A>(
            data_chunk@.take(len * dim),
            norms_chunk@.take(len as int),
            dim,
            centroid_col@.take(dim * k),
            centroid_norms@.take(k as int),
            assignments@,
        ),
        k > 0 ==> forall|r: int| 0 <= r < len ==> #[trigger] assignments@[r] < k,
{
    let data_size: usize = data_chunk.len();
    let columns_size: usize = centroid_col.len();
    let data_chunk = slice_subrange(data_chunk, 0, len * dim);
    let norms_chunk = slice_subrange(norms_chunk, 0, len);
    let centroid_col = slice_subrange(centroid_col, 0, dim * k);
    let centroid_norms = slice_subrange(centroid_norms, 0, k);
    let dot_products = A::multiply(len, dim, k, data_chunk, centroid_col);
    let mut assignments: Vec<usize> = Vec::with_capacity(len);
    let ghost mut keys: Seq<i64> = Seq::empty();
    let mut r: usize = 0;
    while r < len
        invariant
            r <= len,
            norms_chunk@.len() == len,
            centroid_norms@.len() == k,
            len * k <= usize::MAX,
            keys.len() == r,
            are_rows_nearest::<A>(
                norms_chunk@,
                centroid_norms@,
                dot_products,
                assignments@,
                keys,
            ),
            k > 0 ==> forall|i: int| 0 <= i < r ==> #[trigger] assignments@[i] < k,
        decreases len - r,
    {
        proof {
            lemma_row_fits(r as int, len as int, k as int);
        }
        let nearest = nearest_cluster::<A>(norms_chunk[r], centroid_norms, &dot_products, r);
        assignments.push(nearest.0);
        proof {
            keys = keys.push(nearest.1);
        }
        r = r + 1;
    }
    assert(norms_chunk@.len() as usize == len);
    assert(centroid_norms@.len() as usize == k);
    assert(is_product::<A>(len, dim, k, data_chunk@, centroid_col@, dot_products));
    assert(is_batch_assigned::<A>(
        data_chunk@,
        norms_chunk@,
        dim,
        centroid_col@,
        centroid_norms@,
        assignments@,
        keys,
    ));
    assignments
}

} // verus!
