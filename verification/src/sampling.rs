//! The random choice of the points to train on and of the first centroids.
use crate::layout::{
    count_up, gather_rows, joined, lemma_joined_row, lemma_product_monotone, lemma_row_fits,
    numbers, row, rows_at,
};
use crate::random::{generator_state, shuffle, shuffle_outcome};
use crate::ranking::{is_ascending, lemma_rearranged, sort_ascending};
use rand::rngs::StdRng;
use vstd::prelude::*;

verus! {

pub open spec fn least(a: int, b: int) -> int {
    if a < b {
        a
    } else {
        b
    }
}

/// How many points to train on: all of them, but no more than
/// `max_points_per_centroid` for each of the `k` clusters, and at least `k`.
pub open spec fn sample_target(total: int, k: int, max_points_per_centroid: int) -> int {
    let capped = least(total, k * max_points_per_centroid);
    if capped < k {
        k
    } else {
        capped
    }
}

/// The first `count` rows of the shuffled list of all rows.
pub open spec fn shuffled_rows(state: Seq<u64>, total: usize, count: int) -> Seq<usize> {
    shuffle_outcome(state, numbers(total)).0.take(least(count, total as int))
}

/// Each number is above the one before it.
pub open spec fn is_strictly_ascending(list: Seq<usize>) -> bool {
    forall|i: int, j: int| 0 <= i < j < list.len() ==> list[i] < list[j]
}

/// `list` names `count` different ones of the first `total` rows.
pub open spec fn is_choice_of_rows(list: Seq<usize>, total: int, count: int) -> bool {
    &&& list.len() == count
    &&& list.no_duplicates()
    &&& forall|i: int| 0 <= i < list.len() ==> #[trigger] list[i] < total
}

/// As many different rows as there are: every row is among them.
pub(crate) proof fn lemma_every_row_is_chosen(order: Seq<usize>, rows: int, r: int) -> (c: int)
    requires
        is_choice_of_rows(order, rows, rows),
        0 <= r < rows,
    ensures
        0 <= c < rows,
        order[c] == r,
    decreases rows,
{
    if exists|c: int| 0 <= c < rows && order[c] == r {
        choose|c: int| 0 <= c < rows && order[c] == r
    } else {
        // Without `r`, the rows of `order` moved down by one above it are `rows` different
        // numbers below `rows - 1`.
        let lowered = Seq::new(
            rows as nat,
            |i: int|
                if order[i] > r {
                    (order[i] - 1) as usize
                } else {
                    order[i]
                },
        );
        assert forall|i: int| 0 <= i < rows implies #[trigger] lowered[i] < rows - 1 by {
            assert(order[i] != r && order[i] < rows);
        }
        if rows == 1 {
            assert(lowered[0] < 0);
            0
        } else {
            let fewer = lowered.drop_last();
            assert forall|i: int, j: int|
                0 <= i < fewer.len() && 0 <= j < fewer.len() && i != j implies fewer[i]
                != fewer[j] by {
                assert(order[i] != order[j]);
                assert(order[i] != r && order[j] != r);
            }
            let last = lowered[rows - 1];
            let c = lemma_every_row_is_chosen(fewer, rows - 1, last as int);
            assert(fewer[c] == last);
            assert(order[c] != order[rows - 1]);
            assert(order[c] != r && order[rows - 1] != r);
            c
        }
    }
}

/// No more different rows can be chosen than there are.
pub(crate) proof fn lemma_choice_fits(list: Seq<usize>, total: int, count: int)
    requires
        0 <= total,
        is_choice_of_rows(list, total, count),
    ensures
        count <= total,
{
    if count > total {
        let first = list.take(total);
        assert(list[total] < total);
        assert(first.no_duplicates());
        let i = lemma_every_row_is_chosen(first, total, list[total] as int);
        assert(list[i] == list[total]);
    }
}

/// `indices` are the rows to train on, and `after` is what the choice leaves in a
/// generator that held `state`: where all rows are wanted nothing is drawn, else it
/// is the first rows of a shuffled list, put in order again.
pub open spec fn is_training_sample(
    total: usize,
    k: int,
    max_points_per_centroid: int,
    state: Seq<u64>,
    indices: Seq<usize>,
    after: Seq<u64>,
) -> bool {
    let target = sample_target(total as int, k, max_points_per_centroid);
    if target == total {
        &&& indices == numbers(total)
        &&& after == state
    } else {
        &&& indices.to_multiset() == shuffled_rows(state, total, target).to_multiset()
        &&& is_choice_of_rows(indices, total as int, least(target, total as int))
        &&& is_strictly_ascending(indices)
        &&& after == shuffle_outcome(state, numbers(total)).1
    }
}

/// The numbers below a bound are all different.
proof fn lemma_numbers_distinct(count: usize)
    ensures
        numbers(count).no_duplicates(),
{
}

/// A part of a list of different rows holds different rows.
proof fn lemma_shuffled_part(shuffled: Seq<usize>, total: usize, count: int)
    requires
        shuffled.to_multiset() == numbers(total).to_multiset(),
        0 <= count <= total,
    ensures
        shuffled.len() == total,
        shuffled.take(count).no_duplicates(),
        forall|i: int| 0 <= i < shuffled.len() ==> #[trigger] shuffled[i] < total,
{
    lemma_numbers_distinct(total);
    lemma_rearranged(numbers(total), shuffled);
    assert forall|i: int| 0 <= i < shuffled.len() implies #[trigger] shuffled[i] < total by {
        assert(shuffled.contains(shuffled[i]));
        assert(numbers(total).contains(shuffled[i]));
    }
}

/// The first `target` of a list of rows, put in ascending order.
pub fn sample_in_order(order: Vec<usize>, target: usize) -> (indices: Vec<usize>)
    ensures
        indices@.to_multiset() == order@.take(
            least(target as int, order@.len() as int),
        ).to_multiset(),
        is_ascending(indices@),
        indices@.len() == least(target as int, order@.len() as int),
{
    let ghost given = order@;
    let mut indices: Vec<usize> = order;
    if target < indices.len() {
        indices.truncate(target);
    }
    let ghost part = indices@;
    assert(part =~= given.take(least(target as int, given.len() as int)));
    sort_ascending(&mut indices);
    proof {
        lemma_rearranged(part, indices@);
    }
    indices
}

/// Chooses the rows to train on.
pub fn select_training_indices(
    total_points: usize,
    k: usize,
    max_points_per_centroid: usize,
    rng: &mut StdRng,
) -> (indices: Vec<usize>)
    requires
        k * max_points_per_centroid <= usize::MAX,
    ensures
        is_training_sample(
            total_points,
            k as int,
            max_points_per_centroid as int,
            generator_state(*old(rng)),
            indices@,
            generator_state(*final(rng)),
        ),
        indices@.len() == least(
            sample_target(total_points as int, k as int, max_points_per_centroid as int),
            total_points as int,
        ),
        is_strictly_ascending(indices@),
        forall|i: int| 0 <= i < indices@.len() ==> #[trigger] indices@[i] < total_points,
{
    let limit: usize = k * max_points_per_centroid;
    let capped: usize = if total_points < limit {
        total_points
    } else {
        limit
    };
    let target: usize = if capped < k {
        k
    } else {
        capped
    };
    if target == total_points {
        return count_up(total_points);
    }
    let mut order: Vec<usize> = count_up(total_points);
    shuffle(&mut order, rng);
    let ghost shuffled = order@;
    let ghost part = shuffled.take(least(target as int, total_points as int));
    proof {
        lemma_shuffled_part(
            shuffled,
            total_points,
            least(target as int, total_points as int),
        );
    }
    let indices: Vec<usize> = sample_in_order(order, target);
    proof {
        lemma_rearranged(part, indices@);
        assert forall|i: int| 0 <= i < indices@.len() implies #[trigger] indices@[i]
            < total_points by {
            assert(indices@.contains(indices@[i]));
            assert(part.contains(indices@[i]));
            let j = choose|j: int| 0 <= j < part.len() && part[j] == indices@[i];
            assert(shuffled[j] < total_points);
        }
    }
    indices
}

/// The first centroids: `k` points taken from the front of a shuffled list of all.
pub open spec fn initial_centroids<T>(
    data: Seq<T>,
    rows: usize,
    dim: int,
    k: int,
    state: Seq<u64>,
) -> Seq<T> {
    joined(rows_at(data, shuffled_rows(state, rows, k), dim))
}

/// Copies the points that the first `k` of a list of rows name.
pub fn centroids_in_order<T: Copy>(
    data: &[T],
    order: Vec<usize>,
    dim: usize,
    k: usize,
) -> (centroids: Vec<T>)
    requires
        k * dim <= usize::MAX,
        forall|i: int|
            0 <= i < least(k as int, order@.len() as int) ==> (#[trigger] order@[i]) * dim + dim
                <= data@.len(),
    ensures
        centroids@ == joined(
            rows_at(data@, order@.take(least(k as int, order@.len() as int)), dim as int),
        ),
        centroids@.len() == least(k as int, order@.len() as int) * dim,
{
    let ghost given = order@;
    let mut indices: Vec<usize> = order;
    if k < indices.len() {
        indices.truncate(k);
    }
    assert(indices@ =~= given.take(least(k as int, given.len() as int)));
    proof {
        lemma_product_monotone(indices@.len() as int, k as int, dim as int);
    }
    gather_rows(data, indices.as_slice(), dim)
}

/// Chooses `k` different points at random to be the first centroids.
pub fn initialize_centroids_random<T: Copy>(
    data: &[T],
    rows: usize,
    dim: usize,
    k: usize,
    rng: &mut StdRng,
) -> (centroids: Vec<T>)
    requires
        rows * dim <= data@.len(),
        k * dim <= usize::MAX,
    ensures
        centroids@ == initial_centroids(
            data@,
            rows,
            dim as int,
            k as int,
            generator_state(*old(rng)),
        ),
        generator_state(*final(rng)) == shuffle_outcome(
            generator_state(*old(rng)),
            numbers(rows),
        ).1,
        is_choice_of_rows(
            shuffled_rows(generator_state(*old(rng)), rows, k as int),
            rows as int,
            least(k as int, rows as int),
        ),
        centroids@.len() == least(k as int, rows as int) * dim,
        shuffle_outcome(
            generator_state(*old(rng)),
            Seq::new(rows as nat, |i: int| i as usize),
        ).0.to_multiset() == Seq::new(rows as nat, |i: int| i as usize).to_multiset(),
        centroids@.len() == if k < rows {
            k * dim
        } else {
            rows * dim
        },
        forall|c: int|
            #![trigger centroids@.subrange(c * dim, c * dim + dim)]
            0 <= c < k && c < rows ==> ({
                let source = shuffle_outcome(
                    generator_state(*old(rng)),
                    Seq::new(rows as nat, |i: int| i as usize),
                ).0[c];
                &&& source < rows
                &&& centroids@.subrange(c * dim, c * dim + dim) == data@.subrange(
                    source * dim,
                    source * dim + dim,
                )
            }),
        forall|c: int|
            0 <= c < least(k as int, rows as int) ==> #[trigger] row(centroids@, c, dim as int)
                == row(
                data@,
                shuffled_rows(generator_state(*old(rng)), rows, k as int)[c] as int,
                dim as int,
            ),
{
    let mut order: Vec<usize> = count_up(rows);
    shuffle(&mut order, rng);
    proof {
        lemma_shuffled_part(order@, rows, least(k as int, rows as int));
        assert forall|i: int| 0 <= i < least(k as int, rows as int) implies (
        #[trigger] order@[i]) * dim + dim <= data@.len() by {
            lemma_row_fits(order@[i] as int, rows as int, dim as int);
        }
        let parts = rows_at(
            data@,
            order@.take(least(k as int, rows as int)),
            dim as int,
        );
        assert forall|c: int| 0 <= c < parts.len() implies (#[trigger] parts[c]).len() == dim by {
            lemma_row_fits(order@[c] as int, rows as int, dim as int);
        }
        assert forall|c: int| 0 <= c < parts.len() implies #[trigger] row(
            joined(parts),
            c,
            dim as int,
        ) == parts[c] by {
            lemma_joined_row(parts, c, dim as int);
        }
    }
    let ghost shuffled = order@;
    let centroids: Vec<T> = centroids_in_order(data, order, dim, k);
    proof {
        assert forall|c: int|
            #![trigger centroids@.subrange(c * dim, c * dim + dim)]
            0 <= c < k && c < rows implies shuffled[c] < rows && centroids@.subrange(
            c * dim,
            c * dim + dim,
        ) == data@.subrange(shuffled[c] * dim, shuffled[c] * dim + dim) by {
            let parts = rows_at(
                data@,
                shuffled.take(least(k as int, rows as int)),
                dim as int,
            );
            assert(row(centroids@, c, dim as int) == parts[c]);
        }
    }
    centroids
}

} // verus!
