//! Where each coordinate stands, place by place.
use crate::centroids::is_transposed;
use crate::layout::{
    contents, joined, lemma_joined_len, lemma_joined_row, lemma_row_fits, numbers, row, rows_at,
    rows_of,
};
use vstd::prelude::*;

verus! {

/// The numbers below `count`: the one at place `i` is `i`.
pub proof fn law_numbers_count_up(count: usize)
    ensures
        numbers(count).len() == count,
        forall|i: int| 0 <= i < count ==> #[trigger] numbers(count)[i] == i,
{
}

/// Row `i` of a matrix holds what stands from place `i * dim` on.
pub proof fn law_row_is_in_place<T>(data: Seq<T>, i: int, dim: int)
    requires
        0 <= i * dim,
        0 <= dim,
        i * dim + dim <= data.len(),
    ensures
        row(data, i, dim).len() == dim,
        forall|d: int| 0 <= d < dim ==> #[trigger] row(data, i, dim)[d] == data[i * dim + d],
{
}

/// Coordinate `d` of part `i` stands at place `i * dim + d` of the joint list of parts of
/// one length.
pub proof fn law_joined_part_is_in_place<T>(parts: Seq<Seq<T>>, dim: int)
    requires
        0 <= dim,
        forall|i: int| 0 <= i < parts.len() ==> (#[trigger] parts[i]).len() == dim,
    ensures
        joined(parts).len() == parts.len() * dim,
        forall|i: int, d: int|
            #![trigger parts[i][d]]
            0 <= i < parts.len() && 0 <= d < dim ==> joined(parts)[i * dim + d] == parts[i][d],
{
    lemma_joined_len(parts, dim);
    assert forall|i: int, d: int|
        #![trigger parts[i][d]]
        0 <= i < parts.len() && 0 <= d < dim implies joined(parts)[i * dim + d] == parts[i][d] by {
        lemma_joined_row(parts, i, dim);
        lemma_row_fits(i, parts.len() as int, dim);
        assert(row(joined(parts), i, dim)[d] == parts[i][d]);
    }
}

/// Coordinate `d` of point `i` stands at place `i * dim + d` of the points laid out row after
/// row.
pub proof fn law_point_is_in_place<V>(data: Seq<Vec<V>>, dim: int)
    requires
        0 <= dim,
        forall|i: int| 0 <= i < data.len() ==> (#[trigger] data[i])@.len() == dim,
    ensures
        joined(contents(data)).len() == data.len() * dim,
        forall|i: int, d: int|
            #![trigger data[i]@[d]]
            0 <= i < data.len() && 0 <= d < dim ==> joined(contents(data))[i * dim + d]
                == data[i]@[d],
{
    let parts = contents(data);
    assert forall|i: int| 0 <= i < parts.len() implies (#[trigger] parts[i]).len() == dim by {
        assert(data[i]@.len() == dim);
    }
    law_joined_part_is_in_place(parts, dim);
    assert forall|i: int, d: int|
        #![trigger data[i]@[d]]
        0 <= i < data.len() && 0 <= d < dim implies joined(parts)[i * dim + d] == data[i]@[d] by {
        assert(parts[i][d] == data[i]@[d]);
    }
}

/// Coordinate `d` of the gathered row `i` is that of the row that the list names at `i`.
pub proof fn law_gathered_row_is_in_place<T>(data: Seq<T>, indices: Seq<usize>, dim: int)
    requires
        0 <= dim,
        forall|i: int|
            0 <= i < indices.len() ==> (#[trigger] indices[i]) * dim + dim <= data.len(),
    ensures
        joined(rows_at(data, indices, dim)).len() == indices.len() * dim,
        forall|i: int, d: int|
            #![trigger joined(rows_at(data, indices, dim))[i * dim + d]]
            0 <= i < indices.len() && 0 <= d < dim ==> joined(rows_at(data, indices, dim))[i * dim
                + d] == data[indices[i] * dim + d],
{
    let parts = rows_at(data, indices, dim);
    assert forall|i: int| 0 <= i < parts.len() implies (#[trigger] parts[i]).len() == dim by {
        assert(indices[i] * dim + dim <= data.len());
        assert(0 <= indices[i] * dim) by (nonlinear_arith)
            requires
                0 <= dim,
        ;
    }
    law_joined_part_is_in_place(parts, dim);
    assert forall|i: int, d: int|
        #![trigger joined(parts)[i * dim + d]]
        0 <= i < indices.len() && 0 <= d < dim implies joined(parts)[i * dim + d]
        == data[indices[i] * dim + d] by {
        assert(indices[i] * dim + dim <= data.len());
        assert(0 <= indices[i] * dim) by (nonlinear_arith)
            requires
                0 <= dim,
        ;
        assert(parts[i][d] == data[indices[i] * dim + d]);
    }
}

/// Coordinate `d` of the row `c` that a matrix is cut into stands at place `c * dim + d` of
/// it.
pub proof fn law_cut_row_is_in_place<V>(rows: Seq<Vec<V>>, data: Seq<V>, count: int, dim: int)
    requires
        0 <= count,
        0 <= dim,
        count * dim <= data.len(),
        contents(rows) == rows_of(data, count, dim),
    ensures
        rows.len() == count,
        forall|c: int| 0 <= c < count ==> (#[trigger] rows[c])@.len() == dim,
        forall|c: int, d: int|
            #![trigger rows[c]@[d]]
            0 <= c < count && 0 <= d < dim ==> rows[c]@[d] == data[c * dim + d],
{
    assert(rows.len() == contents(rows).len());
    assert forall|c: int| 0 <= c < count implies (#[trigger] rows[c])@ == row(data, c, dim)
        && rows[c]@.len() == dim by {
        lemma_row_fits(c, count, dim);
        assert(contents(rows)[c] == rows_of(data, count, dim)[c]);
    }
    assert forall|c: int, d: int|
        #![trigger rows[c]@[d]]
        0 <= c < count && 0 <= d < dim implies rows[c]@[d] == data[c * dim + d] by {
        lemma_row_fits(c, count, dim);
        assert(rows[c]@ == row(data, c, dim));
    }
}

/// Coordinate `d` of centroid `c` stands at place `d * k + c` of the columns, and there is
/// nothing else.
pub proof fn law_columns_hold_the_coordinates<T>(
    centroids: Seq<T>,
    k: int,
    dim: int,
    columns: Seq<T>,
)
    requires
        is_transposed(centroids, k, dim, columns),
    ensures
        columns.len() == dim * k,
        forall|c: int, d: int|
            #![trigger columns[d * k + c]]
            0 <= c < k && 0 <= d < dim ==> columns[d * k + c] == centroids[c * dim + d],
{
    assert forall|c: int, d: int|
        #![trigger columns[d * k + c]]
        0 <= c < k && 0 <= d < dim implies columns[d * k + c] == centroids[c * dim + d] by {
        let there = centroids[c * dim + d];
    }
}

} // verus!
