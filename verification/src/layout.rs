//! Matrices held row after row in one list, and the copying between them.
use vstd::prelude::*;

verus! {

/// Row `i` of a matrix with rows of `dim` values.
pub open spec fn row<T>(data: Seq<T>, i: int, dim: int) -> Seq<T> {
    data.subrange(i * dim, i * dim + dim)
}

/// The lists of `parts`, one after the other.
pub open spec fn joined<T>(parts: Seq<Seq<T>>) -> Seq<T>
    decreases parts.len(),
{
    if parts.len() == 0 {
        Seq::empty()
    } else {
        joined(parts.drop_last()) + parts.last()
    }
}

/// The rows of `data` that `indices` names, in their order.
pub open spec fn rows_at<T>(data: Seq<T>, indices: Seq<usize>, dim: int) -> Seq<Seq<T>> {
    Seq::new(indices.len(), |i: int| row(data, indices[i] as int, dim))
}

/// The contents of each of a list of vectors.
pub open spec fn contents<T>(vectors: Seq<Vec<T>>) -> Seq<Seq<T>> {
    Seq::new(vectors.len(), |i: int| vectors[i]@)
}

pub(crate) proof fn lemma_row_fits(i: int, rows: int, dim: int)
    by (nonlinear_arith)
    requires
        0 <= i < rows,
        0 <= dim,
    ensures
        0 <= i * dim,
        i * dim + dim <= rows * dim,
        (i + 1) * dim == i * dim + dim,
{
}

pub(crate) proof fn lemma_product_monotone(a: int, b: int, dim: int)
    by (nonlinear_arith)
    requires
        0 <= a <= b,
        0 <= dim,
    ensures
        0 <= a * dim <= b * dim,
{
}

/// Two cells of a matrix that have one place are one cell.
pub(crate) proof fn lemma_cell_unique(i: int, d: int, j: int, e: int, dim: int)
    by (nonlinear_arith)
    requires
        0 <= d < dim,
        0 <= e < dim,
        i * dim + d == j * dim + e,
    ensures
        i == j,
        d == e,
{
    if i < j {
        assert(i * dim + dim <= j * dim);
    }
    if j < i {
        assert(j * dim + dim <= i * dim);
    }
}

/// Every place of a matrix is a cell.
pub(crate) proof fn lemma_cell_exists(place: int, rows: int, dim: int)
    requires
        0 <= place < rows * dim,
        0 < dim,
    ensures
        0 <= place / dim < rows,
        0 <= place % dim < dim,
        (place / dim) * dim + place % dim == place,
{
    vstd::arithmetic::div_mod::lemma_fundamental_div_mod(place, dim);
    vstd::arithmetic::div_mod::lemma_mod_bound(place, dim);
    assert(0 <= place / dim < rows) by (nonlinear_arith)
        requires
            0 <= place < rows * dim,
            0 < dim,
            place == dim * (place / dim) + place % dim,
            0 <= place % dim < dim,
    ;
    assert(dim * (place / dim) == (place / dim) * dim) by (nonlinear_arith);
}

/// The joint list of parts of one length has their lengths in sum.
pub(crate) proof fn lemma_joined_len<T>(parts: Seq<Seq<T>>, dim: int)
    requires
        0 <= dim,
        forall|i: int| 0 <= i < parts.len() ==> (#[trigger] parts[i]).len() == dim,
    ensures
        joined(parts).len() == parts.len() * dim,
    decreases parts.len(),
{
    if parts.len() > 0 {
        lemma_joined_len(parts.drop_last(), dim);
        lemma_row_fits(parts.len() - 1, parts.len() as int, dim);
    } else {
        assert(parts.len() * dim == 0) by (nonlinear_arith)
            requires
                parts.len() == 0,
        ;
    }
}

/// Each of the parts of one length is a row of their joint list.
pub(crate) proof fn lemma_joined_row<T>(parts: Seq<Seq<T>>, i: int, dim: int)
    requires
        0 <= dim,
        forall|j: int| 0 <= j < parts.len() ==> (#[trigger] parts[j]).len() == dim,
        0 <= i < parts.len(),
    ensures
        joined(parts).len() == parts.len() * dim,
        row(joined(parts), i, dim) == parts[i],
    decreases parts.len(),
{
    let init = parts.drop_last();
    lemma_joined_len(parts, dim);
    lemma_joined_len(init, dim);
    lemma_row_fits(i, parts.len() as int, dim);
    if i < parts.len() - 1 {
        lemma_joined_row(init, i, dim);
        lemma_row_fits(i, init.len() as int, dim);
        assert(row(joined(parts), i, dim) =~= row(joined(init), i, dim));
    } else {
        assert(row(joined(parts), i, dim) =~= parts[i]);
    }
}

/// Each of the parts stands in the joint list behind those before it.
pub(crate) proof fn lemma_joined_part<T>(parts: Seq<Seq<T>>, i: int)
    requires
        0 <= i < parts.len(),
    ensures
        joined(parts.take(i + 1)).len() == joined(parts.take(i)).len() + parts[i].len(),
        joined(parts.take(i + 1)).len() <= joined(parts).len(),
        joined(parts).subrange(
            joined(parts.take(i)).len() as int,
            joined(parts.take(i + 1)).len() as int,
        ) == parts[i],
    decreases parts.len(),
{
    assert(parts.take(i + 1).drop_last() =~= parts.take(i));
    let init = parts.drop_last();
    if i < init.len() {
        lemma_joined_part(init, i);
        assert(init.take(i) =~= parts.take(i));
        assert(init.take(i + 1) =~= parts.take(i + 1));
        assert(joined(parts).subrange(
            joined(parts.take(i)).len() as int,
            joined(parts.take(i + 1)).len() as int,
        ) =~= parts[i]) by {
            assert(joined(init).subrange(
                joined(parts.take(i)).len() as int,
                joined(parts.take(i + 1)).len() as int,
            ) == parts[i]);
            assert(joined(parts).subrange(
                joined(parts.take(i)).len() as int,
                joined(parts.take(i + 1)).len() as int,
            ) =~= joined(init).subrange(
                joined(parts.take(i)).len() as int,
                joined(parts.take(i + 1)).len() as int,
            ));
        }
    } else {
        assert(parts.take(i + 1) =~= parts);
        assert(init =~= parts.take(i));
        assert(joined(parts).subrange(
            joined(parts.take(i)).len() as int,
            joined(parts).len() as int,
        ) =~= parts[i]);
    }
}

/// What holds of all items of all parts holds of those of their joint list.
pub(crate) proof fn lemma_joined_all<T>(parts: Seq<Seq<T>>, property: spec_fn(T) -> bool)
    requires
        forall|i: int, j: int|
            0 <= i < parts.len() && 0 <= j < parts[i].len() ==> property(#[trigger] parts[i][j]),
    ensures
        forall|j: int| 0 <= j < joined(parts).len() ==> property(#[trigger] joined(parts)[j]),
    decreases parts.len(),
{
    if parts.len() > 0 {
        let init = parts.drop_last();
        assert forall|i: int, j: int| 0 <= i < init.len() && 0 <= j < init[i].len() implies property(
            #[trigger] init[i][j],
        ) by {
            assert(init[i] == parts[i]);
            assert(property(parts[i][j]));
        }
        lemma_joined_all(init, property);
        assert forall|j: int| 0 <= j < joined(parts).len() implies property(
            #[trigger] joined(parts)[j],
        ) by {
            if j < joined(init).len() {
                assert(joined(parts)[j] == joined(init)[j]);
            } else {
                assert(property(parts[parts.len() - 1][j - joined(init).len()]));
            }
        }
    }
}

/// Appends a range of `source`.
pub fn append_range<T: Copy>(target: &mut Vec<T>, source: &[T], start: usize, len: usize)
    requires
        start + len <= source@.len(),
    ensures
        final(target)@ == old(target)@ + source@.subrange(start as int, start + len),
{
    let ghost before = target@;
    let size: usize = source.len();
    let mut i: usize = 0;
    while i < len
        invariant
            i <= len,
            size == source@.len(),
            start + len <= size,
            target@ == before + source@.subrange(start as int, start + i),
        decreases len - i,
    {
        target.push(source[start + i]);
        i = i + 1;
        assert(target@ =~= before + source@.subrange(start as int, start + i));
    }
}

/// Overwrites the values from `start` on with those of `source`.
pub fn overwrite<T: Copy>(target: &mut Vec<T>, start: usize, source: &[T])
    requires
        start + source@.len() <= old(target)@.len(),
    ensures
        final(target)@ == old(target)@.take(start as int) + source@ + old(target)@.skip(
            start + source@.len(),
        ),
{
    let ghost before = target@;
    let size: usize = target.len();
    let mut i: usize = 0;
    while i < source.len()
        invariant
            i <= source@.len(),
            size == before.len(),
            start + source@.len() <= size,
            target@ == before.take(start as int) + source@.take(i as int) + before.skip(start + i),
        decreases source@.len() - i,
    {
        target.set(start + i, source[i]);
        i = i + 1;
        assert(target@ =~= before.take(start as int) + source@.take(i as int) + before.skip(
            start + i,
        ));
    }
    assert(source@.take(i as int) =~= source@);
}

/// A list that holds one value `count` times.
pub fn repeated<T: Copy>(value: T, count: usize) -> (list: Vec<T>)
    ensures
        list@ == Seq::new(count as nat, |i: int| value),
{
    let mut list: Vec<T> = Vec::with_capacity(count);
    while list.len() < count
        invariant
            list@.len() <= count,
            forall|i: int| 0 <= i < list@.len() ==> list@[i] == value,
        decreases count - list@.len(),
    {
        list.push(value);
    }
    assert(list@ =~= Seq::new(count as nat, |i: int| value));
    list
}

/// The numbers `0, 1, .., count - 1`.
pub open spec fn numbers(count: usize) -> Seq<usize> {
    Seq::new(count as nat, |i: int| i as usize)
}

/// Lists the numbers below `count` in order.
pub fn count_up(count: usize) -> (list: Vec<usize>)
    ensures
        list@ == numbers(count),
{
    let mut list: Vec<usize> = Vec::with_capacity(count);
    let mut i: usize = 0;
    while i < count
        invariant
            i <= count,
            list@ == numbers(i),
        decreases count - i,
    {
        list.push(i);
        i = i + 1;
        assert(list@ =~= numbers(i));
    }
    list
}

/// Lays the vectors of a data set out row after row.
pub fn flatten_dataset<T: Copy>(data: &[Vec<T>], capacity: usize) -> (flattened: Vec<T>)
    ensures
        flattened@ == joined(contents(data@)),
{
    let mut flattened: Vec<T> = Vec::with_capacity(capacity);
    let mut i: usize = 0;
    assert(contents(data@.take(0)) =~= Seq::<Seq<T>>::empty());
    while i < data.len()
        invariant
            i <= data@.len(),
            flattened@ == joined(contents(data@.take(i as int))),
        decreases data@.len() - i,
    {
        let vector = &data[i];
        append_range(&mut flattened, vector.as_slice(), 0, vector.len());
        assert(vector@.subrange(0, vector@.len() as int) =~= vector@);
        i = i + 1;
        assert(contents(data@.take(i as int)).drop_last() =~= contents(data@.take(i - 1)));
        assert(contents(data@.take(i as int)).last() == vector@);
    }
    assert(data@.take(i as int) =~= data@);
    flattened
}

/// Copies the rows that `indices` names, in their order.
pub fn gather_rows<T: Copy>(data: &[T], indices: &[usize], dim: usize) -> (gathered: Vec<T>)
    requires
        indices@.len() * dim <= usize::MAX,
        forall|i: int|
            0 <= i < indices@.len() ==> (#[trigger] indices@[i]) * dim + dim <= data@.len(),
    ensures
        gathered@ == joined(rows_at(data@, indices@, dim as int)),
        gathered@.len() == indices@.len() * dim,
{
    let size: usize = data.len();
    let mut gathered: Vec<T> = Vec::with_capacity(indices.len() * dim);
    let mut i: usize = 0;
    assert(rows_at(data@, indices@.take(0), dim as int) =~= Seq::<Seq<T>>::empty());
    while i < indices.len()
        invariant
            i <= indices@.len(),
            size == data@.len(),
            forall|j: int|
                0 <= j < indices@.len() ==> (#[trigger] indices@[j]) * dim + dim <= size,
            gathered@ == joined(rows_at(data@, indices@.take(i as int), dim as int)),
        decreases indices@.len() - i,
    {
        let index: usize = indices[i];
        assert(0 <= index * dim) by (nonlinear_arith);
        append_range(&mut gathered, data, index * dim, dim);
        i = i + 1;
        assert(rows_at(data@, indices@.take(i as int), dim as int).drop_last() =~= rows_at(
            data@,
            indices@.take(i - 1),
            dim as int,
        ));
        assert(rows_at(data@, indices@.take(i as int), dim as int).last() == row(
            data@,
            index as int,
            dim as int,
        ));
    }
    assert(indices@.take(i as int) =~= indices@);
    proof {
        let parts = rows_at(data@, indices@, dim as int);
        assert forall|j: int| 0 <= j < parts.len() implies (#[trigger] parts[j]).len() == dim by {
            assert(0 <= indices@[j] * dim) by (nonlinear_arith);
        }
        lemma_joined_len(parts, dim as int);
    }
    gathered
}

/// The first `count` rows of a matrix, each by itself.
pub open spec fn rows_of<T>(data: Seq<T>, count: int, dim: int) -> Seq<Seq<T>> {
    Seq::new(count as nat, |i: int| row(data, i, dim))
}

/// Cuts a matrix into its rows.
pub fn split_rows<T: Copy>(data: &[T], count: usize, dim: usize) -> (rows: Vec<Vec<T>>)
    requires
        count * dim == data@.len(),
    ensures
        contents(rows@) == rows_of(data@, count as int, dim as int),
{
    let size: usize = data.len();
    let mut rows: Vec<Vec<T>> = Vec::with_capacity(count);
    let mut i: usize = 0;
    while i < count
        invariant
            i <= count,
            size == data@.len(),
            count * dim == size,
            contents(rows@) == rows_of(data@, i as int, dim as int),
        decreases count - i,
    {
        proof {
            lemma_row_fits(i as int, count as int, dim as int);
        }
        let mut copy: Vec<T> = Vec::with_capacity(dim);
        append_range(&mut copy, data, i * dim, dim);
        assert(copy@ =~= row(data@, i as int, dim as int));
        let ghost before = rows@;
        assert(before.len() == contents(before).len());
        rows.push(copy);
        i = i + 1;
        assert forall|j: int| 0 <= j < i implies contents(rows@)[j] == rows_of(
            data@,
            i as int,
            dim as int,
        )[j] by {
            if j < i - 1 {
                assert(contents(before)[j] == rows_of(data@, i - 1, dim as int)[j]);
            }
        }
        assert(contents(rows@) =~= rows_of(data@, i as int, dim as int));
    }
    rows
}

} // verus!
