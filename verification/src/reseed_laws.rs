//! Which points empty clusters are reseeded with.
use crate::arithmetic::Arithmetic;
use crate::assignment::is_batch_assigned;
use crate::batch::{is_chunk_result, ChunkResult};
use crate::laws::law_every_row_has_one_batch;
use crate::layout::joined;
use crate::ranking::{
    is_farthest, is_ranked, is_ranking, lemma_rearranged, ranks_before, RESEED_CANDIDATES,
};
use crate::sampling::{least, lemma_choice_fits};
use crate::sweep::{
    chunk_candidates, chunk_count, chunk_data, chunk_end, chunk_items, chunk_start, is_merged,
    is_summarized, is_swept, lemma_chunk_in_place, lemma_chunks, lemma_summarized,
    AssignmentSummary,
};
use crate::update::{distinct_rows, is_pool};
use vstd::prelude::*;

verus! {

/// `keys` holds the distance key of each point to the centroid that it is assigned to.
pub open spec fn are_assigned_at<A: Arithmetic>(
    data: Seq<A::Value>,
    norms: Seq<A::Value>,
    dim: usize,
    columns: Seq<A::Value>,
    centroid_norms: Seq<A::Value>,
    block: usize,
    assigned: Seq<usize>,
    keys: Seq<i64>,
) -> bool {
    let rows = norms.len() as int;
    &&& keys.len() == rows
    &&& assigned.len() == rows
    &&& forall|i: int|
        0 <= i < chunk_count(rows, block as int) ==> is_batch_assigned::<A>(
            chunk_data(data, i, block as int, rows, dim as int),
            chunk_items(norms, i, block as int, rows),
            dim,
            columns,
            centroid_norms,
            chunk_items(assigned, i, block as int, rows),
            #[trigger] chunk_items(keys, i, block as int, rows),
        )
}

/// The candidates of each batch are its farthest rows.
spec fn are_offered_by_batches(
    keys: Seq<i64>,
    block: int,
    lists: Seq<Seq<(i64, usize)>>,
) -> bool {
    let rows = keys.len() as int;
    &&& lists.len() == chunk_count(rows, block)
    &&& forall|i: int|
        0 <= i < lists.len() ==> is_farthest(
            chunk_items(keys, i, block, rows),
            chunk_start(i, block),
            #[trigger] lists[i],
        )
}

/// A row that lies between the bounds of a batch belongs to it.
proof fn lemma_batch_of_row(rows: int, block: int, i: int, r: int)
    requires
        0 < block,
        0 <= i < chunk_count(rows, block),
        chunk_start(i, block) <= r < chunk_end(i, block, rows),
    ensures
        r / block == i,
{
    assert((i + 1) * block == i * block + block) by (nonlinear_arith);
    vstd::arithmetic::div_mod::lemma_fundamental_div_mod_converse(r, block, i, r - i * block);
}

/// The keys of all batches together.
proof fn lemma_keys_of_sweep<A: Arithmetic>(
    data: Seq<A::Value>,
    norms: Seq<A::Value>,
    dim: usize,
    columns: Seq<A::Value>,
    centroid_norms: Seq<A::Value>,
    block: usize,
    assigned: Seq<usize>,
    summary: AssignmentSummary<A::Value>,
    chunks: Seq<ChunkResult<A::Value>>,
) -> (keys: Seq<i64>)
    requires
        block > 0,
        norms.len() <= usize::MAX,
        centroid_norms.len() > 0,
        is_swept::<A>(data, norms, dim, columns, centroid_norms, block, chunks),
        is_merged::<A>(chunks, centroid_norms.len() as int, dim as int, assigned, summary),
        assigned.len() == norms.len(),
    ensures
        are_assigned_at::<A>(
            data,
            norms,
            dim,
            columns,
            centroid_norms,
            block,
            assigned,
            keys,
        ),
        are_offered_by_batches(keys, block as int, chunk_candidates(chunks)),
{
    let rows = norms.len() as int;
    lemma_chunks(rows, block as int);
    let of_batch = |i: int|
        choose|x: Seq<i64>| #[trigger]
            is_batch_assigned::<A>(
                chunk_data(data, i, block as int, rows, dim as int),
                chunk_items(norms, i, block as int, rows),
                dim,
                columns,
                centroid_norms,
                chunks[i].assignments@,
                x,
            ) && is_farthest(x, chunk_start(i, block as int), chunks[i].candidates@);
    let keys = Seq::new(
        rows as nat,
        |r: int| of_batch(r / block as int)[r - chunk_start(r / block as int, block as int)],
    );
    assert forall|i: int| 0 <= i < chunks.len() implies is_batch_assigned::<A>(
        chunk_data(data, i, block as int, rows, dim as int),
        chunk_items(norms, i, block as int, rows),
        dim,
        columns,
        centroid_norms,
        chunk_items(assigned, i, block as int, rows),
        #[trigger] chunk_items(keys, i, block as int, rows),
    ) && is_farthest(
        chunk_items(keys, i, block as int, rows),
        chunk_start(i, block as int),
        chunk_candidates(chunks)[i],
    ) by {
        let start = chunk_start(i, block as int);
        let end = chunk_end(i, block as int, rows);
        assert(0 <= start < end <= rows);
        assert(is_chunk_result::<A>(
            start as usize,
            chunk_data(data, i, block as int, rows, dim as int),
            chunk_items(norms, i, block as int, rows),
            dim,
            columns,
            centroid_norms,
            chunks[i],
        ));
        let own = of_batch(i);
        assert(own.len() == end - start);
        assert forall|j: int| 0 <= j < end - start implies chunk_items(
            keys,
            i,
            block as int,
            rows,
        )[j] == #[trigger] own[j] by {
            lemma_batch_of_row(rows, block as int, i, start + j);
        }
        assert(chunk_items(keys, i, block as int, rows) =~= own);
        lemma_chunk_in_place::<A>(
            data,
            norms,
            dim,
            columns,
            centroid_norms,
            block,
            chunks,
            i,
        );
    }
    assert forall|i: int| 0 <= i < chunk_candidates(chunks).len() implies is_farthest(
        chunk_items(keys, i, block as int, rows),
        chunk_start(i, block as int),
        #[trigger] chunk_candidates(chunks)[i],
    ) by {
        assert(chunk_items(keys, i, block as int, rows).len() >= 0);
    }
    keys
}

/// The candidates of the first batches: each is a row of theirs with its key, none
/// occurs twice, and there are enough of them.
proof fn lemma_joined_candidates(
    keys: Seq<i64>,
    block: int,
    lists: Seq<Seq<(i64, usize)>>,
    count: int,
)
    requires
        0 < block,
        keys.len() <= usize::MAX,
        are_offered_by_batches(keys, block, lists),
        0 <= count <= lists.len(),
    ensures
        ({
            let rows = keys.len() as int;
            let done = if count < lists.len() {
                chunk_start(count, block)
            } else {
                rows
            };
            let all = joined(lists.take(count));
            &&& all.no_duplicates()
            &&& least(done, RESEED_CANDIDATES as int) <= all.len() <= done
            &&& forall|j: int|
                0 <= j < all.len() ==> (#[trigger] all[j]).1 < done && all[j].0
                    == keys[all[j].1 as int]
        }),
        forall|i: int, j: int|
            0 <= i < count && 0 <= j < lists[i].len() ==> joined(lists.take(count)).contains(
                #[trigger] lists[i][j],
            ),
    decreases count,
{
    let rows = keys.len() as int;
    lemma_chunks(rows, block);
    if count == 0 {
        assert(lists.take(0) =~= Seq::<Seq<(i64, usize)>>::empty());
        assert(chunk_start(0, block) == 0) by (nonlinear_arith);
    } else {
        let last = count - 1;
        lemma_joined_candidates(keys, block, lists, last);
        assert(lists.take(count).drop_last() =~= lists.take(last));
        let before = joined(lists.take(last));
        let added = lists[last];
        let all = joined(lists.take(count));
        assert(all == before + added);
        let start = chunk_start(last, block);
        let end = chunk_end(last, block, rows);
        assert(0 <= start < end <= rows);
        assert(is_farthest(chunk_items(keys, last, block, rows), start, added));
        assert forall|j: int| 0 <= j < all.len() implies (#[trigger] all[j]).1 < end && all[j].0
            == keys[all[j].1 as int] by {
            if j < before.len() {
                assert(all[j] == before[j]);
            } else {
                assert(all[j] == added[j - before.len()]);
            }
        }
        assert forall|i: int, j: int|
            0 <= i < all.len() && 0 <= j < all.len() && i != j implies all[i] != all[j] by {
            if i < before.len() && j < before.len() {
                assert(before[i] != before[j]);
            } else if i >= before.len() && j >= before.len() {
                assert(added[i - before.len()] != added[j - before.len()]);
            } else if i < before.len() {
                assert(before[i].1 < start <= added[j - before.len()].1);
            } else {
                assert(before[j].1 < start <= added[i - before.len()].1);
            }
        }
        assert forall|i: int, j: int|
            0 <= i < count && 0 <= j < lists[i].len() implies all.contains(
            #[trigger] lists[i][j],
        ) by {
            if i < last {
                assert(before.contains(lists[i][j]));
                let at = choose|at: int| 0 <= at < before.len() && before[at] == lists[i][j];
                assert(all[at] == lists[i][j]);
            } else {
                assert(all[before.len() + j] == lists[i][j]);
            }
        }
    }
}

/// Where no row occurs twice, all of them remain, in their order.
proof fn lemma_distinct_rows_are_all(ranked: Seq<(i64, usize)>)
    requires
        forall|i: int, j: int|
            0 <= i < j < ranked.len() ==> (#[trigger] ranked[i]).1 != (#[trigger] ranked[j]).1,
    ensures
        distinct_rows(ranked) == Seq::new(ranked.len(), |i: int| ranked[i].1),
    decreases ranked.len(),
{
    if ranked.len() > 0 {
        let init = ranked.drop_last();
        assert forall|i: int, j: int| 0 <= i < j < init.len() implies (#[trigger] init[i]).1 != (
        #[trigger] init[j]).1 by {
            assert(init[i] == ranked[i] && init[j] == ranked[j]);
        }
        lemma_distinct_rows_are_all(init);
        let earlier = distinct_rows(init);
        if earlier.contains(ranked.last().1) {
            let i = choose|i: int| 0 <= i < earlier.len() && earlier[i] == ranked.last().1;
            assert(ranked[i].1 != ranked[ranked.len() - 1].1);
        }
        assert(distinct_rows(ranked) =~= Seq::new(ranked.len(), |i: int| ranked[i].1));
    }
}

/// What a full list holds comes no later in the order of all than its length allows: the
/// candidate at the last of the first places of `ranked` does not come after `member`,
/// which comes after all of `list`.
proof fn lemma_full_list_is_ahead(
    ranked: Seq<(i64, usize)>,
    list: Seq<(i64, usize)>,
    member: (i64, usize),
)
    requires
        is_ranked(ranked),
        is_ranked(list),
        list.no_duplicates(),
        list.len() == RESEED_CANDIDATES,
        ranked.len() >= RESEED_CANDIDATES,
        ranked.len() <= usize::MAX,
        forall|j: int| 0 <= j < list.len() ==> ranked.contains(#[trigger] list[j]),
        ranks_before(list.last(), member),
    ensures
        ranks_before(ranked[RESEED_CANDIDATES - 1], member),
{
    let bound = RESEED_CANDIDATES - 1;
    if !ranks_before(ranked[bound], member) {
        let places = Seq::new(
            list.len(),
            |j: int| (choose|p: int| 0 <= p < ranked.len() && ranked[p] == list[j]) as usize,
        );
        assert forall|j: int| 0 <= j < list.len() implies (#[trigger] places[j]) < bound
            && ranked[places[j] as int] == list[j] by {
            assert(ranked.contains(list[j]));
            let p = choose|p: int| 0 <= p < ranked.len() && ranked[p] == list[j];
            assert(places[j] == p);
            assert(ranks_before(list[j], list[list.len() - 1]));
            if p >= bound {
                assert(ranks_before(ranked[bound], ranked[p]));
            }
        }
        assert forall|i: int, j: int|
            0 <= i < places.len() && 0 <= j < places.len() && i != j implies places[i]
            != places[j] by {
            assert(list[i] != list[j]);
        }
        lemma_choice_fits(places, bound, list.len() as int);
    }
}

/// The farthest rows of all, as the short list of one batch would name them.
pub open spec fn first_of_pool(keys: Seq<i64>, pool: Seq<usize>) -> Seq<(i64, usize)> {
    Seq::new(
        least(keys.len() as int, RESEED_CANDIDATES as int) as nat,
        |j: int| (keys[pool[j] as int], pool[j]),
    )
}

/// Empty clusters are reseeded with the points that are farthest from their centroids,
/// the farthest first: as far as a short list reaches, the pool names the farthest of
/// all rows, as though all of them were one batch.
pub proof fn law_pool_begins_with_the_farthest<A: Arithmetic>(
    data: Seq<A::Value>,
    norms: Seq<A::Value>,
    dim: usize,
    columns: Seq<A::Value>,
    centroid_norms: Seq<A::Value>,
    block: usize,
    assigned: Seq<usize>,
    summary: AssignmentSummary<A::Value>,
    pool: Seq<usize>,
)
    requires
        block > 0,
        norms.len() <= usize::MAX,
        centroid_norms.len() > 0,
        is_summarized::<A>(
            data,
            norms,
            dim,
            columns,
            centroid_norms,
            block,
            assigned,
            summary,
        ),
        is_pool(summary.candidates@, pool),
    ensures
        least(norms.len() as int, RESEED_CANDIDATES as int) <= pool.len() <= norms.len(),
        exists|keys: Seq<i64>| #[trigger]
            are_assigned_at::<A>(
                data,
                norms,
                dim,
                columns,
                centroid_norms,
                block,
                assigned,
                keys,
            ) && is_farthest(keys, 0, first_of_pool(keys, pool)),
{
    let rows = norms.len() as int;
    let chunks = choose|chunks: Seq<ChunkResult<A::Value>>| #[trigger]
        is_swept::<A>(data, norms, dim, columns, centroid_norms, block, chunks) && is_merged::<A>(
            chunks,
            centroid_norms.len() as int,
            dim as int,
            assigned,
            summary,
        );
    lemma_summarized::<A>(
        data,
        norms,
        dim,
        columns,
        centroid_norms,
        block,
        assigned,
        summary,
    );
    let keys = lemma_keys_of_sweep::<A>(
        data,
        norms,
        dim,
        columns,
        centroid_norms,
        block,
        assigned,
        summary,
        chunks,
    );
    let lists = chunk_candidates(chunks);
    let all = joined(lists);
    lemma_joined_candidates(keys, block as int, lists, lists.len() as int);
    assert(lists.take(lists.len() as int) =~= lists);
    let ranked = choose|ranked: Seq<(i64, usize)>| #[trigger]
        is_ranking(summary.candidates@, ranked) && pool == distinct_rows(ranked);
    lemma_rearranged(all, ranked);
    assert forall|j: int| 0 <= j < ranked.len() implies (#[trigger] ranked[j]).1 < rows
        && ranked[j].0 == keys[ranked[j].1 as int] by {
        assert(ranked.contains(ranked[j]));
        let at = choose|at: int| 0 <= at < all.len() && all[at] == ranked[j];
        assert(all[at].1 < rows);
    }
    assert forall|i: int, j: int| 0 <= i < j < ranked.len() implies (#[trigger] ranked[i]).1 != (
    #[trigger] ranked[j]).1 by {
        assert(ranked[i] != ranked[j]);
    }
    lemma_distinct_rows_are_all(ranked);
    let count = least(rows, RESEED_CANDIDATES as int);
    let first = first_of_pool(keys, pool);
    assert forall|j: int| 0 <= j < count implies #[trigger] first[j] == ranked[j] by {}
    assert(first =~= ranked.take(count));
    assert forall|r: int| 0 <= r < rows implies first.contains((keys[r], (0 + r) as usize)) || (
    first.len() == RESEED_CANDIDATES && ranks_before(
        first.last(),
        (#[trigger] keys[r], (0 + r) as usize),
    )) by {
        let member = (keys[r], r as usize);
        if ranked.contains(member) {
            let p = choose|p: int| 0 <= p < ranked.len() && ranked[p] == member;
            if p < count {
                assert(first[p] == member);
            } else {
                assert(ranks_before(ranked[count - 1], ranked[p]));
            }
        } else {
            law_every_row_has_one_batch(rows, block as int, r);
            let i = choose|i: int|
                0 <= i < chunk_count(rows, block as int) && #[trigger] chunk_start(i, block as int)
                    <= r < chunk_end(i, block as int, rows);
            let start = chunk_start(i, block as int);
            let part = chunk_items(keys, i, block as int, rows);
            let list = lists[i];
            assert(is_farthest(part, start, list));
            assert(part[r - start] == keys[r]);
            assert forall|j: int| 0 <= j < list.len() implies ranked.contains(
                #[trigger] list[j],
            ) by {
                assert(all.contains(lists[i][j]));
            }
            if list.contains(member) {
                let j = choose|j: int| 0 <= j < list.len() && list[j] == member;
                assert(ranked.contains(list[j]));
            }
            lemma_full_list_is_ahead(ranked, list, member);
        }
    }
    assert(is_ranked(first));
    assert(first.no_duplicates());
}

} // verus!
