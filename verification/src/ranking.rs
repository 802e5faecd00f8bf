//! Lists put in order, and the short list of the points farthest from their
//! centroids.
use std::cmp::Ordering;
use vstd::prelude::*;

verus! {

/// How many of the farthest points of a batch are kept to reseed empty clusters.
pub const RESEED_CANDIDATES: usize = 8;

/// Each number is at least the one before it.
pub open spec fn is_ascending(list: Seq<usize>) -> bool {
    forall|i: int, j: int| 0 <= i <= j < list.len() ==> list[i] <= list[j]
}

/// The candidate `a`, a distance key and a row, does not come after `b`: the
/// farther comes first, and of two that are equally far the earlier row.
pub open spec fn ranks_before(a: (i64, usize), b: (i64, usize)) -> bool {
    a.0 > b.0 || (a.0 == b.0 && a.1 <= b.1)
}

/// The farthest candidates come first.
pub open spec fn is_ranked(list: Seq<(i64, usize)>) -> bool {
    forall|i: int, j: int| 0 <= i <= j < list.len() ==> ranks_before(list[i], list[j])
}

/// `ranked` holds the candidates of `list` in the order of their distances.
pub open spec fn is_ranking(list: Seq<(i64, usize)>, ranked: Seq<(i64, usize)>) -> bool {
    &&& ranked.to_multiset() == list.to_multiset()
    &&& is_ranked(ranked)
}

/// Calls `sort_unstable` of `std` on the numbers. Claims that they are put in
/// ascending order and that none is lost or added.
#[verifier::external_body]
pub(crate) fn sort_ascending(list: &mut Vec<usize>)
    ensures
        is_ascending(final(list)@),
        final(list)@.to_multiset() == old(list)@.to_multiset(),
{
    list.sort_unstable();
}

/// Compares two candidates: the farther is the less, and of two that are equally far
/// the earlier row.
pub fn compare_candidates(a: &(i64, usize), b: &(i64, usize)) -> (order: Ordering)
    ensures
        order == Ordering::Less <==> ranks_before(*a, *b) && *a != *b,
        order == Ordering::Equal <==> *a == *b,
        order == Ordering::Greater <==> ranks_before(*b, *a) && *a != *b,
{
    if a.0 > b.0 || (a.0 == b.0 && a.1 < b.1) {
        Ordering::Less
    } else if a.0 == b.0 && a.1 == b.1 {
        Ordering::Equal
    } else {
        Ordering::Greater
    }
}

/// Calls `sort_unstable_by` of `std` on the candidates, with
/// [`compare_candidates`] for the order. Claims that they are put in that order and
/// that none is lost or added.
#[verifier::external_body]
pub(crate) fn rank_candidates(list: &mut Vec<(i64, usize)>)
    ensures
        is_ranking(old(list)@, final(list)@),
{
    list.sort_unstable_by(|a, b| compare_candidates(a, b));
}

/// A rearranged list has the same members, and repeats none that was not repeated.
pub(crate) proof fn lemma_rearranged<T>(list: Seq<T>, rearranged: Seq<T>)
    requires
        list.to_multiset() == rearranged.to_multiset(),
    ensures
        rearranged.len() == list.len(),
        forall|x: T| #[trigger] rearranged.contains(x) == list.contains(x),
        list.no_duplicates() ==> rearranged.no_duplicates(),
{
    broadcast use vstd::seq_lib::group_to_multiset_ensures;

    assert(list.len() == list.to_multiset().len());
    assert(rearranged.len() == rearranged.to_multiset().len());
    assert forall|x: T| #[trigger] rearranged.contains(x) == list.contains(x) by {
        assert(list.contains(x) <==> list.to_multiset().count(x) > 0);
        assert(rearranged.contains(x) <==> rearranged.to_multiset().count(x) > 0);
    }
    if list.no_duplicates() {
        list.lemma_multiset_has_no_duplicates();
        rearranged.lemma_multiset_has_no_duplicates_conv();
    }
}

/// `next` is the short list after `candidate` has been offered to it: as long as
/// there is room the candidate joins, and then it takes the place of the last one
/// if it is farther.
pub open spec fn is_offered(
    list: Seq<(i64, usize)>,
    candidate: (i64, usize),
    next: Seq<(i64, usize)>,
) -> bool {
    if list.len() < RESEED_CANDIDATES {
        is_ranking(list.push(candidate), next)
    } else if candidate.0 > list.last().0 {
        is_ranking(list.drop_last().push(candidate), next)
    } else {
        next == list
    }
}

/// Offers a candidate to the short list.
pub fn insert_candidate(candidates: &mut Vec<(i64, usize)>, candidate: (i64, usize))
    ensures
        is_offered(old(candidates)@, candidate, final(candidates)@),
{
    let size: usize = candidates.len();
    if size < RESEED_CANDIDATES {
        candidates.push(candidate);
        rank_candidates(candidates);
        return ;
    }
    if candidate.0 > candidates[size - 1].0 {
        candidates.pop();
        candidates.push(candidate);
        rank_candidates(candidates);
    }
}

/// `list` is the short list of a batch whose first row is `start` and whose rows
/// have the distances `keys`: the farthest rows come first, of equally far ones the
/// earlier, and a row is missing only where the list is full of rows that rank
/// before it.
pub open spec fn is_farthest(keys: Seq<i64>, start: int, list: Seq<(i64, usize)>) -> bool {
    &&& list.len() == if keys.len() < RESEED_CANDIDATES {
        keys.len()
    } else {
        RESEED_CANDIDATES as nat
    }
    &&& forall|i: int|
        0 <= i < list.len() ==> start <= (#[trigger] list[i]).1 < start + keys.len() && list[i].0
            == keys[list[i].1 - start]
    &&& list.no_duplicates()
    &&& is_ranked(list)
    &&& forall|r: int|
        0 <= r < keys.len() ==> list.contains((keys[r], (start + r) as usize)) || (list.len()
            == RESEED_CANDIDATES && ranks_before(list.last(), (#[trigger] keys[r], (start
            + r) as usize)))
}

/// Offering the next row keeps the short list that of the rows so far.
pub(crate) proof fn lemma_farthest_grows(
    keys: Seq<i64>,
    list: Seq<(i64, usize)>,
    key: i64,
    next: Seq<(i64, usize)>,
)
    requires
        keys.len() < usize::MAX,
        is_farthest(keys, 0, list),
        is_offered(list, (key, keys.len() as usize), next),
    ensures
        is_farthest(keys.push(key), 0, next),
{
    let grown = keys.push(key);
    let row = keys.len() as usize;
    let candidate = (key, row);
    if list.len() < RESEED_CANDIDATES || key > list.last().0 {
        let input = if list.len() < RESEED_CANDIDATES {
            list.push(candidate)
        } else {
            list.drop_last().push(candidate)
        };
        assert(input.no_duplicates());
        lemma_rearranged(input, next);
        assert forall|i: int| 0 <= i < next.len() implies 0 <= (#[trigger] next[i]).1 < grown.len()
            && next[i].0 == grown[next[i].1 as int] by {
            assert(next.contains(next[i]));
            let j = choose|j: int| 0 <= j < input.len() && input[j] == next[i];
            if j < input.len() - 1 {
                assert(input[j] == list[j]);
            }
        }
        assert forall|r: int| 0 <= r < grown.len() implies next.contains((grown[r], r as usize))
            || (next.len() == RESEED_CANDIDATES && ranks_before(
            next.last(),
            (#[trigger] grown[r], r as usize),
        )) by {
            let member = (grown[r], r as usize);
            if r == keys.len() {
                assert(input[input.len() - 1] == member);
                assert(input.contains(member));
            } else {
                assert(grown[r] == keys[r]);
                assert(list.contains(member) || ranks_before(list.last(), member));
                if !input.contains(member) {
                    if list.contains(member) {
                        let j = choose|j: int| 0 <= j < list.len() && list[j] == member;
                        if j < input.len() - 1 {
                            assert(input[j] == member);
                        }
                        assert(j == list.len() - 1);
                    }
                    assert(ranks_before(list.last(), member));
                    assert(list.len() == RESEED_CANDIDATES);
                    assert(next.contains(next.last()));
                    let j = choose|j: int| 0 <= j < input.len() && input[j] == next.last();
                    if j < input.len() - 1 {
                        assert(input[j] == list[j]);
                        assert(ranks_before(list[j], list.last()));
                    }
                    assert(ranks_before(next.last(), member));
                }
            }
        }
    } else {
        assert forall|r: int| 0 <= r < grown.len() implies next.contains((grown[r], r as usize))
            || (next.len() == RESEED_CANDIDATES && ranks_before(
            next.last(),
            (#[trigger] grown[r], r as usize),
        )) by {
            if r < keys.len() {
                assert(grown[r] == keys[r]);
            } else {
                let last = list[list.len() - 1];
                assert(last.1 < keys.len());
            }
        }
    }
}

} // verus!
