//! Merging the rankings of the parts of a search on a pool of workers.

use crate::ranking::{
    lemma_merge_of_parts, lemma_ranked_of_sorted, lemma_ranked_parts, lemma_ranked_wf, ranked_each,
};
use crate::singleresult::SingleResult;
use crate::sorted_vec::{ranked, sorted_by_diff, SortedVec};
use rayon::iter::{IntoParallelIterator, ParallelIterator};
use vstd::prelude::*;
use vstd::seq_lib::lemma_flatten_concat;

verus! {

/// What a ranking holds and how much it keeps.
pub struct Ranking {
    pub items: Seq<SingleResult>,
    pub limit: usize,
}

/// The ranking that a collection stands for.
pub open spec fn ranking_of(rank: SortedVec<SingleResult>) -> Ranking {
    Ranking { items: rank@, limit: rank.spec_size_limit() }
}

/// The rankings that the collections stand for.
pub open spec fn rankings_of(parts: Seq<SortedVec<SingleResult>>) -> Seq<Ranking> {
    Seq::new(parts.len(), |i: int| ranking_of(parts[i]))
}

/// The items of the rankings, each ranking's in turn.
pub open spec fn items_of(parts: Seq<Ranking>) -> Seq<Seq<SingleResult>> {
    Seq::new(parts.len(), |i: int| parts[i].items)
}

/// What `SortedVec::merged` makes of two rankings.
pub open spec fn merged_ranking(left: Ranking, right: Ranking) -> Ranking {
    let limit = if left.limit >= right.limit {
        left.limit
    } else {
        right.limit
    };
    Ranking { items: ranked(left.items + right.items, limit as int), limit }
}

/// `out` is the merge of `left`, which stands for the first `k` parts,
/// and `right`, which stands for the others.
pub open spec fn merges_at(out: Ranking, k: int, left: Ranking, right: Ranking) -> bool {
    out == merged_ranking(left, right)
}

/// `out` comes of merging `parts` two by two, in some grouping that
/// keeps them in their order.
pub open spec fn reduces_to(parts: Seq<Ranking>, out: Ranking) -> bool
    decreases parts.len(),
{
    if parts.len() == 0 {
        false
    } else if parts.len() == 1 {
        out == parts[0]
    } else {
        exists|k: int, left: Ranking, right: Ranking|
            0 < k < parts.len() && reduces_to(parts.take(k), left) && reduces_to(
                parts.skip(k),
                right,
            ) && #[trigger] merges_at(out, k, left, right)
    }
}

/// Every part is sorted, within the capacity `limit`, and keeps `limit`.
pub open spec fn all_keep(parts: Seq<Ranking>, limit: usize) -> bool {
    forall|i: int|
        0 <= i < parts.len() ==> (#[trigger] parts[i]).limit == limit && parts[i].items.len()
            <= limit && sorted_by_diff(parts[i].items)
}

/// Under one capacity the grouping does not matter: however the parts
/// are merged two by two, what comes out is the ranking of all their
/// items.
pub proof fn lemma_reduction_is_ranking(parts: Seq<Ranking>, out: Ranking, limit: usize)
    requires
        reduces_to(parts, out),
        all_keep(parts, limit),
    ensures
        out.limit == limit,
        out.items == ranked(items_of(parts).flatten(), limit as int),
    decreases parts.len(),
{
    if parts.len() == 1 {
        assert(items_of(parts).flatten() =~= parts[0].items) by {
            items_of(parts).lemma_flatten_one_element();
        }
        lemma_ranked_of_sorted(parts[0].items, limit as int);
    } else {
        let (k, left, right) = choose|k: int, left: Ranking, right: Ranking|
            0 < k < parts.len() && reduces_to(parts.take(k), left) && reduces_to(
                parts.skip(k),
                right,
            ) && #[trigger] merges_at(out, k, left, right);
        lemma_reduction_is_ranking(parts.take(k), left, limit);
        lemma_reduction_is_ranking(parts.skip(k), right, limit);
        let a = items_of(parts.take(k));
        let b = items_of(parts.skip(k));
        assert(a + b =~= items_of(parts));
        lemma_flatten_concat(a, b);
        lemma_merge_of_parts(a.flatten(), b.flatten(), limit as int);
    }
}

/// The rankings of the parts of a search, each keeping `limit` items.
pub open spec fn part_rankings(parts: Seq<Seq<SingleResult>>, limit: usize) -> Seq<Ranking> {
    Seq::new(parts.len(), |i: int| Ranking { items: ranked(parts[i], limit as int), limit })
}

/// A search gives the same ranking into however many parts it is cut
/// and however the rankings of the parts are grouped when they are
/// merged: always the ranking of what the whole search scored.
pub proof fn lemma_parts_rank_as_whole(
    whole: Seq<SingleResult>,
    parts: Seq<Seq<SingleResult>>,
    out: Ranking,
    limit: usize,
)
    requires
        whole == parts.flatten(),
        reduces_to(part_rankings(parts, limit), out),
    ensures
        out.limit == limit,
        out.items == ranked(whole, limit as int),
{
    let rankings = part_rankings(parts, limit);
    assert forall|i: int| 0 <= i < rankings.len() implies (#[trigger] rankings[i]).limit == limit
        && rankings[i].items.len() <= limit && sorted_by_diff(rankings[i].items) by {
        lemma_ranked_wf(parts[i], limit as int);
    }
    lemma_reduction_is_ranking(rankings, out, limit);
    assert(items_of(rankings) =~= ranked_each(parts, limit as int));
    lemma_ranked_parts(parts, limit as int);
}

/// Calls rayon's `ParallelIterator::reduce_with` on the rankings, with
/// `SortedVec::merged` as the operation. Of no rankings comes nothing,
/// as rayon documents. Otherwise the rankings are merged two by two.
/// rayon's documentation leaves the grouping of the merges open; that
/// each merge takes what stands left as its left side is how rayon's
/// source folds and reduces.
#[verifier::external_body]
fn reduce_with_merged(parts: Vec<SortedVec<SingleResult>>) -> (out: Option<
    SortedVec<SingleResult>,
>)
    ensures
        out is None <==> parts@.len() == 0,
        out matches Some(rank) ==> reduces_to(rankings_of(parts@), ranking_of(rank)),
{
    parts.into_par_iter().reduce_with(SortedVec::merged)
}

/// Merges the rankings of the parts of a search into one, on the pool
/// of workers. Where all parts keep the same number of items, the
/// outcome is the ranking of all their items, however the workers
/// grouped the merges; of no parts comes nothing.
pub fn merge_all(parts: Vec<SortedVec<SingleResult>>) -> (out: Option<SortedVec<SingleResult>>)
    ensures
        out is None <==> parts@.len() == 0,
        out matches Some(rank) ==> {
            &&& reduces_to(rankings_of(parts@), ranking_of(rank))
            &&& (forall|i: int| 0 <= i < parts@.len() ==> (#[trigger] parts@[i]).wf())
                ==> rank.wf()
            &&& forall|limit: usize|
                all_keep(rankings_of(parts@), limit) ==> rank.spec_size_limit() == limit && rank@
                    == ranked(items_of(rankings_of(parts@)).flatten(), limit as int)
        },
{
    let ghost models = rankings_of(parts@);
    let ghost sorted = forall|i: int| 0 <= i < parts@.len() ==> (#[trigger] parts@[i]).wf();
    let out = reduce_with_merged(parts);
    proof {
        if out is Some {
            let rank = out->Some_0;
            if sorted {
                assert forall|i: int| 0 <= i < models.len() implies (#[trigger] models[i]).items.len()
                    <= models[i].limit && sorted_by_diff(models[i].items) by {
                    assert(parts@[i].wf());
                }
                lemma_reduction_wf(models, ranking_of(rank));
            }
            assert forall|limit: usize| all_keep(models, limit) implies rank.spec_size_limit()
                == limit && rank@ == ranked(items_of(models).flatten(), limit as int) by {
                lemma_reduction_is_ranking(models, ranking_of(rank), limit);
            }
        }
    }
    out
}

/// Merges the rankings of the parts of a search into the ranking of the
/// search, which keeps `rank_size` items. A search without parts has
/// scored nothing, and its ranking is empty.
pub fn merge_parts(parts: Vec<SortedVec<SingleResult>>, rank_size: usize) -> (rank: SortedVec<
    SingleResult,
>)
    ensures
        parts@.len() == 0 ==> rank@ == Seq::<SingleResult>::empty() && rank.spec_size_limit()
            == rank_size && rank.wf(),
        parts@.len() > 0 ==> {
            &&& reduces_to(rankings_of(parts@), ranking_of(rank))
            &&& (forall|i: int| 0 <= i < parts@.len() ==> (#[trigger] parts@[i]).wf())
                ==> rank.wf()
            &&& forall|limit: usize|
                all_keep(rankings_of(parts@), limit) ==> rank.spec_size_limit() == limit && rank@
                    == ranked(items_of(rankings_of(parts@)).flatten(), limit as int)
        },
        all_keep(rankings_of(parts@), rank_size) ==> rank.spec_size_limit() == rank_size && rank@
            == ranked(items_of(rankings_of(parts@)).flatten(), rank_size as int),
{
    let ghost models = rankings_of(parts@);
    match merge_all(parts) {
        Some(rank) => rank,
        None => {
            proof {
                assert(items_of(models) =~= Seq::<Seq<SingleResult>>::empty());
            }
            SortedVec::new(rank_size)
        },
    }
}

/// Merging sorted parts within their capacities gives a sorted ranking
/// within its capacity.
proof fn lemma_reduction_wf(parts: Seq<Ranking>, out: Ranking)
    requires
        reduces_to(parts, out),
        forall|i: int|
            0 <= i < parts.len() ==> (#[trigger] parts[i]).items.len() <= parts[i].limit
                && sorted_by_diff(parts[i].items),
    ensures
        out.items.len() <= out.limit,
        sorted_by_diff(out.items),
    decreases parts.len(),
{
    if parts.len() > 1 {
        let (k, left, right) = choose|k: int, left: Ranking, right: Ranking|
            0 < k < parts.len() && reduces_to(parts.take(k), left) && reduces_to(
                parts.skip(k),
                right,
            ) && #[trigger] merges_at(out, k, left, right);
        lemma_ranked_wf(left.items + right.items, out.limit as int);
    }
}

} // verus!
