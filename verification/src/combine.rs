//! Cross-dataset aggregation: the rankings of several datasets folded
//! into one entry for each combination, and those entries ranked by
//! their mean deviation.

use crate::combinedresult::CombinedResult;
use crate::permutation::{Permutation, PermutationKey};
use crate::singleresult::SingleResult;
use crate::sorted_vec::{lemma_offer_all_step, ranked, SortedVec};
use crate::utils::perm_key;
use std::collections::HashMap;
use vstd::prelude::*;

verus! {

broadcast use vstd::std_specs::hash::group_hash_axioms;

/// How many combined results are ranked.
pub const COMBINED_RANK_SIZE: usize = 10;

/// One combination as the datasets showed it: its key, the names, sign,
/// selection and full mask of its first sighting, and the deviation of
/// every sighting in the order they came.
pub struct Sightings {
    pub key: PermutationKey,
    pub field_names: Seq<String>,
    pub sign: u32,
    pub select: u32,
    pub mask: u32,
    pub diffs: Seq<u64>,
}

/// The canonical key of a scored combination.
pub open spec fn key_of(item: SingleResult) -> PermutationKey {
    perm_key(item.spec_sign(), item.spec_select(), item.spec_mask())
}

/// The first place in `groups` with the key `key`; the length of
/// `groups` where none has it.
pub open spec fn position_of(groups: Seq<Sightings>, key: PermutationKey) -> int
    decreases groups.len(),
{
    if groups.len() == 0 {
        0
    } else if groups[0].key == key {
        0
    } else {
        1 + position_of(groups.drop_first(), key)
    }
}

/// `groups` after one more sighting: its deviation joins the entry of
/// its key, or a new entry is made for it at the end.
pub open spec fn sighted(groups: Seq<Sightings>, item: SingleResult) -> Seq<Sightings> {
    let at = position_of(groups, key_of(item));
    if at < groups.len() {
        groups.update(
            at,
            Sightings { diffs: groups[at].diffs.push(item.spec_diff()), ..groups[at] },
        )
    } else {
        groups.push(
            Sightings {
                key: key_of(item),
                field_names: item.spec_field_names(),
                sign: item.spec_sign(),
                select: item.spec_select(),
                mask: item.spec_mask(),
                diffs: seq![item.spec_diff()],
            },
        )
    }
}

/// The entries that the sightings `items` make, in the order in which
/// their combinations were first seen.
pub open spec fn grouped(items: Seq<SingleResult>) -> Seq<Sightings>
    decreases items.len(),
{
    if items.len() == 0 {
        Seq::empty()
    } else {
        sighted(grouped(items.drop_last()), items.last())
    }
}

/// The items of all rankings, ranking after ranking.
pub open spec fn all_items(rankings: Seq<Seq<SingleResult>>) -> Seq<SingleResult>
    decreases rankings.len(),
{
    if rankings.len() == 0 {
        Seq::empty()
    } else {
        all_items(rankings.drop_last()) + rankings.last()
    }
}

/// No two entries have the same key.
pub open spec fn distinct_keys(groups: Seq<Sightings>) -> bool {
    forall|i: int, j: int| 0 <= i < j < groups.len() ==> groups[i].key != groups[j].key
}

/// The place of a key is the place of an entry that has it, or the
/// length where no entry has it.
pub proof fn lemma_position_of(groups: Seq<Sightings>, key: PermutationKey)
    ensures
        0 <= position_of(groups, key) <= groups.len(),
        position_of(groups, key) < groups.len() ==> groups[position_of(groups, key)].key == key,
        forall|i: int| 0 <= i < position_of(groups, key) ==> groups[i].key != key,
    decreases groups.len(),
{
    if groups.len() > 0 && groups[0].key != key {
        let rest = groups.drop_first();
        lemma_position_of(rest, key);
        assert forall|i: int| 0 <= i < position_of(groups, key) implies groups[i].key != key by {
            if i > 0 {
                assert(groups[i] == rest[i - 1]);
            }
        }
        if position_of(groups, key) < groups.len() {
            assert(groups[position_of(groups, key)] == rest[position_of(rest, key)]);
        }
    }
}

/// One more sighting keeps the keys distinct and the earlier entries in
/// their places.
pub proof fn lemma_sighted_distinct(groups: Seq<Sightings>, item: SingleResult)
    requires
        distinct_keys(groups),
    ensures
        distinct_keys(sighted(groups, item)),
        sighted(groups, item).len() >= groups.len(),
        forall|i: int| 0 <= i < groups.len() ==> sighted(groups, item)[i].key == groups[i].key,
{
    lemma_position_of(groups, key_of(item));
}

/// Every combination has one entry: the keys of the entries differ.
pub proof fn lemma_grouped_distinct(items: Seq<SingleResult>)
    ensures
        distinct_keys(grouped(items)),
    decreases items.len(),
{
    if items.len() > 0 {
        lemma_grouped_distinct(items.drop_last());
        lemma_sighted_distinct(grouped(items.drop_last()), items.last());
    }
}

/// The key of every entry is the canonical key of the sign, selection
/// and full mask that the entry holds.
pub open spec fn keyed(groups: Seq<Sightings>) -> bool {
    forall|i: int|
        0 <= i < groups.len() ==> (#[trigger] groups[i]).key == perm_key(
            groups[i].sign,
            groups[i].select,
            groups[i].mask,
        )
}

/// One more sighting leaves every entry under the key of what it holds.
pub proof fn lemma_sighted_keyed(groups: Seq<Sightings>, item: SingleResult)
    requires
        keyed(groups),
    ensures
        keyed(sighted(groups, item)),
{
    lemma_position_of(groups, key_of(item));
}

/// Every entry stands under the key of what it holds: the key by which
/// its sightings were folded into it.
pub proof fn lemma_grouped_keyed(items: Seq<SingleResult>)
    ensures
        keyed(grouped(items)),
    decreases items.len(),
{
    if items.len() > 0 {
        lemma_grouped_keyed(items.drop_last());
        lemma_sighted_keyed(grouped(items.drop_last()), items.last());
    }
}

/// The deviations of the sightings of one combination, in the order
/// they came.
pub open spec fn diffs_of(items: Seq<SingleResult>, key: PermutationKey) -> Seq<u64>
    decreases items.len(),
{
    if items.len() == 0 {
        Seq::empty()
    } else if key_of(items.last()) == key {
        diffs_of(items.drop_last(), key).push(items.last().spec_diff())
    } else {
        diffs_of(items.drop_last(), key)
    }
}

/// Every sighting is entered once: each combination that was seen has an
/// entry, and the entry of a combination holds the deviations of its
/// sightings, all of them and no others.
pub proof fn lemma_grouped_diffs(items: Seq<SingleResult>)
    ensures
        forall|j: int|
            0 <= j < items.len() ==> position_of(grouped(items), key_of(#[trigger] items[j]))
                < grouped(items).len(),
        forall|i: int|
            0 <= i < grouped(items).len() ==> (#[trigger] grouped(items)[i]).diffs == diffs_of(
                items,
                grouped(items)[i].key,
            ) && grouped(items)[i].diffs.len() > 0,
    decreases items.len(),
{
    if items.len() > 0 {
        let rest = items.drop_last();
        let item = items.last();
        let before = grouped(rest);
        let after = grouped(items);
        let at = position_of(before, key_of(item));
        lemma_grouped_diffs(rest);
        lemma_grouped_distinct(rest);
        lemma_position_of(before, key_of(item));
        lemma_sighted_distinct(before, item);
        assert forall|i: int| 0 <= i < after.len() implies (#[trigger] after[i]).diffs == diffs_of(
            items,
            after[i].key,
        ) && after[i].diffs.len() > 0 by {
            if at < before.len() {
                if i != at {
                    assert(after[i] == before[i]);
                }
            } else if i < before.len() {
                assert(after[i] == before[i]);
            } else {
                assert(diffs_of(rest, key_of(item)) =~= Seq::<u64>::empty()) by {
                    lemma_unseen_has_no_diffs(rest, key_of(item));
                }
                assert(Seq::<u64>::empty().push(item.spec_diff()) =~= seq![item.spec_diff()]);
            }
        }
        assert forall|j: int| 0 <= j < items.len() implies position_of(
            after,
            key_of(#[trigger] items[j]),
        ) < after.len() by {
            let key = key_of(items[j]);
            lemma_position_of(after, key);
            if j < rest.len() {
                assert(items[j] == rest[j]);
                lemma_position_of(before, key);
                let p = position_of(before, key);
                assert(after[p].key == key);
            } else {
                if at < before.len() {
                    assert(after[at].key == key);
                } else {
                    assert(after[before.len() as int].key == key);
                }
            }
        }
    }
}

/// A combination without an entry has not been seen.
proof fn lemma_unseen_has_no_diffs(items: Seq<SingleResult>, key: PermutationKey)
    requires
        position_of(grouped(items), key) == grouped(items).len(),
    ensures
        diffs_of(items, key) == Seq::<u64>::empty(),
    decreases items.len(),
{
    if items.len() > 0 {
        let rest = items.drop_last();
        let item = items.last();
        let before = grouped(rest);
        let after = grouped(items);
        lemma_grouped_distinct(rest);
        lemma_position_of(before, key_of(item));
        lemma_position_of(before, key);
        lemma_position_of(after, key);
        lemma_sighted_distinct(before, item);
        let at = position_of(before, key_of(item));
        if key_of(item) == key {
            if at < before.len() {
                assert(after[at].key == key);
            } else {
                assert(after[before.len() as int].key == key);
            }
            assert(false);
        }
        if position_of(before, key) < before.len() {
            assert(after[position_of(before, key)].key == key);
            assert(false);
        }
        lemma_unseen_has_no_diffs(rest, key);
    }
}

/// A key as one integer: the added fields above the subtracted ones.
pub open spec fn key_code(key: PermutationKey) -> u64 {
    ((key.0 as u64) << 32) | (key.1 as u64)
}

/// Different keys have different codes.
pub proof fn lemma_key_code_injective(a: PermutationKey, b: PermutationKey)
    requires
        key_code(a) == key_code(b),
    ensures
        a == b,
{
    let a0 = a.0;
    let a1 = a.1;
    let b0 = b.0;
    let b1 = b.1;
    assert(((a0 as u64) << 32) | (a1 as u64) == ((b0 as u64) << 32) | (b1 as u64) ==> a0 == b0
        && a1 == b1) by (bit_vector);
}

fn code_of(key: PermutationKey) -> (code: u64)
    ensures
        code == key_code(key),
{
    ((key.0 as u64) << 32) | (key.1 as u64)
}

/// The canonical key of a combined result.
pub open spec fn entry_key(entry: CombinedResult) -> PermutationKey {
    perm_key(entry.spec_sign(), entry.spec_select(), entry.spec_mask())
}

/// The entry `entry` holds what the sightings `group` say, and stands
/// under their key.
pub open spec fn shows(entry: CombinedResult, group: Sightings) -> bool {
    &&& entry.spec_field_names() == group.field_names
    &&& entry.spec_sign() == group.sign
    &&& entry.spec_select() == group.select
    &&& entry.spec_mask() == group.mask
    &&& entry.spec_diffs() == group.diffs
    &&& entry_key(entry) == group.key
}

/// The items that each ranking holds.
pub open spec fn items_of(rankings: Seq<SortedVec<SingleResult>>) -> Seq<Seq<SingleResult>> {
    Seq::new(rankings.len(), |i: int| rankings[i]@)
}

fn clone_names(names: &[String]) -> (out: Vec<String>)
    ensures
        out@ == names@,
{
    let mut out: Vec<String> = Vec::new();
    let mut i: usize = 0;
    while i < names.len()
        invariant
            i <= names@.len(),
            out@ == names@.take(i as int),
        decreases names@.len() - i,
    {
        out.push(names[i].clone());
        i += 1;
        assert(out@ =~= names@.take(i as int));
    }
    assert(names@.take(names@.len() as int) =~= names@);
    out
}

/// The index knows the place of every entry, and nothing else.
spec fn indexed(index: Map<u64, usize>, groups: Seq<Sightings>) -> bool {
    &&& forall|i: int|
        0 <= i < groups.len() ==> index.contains_key(#[trigger] key_code(groups[i].key))
            && index[key_code(groups[i].key)] == i
    &&& forall|code: u64| #[trigger]
        index.contains_key(code) ==> index[code] < groups.len() && key_code(
            groups[index[code] as int].key,
        ) == code
}

/// Folds the rankings of several datasets into one entry for each
/// combination, in the order in which the combinations were first seen.
/// Each entry stands under the canonical key of its sightings and holds
/// the deviation of every one of them; its mean is left for the caller
/// to give. A single ranking, or none, is not combined.
pub fn combine(rankings: &Vec<SortedVec<SingleResult>>) -> (r: Option<Vec<CombinedResult>>)
    ensures
        r is None <==> rankings@.len() <= 1,
        r matches Some(entries) ==> {
            let groups = grouped(all_items(items_of(rankings@)));
            &&& entries@.len() == groups.len()
            &&& forall|i: int|
                0 <= i < groups.len() ==> shows(#[trigger] entries@[i], groups[i])
                    && entries@[i].spec_diff() == 0
        },
{
    if rankings.len() <= 1 {
        return None;
    }
    let ghost views = items_of(rankings@);
    let mut index: HashMap<u64, usize> = HashMap::new();
    let mut entries: Vec<CombinedResult> = Vec::new();
    let ghost mut groups: Seq<Sightings> = Seq::empty();
    let mut a: usize = 0;
    assert(views.take(0) =~= Seq::<Seq<SingleResult>>::empty());
    while a < rankings.len()
        invariant
            a <= rankings@.len(),
            views == items_of(rankings@),
            groups == grouped(all_items(views.take(a as int))),
            distinct_keys(groups),
            keyed(groups),
            indexed(index@, groups),
            entries@.len() == groups.len(),
            forall|i: int|
                0 <= i < groups.len() ==> shows(#[trigger] entries@[i], groups[i])
                    && entries@[i].spec_diff() == 0,
        decreases rankings@.len() - a,
    {
        let ranking = &rankings[a];
        let ghost seen = all_items(views.take(a as int));
        let ghost here = ranking@;
        let count = ranking.len();
        let mut b: usize = 0;
        assert(seen + here.take(0) =~= seen);
        while b < count
            invariant
                b <= count,
                count == here.len(),
                here == ranking@,
                groups == grouped(seen + here.take(b as int)),
                distinct_keys(groups),
                keyed(groups),
                indexed(index@, groups),
                entries@.len() == groups.len(),
                forall|i: int|
                    0 <= i < groups.len() ==> shows(#[trigger] entries@[i], groups[i])
                        && entries@[i].spec_diff() == 0,
            decreases count - b,
        {
            if let Some(candidate) = ranking.get(b) {
                let key = candidate.get_own_key();
                let code = code_of(key);
                let diff = candidate.get_diff();
                proof {
                    assert((seen + here.take(b + 1)).drop_last() =~= seen + here.take(b as int));
                    assert((seen + here.take(b + 1)).last() == here[b as int]);
                    lemma_position_of(groups, key);
                    lemma_sighted_distinct(groups, *candidate);
                    lemma_sighted_keyed(groups, *candidate);
                }
                let ghost at = position_of(groups, key);
                match index.get(&code) {
                    Some(found) => {
                        let pos = *found;
                        proof {
                            lemma_key_code_injective(groups[pos as int].key, key);
                            if at < groups.len() {
                                lemma_key_code_injective(groups[at].key, groups[pos as int].key);
                            }
                            assert(at == pos);
                        }
                        entries[pos].push_diff(diff);
                        proof {
                            groups = sighted(groups, *candidate);
                        }
                    },
                    None => {
                        proof {
                            assert(at == groups.len());
                        }
                        let mut entry = CombinedResult::with_mask(
                            clone_names(candidate.get_field_names()),
                            candidate.get_permutation_sign(),
                            candidate.get_permutation_select(),
                            candidate.get_mask(),
                        );
                        entry.push_diff(diff);
                        let pos = entries.len();
                        index.insert(code, pos);
                        entries.push(entry);
                        proof {
                            let old_groups = groups;
                            groups = sighted(groups, *candidate);
                            assert(Seq::<u64>::empty().push(diff) =~= seq![diff]);
                            assert forall|code2: u64| #[trigger]
                                index@.contains_key(code2) implies index@[code2] < groups.len()
                                && key_code(groups[index@[code2] as int].key) == code2 by {
                                if code2 != code {
                                    assert(groups[index@[code2] as int] == old_groups[index@[code2] as int]);
                                }
                            }
                        }
                    },
                }
            }
            b += 1;
        }
        proof {
            assert(here.take(here.len() as int) =~= here);
            assert(views[a as int] == here);
            assert(views.take(a + 1).drop_last() =~= views.take(a as int));
            assert(views.take(a + 1).last() == here);
        }
        a += 1;
    }
    assert(views.take(views.len() as int) =~= views);
    Some(entries)
}

/// The entries, each under the mean that came with it.
pub open spec fn finalized(entries: Seq<(CombinedResult, u64)>) -> Seq<CombinedResult> {
    Seq::new(entries.len(), |i: int| entries[i].0.spec_with_mean(entries[i].1))
}

/// Ranks combined results by their means, the smallest first, keeping
/// the best `COMBINED_RANK_SIZE`. Each entry comes with its mean, and is
/// ranked under it.
pub fn rank_combined(entries: Vec<(CombinedResult, u64)>) -> (rank: SortedVec<CombinedResult>)
    ensures
        rank@ == ranked(finalized(entries@), COMBINED_RANK_SIZE as int),
        rank.spec_size_limit() == COMBINED_RANK_SIZE,
        rank.wf(),
{
    let mut rank: SortedVec<CombinedResult> = SortedVec::new(COMBINED_RANK_SIZE);
    let ghost all = finalized(entries@);
    for pair in it: entries
        invariant
            finalized(it.seq()) == all,
            rank.spec_size_limit() == COMBINED_RANK_SIZE,
            rank.wf(),
            rank@ == ranked(all.take(it.index() as int), COMBINED_RANK_SIZE as int),
    {
        proof {
            lemma_offer_all_step(
                Seq::<CombinedResult>::empty(),
                all,
                it.index() as int,
                COMBINED_RANK_SIZE as int,
            );
        }
        let (mut entry, mean) = pair;
        entry.set_mean(mean);
        assert(entry == all[it.index() as int]);
        rank.insert_ordered(entry);
    }
    assert(all.take(all.len() as int) =~= all);
    rank
}

} // verus!
