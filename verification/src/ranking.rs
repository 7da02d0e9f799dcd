//! The algebra of the ranking: why a ranking may be built in parts, in
//! any grouping, and merged.

use crate::permutation::Permutation;
use crate::sorted_vec::{
    capped, lemma_offer_all_concat, lemma_place_sorted, lemma_slot_bounds, lemma_slot_is, offer,
    offer_all, place, ranked, slot, sorted_by_diff,
};
use vstd::prelude::*;

verus! {

/// `start` after the items of `items` are placed in turn, with no
/// capacity in the way.
pub open spec fn place_all<T: Permutation>(start: Seq<T>, items: Seq<T>) -> Seq<T>
    decreases items.len(),
{
    if items.len() == 0 {
        start
    } else {
        place(place_all(start, items.drop_last()), items.last())
    }
}

/// The deviations of the items, in their order.
pub open spec fn diffs<T: Permutation>(s: Seq<T>) -> Seq<u64> {
    Seq::new(s.len(), |i: int| s[i].spec_diff())
}

/// No item of `a` has the deviation of an item of `b`.
pub open spec fn no_shared_diff<T: Permutation>(a: Seq<T>, b: Seq<T>) -> bool {
    forall|i: int, j: int|
        0 <= i < a.len() && 0 <= j < b.len() ==> a[i].spec_diff() != b[j].spec_diff()
}

/// Placing items keeps a sorted sequence sorted and loses none.
pub proof fn lemma_place_all_sorted<T: Permutation>(start: Seq<T>, items: Seq<T>)
    requires
        sorted_by_diff(start),
    ensures
        sorted_by_diff(place_all(start, items)),
        place_all(start, items).len() == start.len() + items.len(),
    decreases items.len(),
{
    if items.len() > 0 {
        lemma_place_all_sorted(start, items.drop_last());
        lemma_place_sorted(place_all(start, items.drop_last()), items.last());
    }
}

/// Placing `a` and then `b` is placing `a + b`.
pub proof fn lemma_place_all_concat<T: Permutation>(start: Seq<T>, a: Seq<T>, b: Seq<T>)
    ensures
        place_all(start, a + b) == place_all(place_all(start, a), b),
    decreases b.len(),
{
    if b.len() == 0 {
        assert(a + b =~= a);
    } else {
        assert((a + b).drop_last() =~= a + b.drop_last());
        lemma_place_all_concat(start, a, b.drop_last());
    }
}

/// What was cut off plays no part in where the first `limit` items of
/// the next placement come from.
pub proof fn lemma_capped_place<T: Permutation>(u: Seq<T>, item: T, limit: int)
    requires
        sorted_by_diff(u),
        0 <= limit,
    ensures
        capped(place(capped(u, limit), item), limit) == capped(place(u, item), limit),
{
    if limit < u.len() {
        let d = item.spec_diff();
        let cut = u.take(limit);
        let p = slot(u, d);
        lemma_slot_bounds(u, d);
        if p < limit {
            lemma_slot_is(cut, d, p);
            assert(place(cut, item).take(limit) =~= place(u, item).take(limit));
        } else {
            lemma_slot_is(cut, d, limit);
            assert(place(cut, item).take(limit) =~= place(u, item).take(limit));
        }
    }
}

/// Offering under a capacity is placing without one and cutting at the
/// end.
pub proof fn lemma_offer_all_is_capped_place_all<T: Permutation>(
    start: Seq<T>,
    items: Seq<T>,
    limit: int,
)
    requires
        sorted_by_diff(start),
        0 <= limit,
    ensures
        offer_all(capped(start, limit), items, limit) == capped(place_all(start, items), limit),
    decreases items.len(),
{
    if items.len() > 0 {
        let rest = items.drop_last();
        lemma_offer_all_is_capped_place_all(start, rest, limit);
        lemma_place_all_sorted(start, rest);
        lemma_capped_place(place_all(start, rest), items.last(), limit);
    }
}

/// A ranking is sorted, and as long as its capacity and its input allow.
pub proof fn lemma_ranked_wf<T: Permutation>(items: Seq<T>, limit: int)
    requires
        0 <= limit,
    ensures
        sorted_by_diff(ranked(items, limit)),
        ranked(items, limit).len() == if items.len() <= limit {
            items.len() as int
        } else {
            limit
        },
        ranked(items, limit) == capped(place_all(Seq::<T>::empty(), items), limit),
{
    let none = Seq::<T>::empty();
    lemma_offer_all_is_capped_place_all(none, items, limit);
    lemma_place_all_sorted(none, items);
}

/// Two items of different deviation can be placed in either order.
pub proof fn lemma_place_commutes<T: Permutation>(s: Seq<T>, x: T, y: T)
    requires
        sorted_by_diff(s),
        x.spec_diff() != y.spec_diff(),
    ensures
        place(place(s, x), y) == place(place(s, y), x),
{
    if x.spec_diff() < y.spec_diff() {
        lemma_place_commutes_ordered(s, x, y);
    } else {
        lemma_place_commutes_ordered(s, y, x);
    }
}

proof fn lemma_place_commutes_ordered<T: Permutation>(s: Seq<T>, x: T, y: T)
    requires
        sorted_by_diff(s),
        x.spec_diff() < y.spec_diff(),
    ensures
        place(place(s, x), y) == place(place(s, y), x),
{
    let kx = x.spec_diff();
    let ky = y.spec_diff();
    let p = slot(s, kx);
    let q = slot(s, ky);
    lemma_slot_bounds(s, kx);
    lemma_slot_bounds(s, ky);
    assert(p <= q) by {
        if q < p {
            assert(s[q].spec_diff() <= kx);
        }
    }
    let sx = s.insert(p, x);
    let sy = s.insert(q, y);
    assert forall|i: int| 0 <= i < q + 1 implies sx[i].spec_diff() <= ky by {
        if i < p {
        } else if i == p {
        } else {
            assert(sx[i] == s[i - 1]);
        }
    }
    if q + 1 < sx.len() {
        assert(sx[q + 1] == s[q]);
    }
    lemma_slot_is(sx, ky, q + 1);
    assert forall|i: int| 0 <= i < p implies sy[i].spec_diff() <= kx by {
        assert(sy[i] == s[i]);
    }
    if p < q {
        assert(sy[p] == s[p]);
    } else {
        assert(sy[p] == y);
    }
    lemma_slot_is(sy, kx, p);
    assert(sx.insert(q + 1, y) =~= sy.insert(p, x));
}

/// An item whose deviation none of `items` has can be placed before
/// them or after them.
pub proof fn lemma_place_all_commutes<T: Permutation>(start: Seq<T>, x: T, items: Seq<T>)
    requires
        sorted_by_diff(start),
        forall|i: int| 0 <= i < items.len() ==> items[i].spec_diff() != x.spec_diff(),
    ensures
        place_all(place(start, x), items) == place(place_all(start, items), x),
    decreases items.len(),
{
    if items.len() > 0 {
        let rest = items.drop_last();
        lemma_place_all_commutes(start, x, rest);
        lemma_place_all_sorted(start, rest);
        lemma_place_commutes(place_all(start, rest), x, items.last());
    }
}

/// Placing a sequence of one item is placing the item.
pub proof fn lemma_place_all_single<T: Permutation>(start: Seq<T>, x: T)
    ensures
        place_all(start, seq![x]) == place(start, x),
{
    let one = seq![x];
    assert(one.len() == 1);
    assert(one.last() == x);
    assert(one.drop_last() =~= Seq::<T>::empty());
    assert(place_all(start, one.drop_last()) == start);
}

/// Placing items as they come is placing them sorted.
pub proof fn lemma_place_all_of_sorted<T: Permutation>(start: Seq<T>, items: Seq<T>)
    requires
        sorted_by_diff(start),
    ensures
        place_all(start, items) == place_all(start, place_all(Seq::<T>::empty(), items)),
    decreases items.len(),
{
    let none = Seq::<T>::empty();
    if items.len() > 0 {
        let rest = items.drop_last();
        let x = items.last();
        let sorted_rest = place_all(none, rest);
        lemma_place_all_of_sorted(start, rest);
        lemma_place_all_sorted(none, rest);
        let p = slot(sorted_rest, x.spec_diff());
        lemma_slot_bounds(sorted_rest, x.spec_diff());
        let low = sorted_rest.take(p);
        let high = sorted_rest.skip(p);
        assert(place(sorted_rest, x) =~= (low + seq![x]) + high);
        assert(sorted_rest =~= low + high);
        lemma_place_all_concat(start, low + seq![x], high);
        lemma_place_all_concat(start, low, seq![x]);
        lemma_place_all_single(place_all(start, low), x);
        lemma_place_all_sorted(start, low);
        assert forall|i: int| 0 <= i < high.len() implies high[i].spec_diff()
            != x.spec_diff() by {
            assert(high[i] == sorted_rest[p + i]);
            assert(sorted_rest[p].spec_diff() <= sorted_rest[p + i].spec_diff());
        }
        lemma_place_all_commutes(place_all(start, low), x, high);
        lemma_place_all_concat(start, low, high);
    }
}

/// How many of the items are no worse than `diff`.
pub open spec fn count_le<T: Permutation>(items: Seq<T>, diff: u64) -> nat
    decreases items.len(),
{
    if items.len() == 0 {
        0
    } else {
        count_le(items.drop_last(), diff) + if items.last().spec_diff() <= diff {
            1nat
        } else {
            0nat
        }
    }
}

/// Placing an item moves the slot of a deviation by one where the item
/// is no worse, and leaves it where the item is worse.
pub proof fn lemma_slot_after_place<T: Permutation>(s: Seq<T>, x: T, diff: u64)
    requires
        sorted_by_diff(s),
    ensures
        slot(place(s, x), diff) == slot(s, diff) + if x.spec_diff() <= diff {
            1int
        } else {
            0int
        },
{
    let kx = x.spec_diff();
    let p = slot(s, kx);
    let q = slot(s, diff);
    lemma_slot_bounds(s, kx);
    lemma_slot_bounds(s, diff);
    let sx = s.insert(p, x);
    if kx <= diff {
        assert(p <= q) by {
            if q < p {
                assert(s[q].spec_diff() <= kx);
            }
        }
        assert forall|i: int| 0 <= i < q + 1 implies sx[i].spec_diff() <= diff by {
            if i < p {
            } else if i == p {
            } else {
                assert(sx[i] == s[i - 1]);
            }
        }
        if q + 1 < sx.len() {
            assert(sx[q + 1] == s[q]);
        }
        lemma_slot_is(sx, diff, q + 1);
    } else {
        assert(q <= p) by {
            if p < q {
                assert(s[p].spec_diff() <= diff);
            }
        }
        assert forall|i: int| 0 <= i < q implies sx[i].spec_diff() <= diff by {
            assert(sx[i] == s[i]);
        }
        if q < p {
            assert(sx[q] == s[q]);
        } else {
            assert(sx[q] == x);
        }
        lemma_slot_is(sx, diff, q);
    }
}

/// After items are placed, the slot of a deviation has moved by the
/// number of them that are no worse.
pub proof fn lemma_slot_after_place_all<T: Permutation>(start: Seq<T>, items: Seq<T>, diff: u64)
    requires
        sorted_by_diff(start),
    ensures
        slot(place_all(start, items), diff) == slot(start, diff) + count_le(items, diff),
    decreases items.len(),
{
    if items.len() > 0 {
        let rest = items.drop_last();
        lemma_slot_after_place_all(start, rest, diff);
        lemma_place_all_sorted(start, rest);
        lemma_slot_after_place(place_all(start, rest), items.last(), diff);
    }
}

/// Where no item is worse than `diff`, all of them count.
pub proof fn lemma_count_le_all<T: Permutation>(items: Seq<T>, diff: u64)
    requires
        forall|i: int| 0 <= i < items.len() ==> items[i].spec_diff() <= diff,
    ensures
        count_le(items, diff) == items.len(),
    decreases items.len(),
{
    if items.len() > 0 {
        lemma_count_le_all(items.drop_last(), diff);
    }
}

/// Counting over `a + b` is counting over each.
pub proof fn lemma_count_le_concat<T: Permutation>(a: Seq<T>, b: Seq<T>, diff: u64)
    ensures
        count_le(a + b, diff) == count_le(a, diff) + count_le(b, diff),
    decreases b.len(),
{
    if b.len() == 0 {
        assert(a + b =~= a);
    } else {
        assert((a + b).drop_last() =~= a + b.drop_last());
        lemma_count_le_concat(a, b.drop_last(), diff);
    }
}

/// Of sorted items only the first `limit` can reach the first `limit`
/// places.
pub proof fn lemma_place_all_capped_input<T: Permutation>(
    start: Seq<T>,
    items: Seq<T>,
    limit: int,
)
    requires
        sorted_by_diff(start),
        sorted_by_diff(items),
        0 <= limit,
    ensures
        capped(place_all(start, capped(items, limit)), limit) == capped(
            place_all(start, items),
            limit,
        ),
    decreases items.len(),
{
    if limit < items.len() {
        let rest = items.drop_last();
        let z = items.last();
        assert(capped(items, limit) =~= capped(rest, limit));
        lemma_place_all_capped_input(start, rest, limit);
        let u = place_all(start, rest);
        lemma_place_all_sorted(start, rest);
        lemma_slot_after_place_all(start, rest, z.spec_diff());
        lemma_count_le_all(rest, z.spec_diff());
        lemma_slot_bounds(start, z.spec_diff());
        lemma_slot_bounds(u, z.spec_diff());
        let p = slot(u, z.spec_diff());
        assert(p >= limit);
        if limit < u.len() {
            assert(place(u, z).take(limit) =~= u.take(limit));
        } else {
            assert(place(u, z).take(limit) =~= u);
        }
    }
}

/// Offering the ranking of some items is offering the items.
pub proof fn lemma_offer_all_of_ranked<T: Permutation>(start: Seq<T>, items: Seq<T>, limit: int)
    requires
        sorted_by_diff(start),
        start.len() <= limit,
    ensures
        offer_all(start, ranked(items, limit), limit) == offer_all(start, items, limit),
{
    let none = Seq::<T>::empty();
    let in_order = place_all(none, items);
    lemma_ranked_wf(items, limit);
    lemma_place_all_sorted(none, items);
    lemma_offer_all_is_capped_place_all(start, capped(in_order, limit), limit);
    lemma_place_all_capped_input(start, in_order, limit);
    lemma_place_all_of_sorted(start, items);
    lemma_offer_all_is_capped_place_all(start, items, limit);
}

/// Inside any sequence of items, a part may be replaced by its ranking:
/// the ranking of the whole stays the same.
pub proof fn lemma_ranked_part<T: Permutation>(
    before: Seq<T>,
    part: Seq<T>,
    after: Seq<T>,
    limit: int,
)
    requires
        0 <= limit,
    ensures
        ranked(before + ranked(part, limit) + after, limit) == ranked(
            before + part + after,
            limit,
        ),
{
    let none = Seq::<T>::empty();
    lemma_ranked_wf(before, limit);
    lemma_offer_all_concat(none, before + ranked(part, limit), after, limit);
    lemma_offer_all_concat(none, before, ranked(part, limit), limit);
    lemma_offer_all_concat(none, before + part, after, limit);
    lemma_offer_all_concat(none, before, part, limit);
    lemma_offer_all_of_ranked(ranked(before, limit), part, limit);
}

/// A sorted sequence within the capacity is its own ranking.
pub proof fn lemma_ranked_of_sorted<T: Permutation>(items: Seq<T>, limit: int)
    requires
        sorted_by_diff(items),
        items.len() <= limit,
    ensures
        ranked(items, limit) == items,
    decreases items.len(),
{
    if items.len() > 0 {
        let rest = items.drop_last();
        lemma_ranked_of_sorted(rest, limit);
        lemma_slot_is(rest, items.last().spec_diff(), rest.len() as int);
        assert(place(rest, items.last()) =~= items);
    }
}

/// Merging is associative: under one capacity, three groups of items
/// merged in either pairing rank as the three groups together.
pub proof fn lemma_merge_associative<T: Permutation>(a: Seq<T>, b: Seq<T>, c: Seq<T>, limit: int)
    requires
        0 <= limit,
    ensures
        ranked(ranked(a + b, limit) + c, limit) == ranked(a + b + c, limit),
        ranked(a + ranked(b + c, limit), limit) == ranked(a + b + c, limit),
        ranked(ranked(a + b, limit) + c, limit) == ranked(a + ranked(b + c, limit), limit),
{
    let none = Seq::<T>::empty();
    lemma_ranked_part(none, a + b, c, limit);
    assert(none + ranked(a + b, limit) + c =~= ranked(a + b, limit) + c);
    assert(none + (a + b) + c =~= a + b + c);
    lemma_ranked_part(a, b + c, none, limit);
    assert(a + ranked(b + c, limit) + none =~= a + ranked(b + c, limit));
    assert(a + (b + c) + none =~= a + b + c);
}

/// A ranking may be built in parts: the rankings of two runs of items,
/// merged, are the ranking of the two runs together.
pub proof fn lemma_merge_of_parts<T: Permutation>(a: Seq<T>, b: Seq<T>, limit: int)
    requires
        0 <= limit,
    ensures
        ranked(ranked(a, limit) + ranked(b, limit), limit) == ranked(a + b, limit),
{
    let none = Seq::<T>::empty();
    lemma_ranked_part(none, a, ranked(b, limit), limit);
    assert(none + ranked(a, limit) + ranked(b, limit) =~= ranked(a, limit) + ranked(b, limit));
    assert(none + a + ranked(b, limit) =~= a + ranked(b, limit));
    lemma_ranked_part(a, b, none, limit);
    assert(a + ranked(b, limit) + none =~= a + ranked(b, limit));
    assert(a + b + none =~= a + b);
}

/// Without a capacity, items of different deviations can be placed in
/// either order of the two groups.
proof fn lemma_place_all_swap<T: Permutation>(a: Seq<T>, b: Seq<T>)
    requires
        no_shared_diff(a, b),
    ensures
        place_all(Seq::<T>::empty(), a + b) == place_all(Seq::<T>::empty(), b + a),
    decreases a.len(),
{
    let none = Seq::<T>::empty();
    if a.len() == 0 {
        assert(a + b =~= b + a);
    } else {
        let rest = a.drop_last();
        let x = a.last();
        assert(no_shared_diff(rest, b));
        lemma_place_all_swap(rest, b);
        lemma_place_all_concat(none, a, b);
        lemma_place_all_concat(none, rest, b);
        lemma_place_all_sorted(none, rest);
        lemma_place_all_commutes(place_all(none, rest), x, b);
        assert((b + a).drop_last() =~= b + rest);
    }
}

/// Merging is commutative where no deviation occurs on both sides.
pub proof fn lemma_merge_commutative<T: Permutation>(a: Seq<T>, b: Seq<T>, limit: int)
    requires
        0 <= limit,
        no_shared_diff(a, b),
    ensures
        ranked(a + b, limit) == ranked(b + a, limit),
{
    lemma_place_all_swap(a, b);
    lemma_ranked_wf(a + b, limit);
    lemma_ranked_wf(b + a, limit);
}

/// Sorted sequences of one length in which every deviation has the same
/// slot hold the same deviations.
proof fn lemma_same_slots_same_diffs<T: Permutation>(x: Seq<T>, y: Seq<T>)
    requires
        sorted_by_diff(x),
        sorted_by_diff(y),
        x.len() == y.len(),
        forall|d: u64| slot(x, d) == slot(y, d),
    ensures
        diffs(x) == diffs(y),
{
    assert forall|i: int| 0 <= i < x.len() implies x[i].spec_diff() == y[i].spec_diff() by {
        let dx = x[i].spec_diff();
        let dy = y[i].spec_diff();
        lemma_slot_bounds(x, dx);
        lemma_slot_bounds(y, dx);
        lemma_slot_bounds(x, dy);
        lemma_slot_bounds(y, dy);
        if dx < dy {
            assert(slot(x, dx) > i) by {
                if slot(x, dx) <= i {
                    assert(x[slot(x, dx)].spec_diff() <= x[i].spec_diff());
                }
            }
            assert(slot(y, dx) <= i) by {
                if slot(y, dx) > i {
                    assert(y[i].spec_diff() <= dx);
                }
            }
            assert(slot(x, dx) == slot(y, dx));
        } else if dy < dx {
            assert(slot(y, dy) > i) by {
                if slot(y, dy) <= i {
                    assert(y[slot(y, dy)].spec_diff() <= y[i].spec_diff());
                }
            }
            assert(slot(x, dy) <= i) by {
                if slot(x, dy) > i {
                    assert(x[i].spec_diff() <= dy);
                }
            }
            assert(slot(x, dy) == slot(y, dy));
        }
    }
    assert(diffs(x) =~= diffs(y));
}

/// Merging is commutative in the deviations it keeps: whichever side
/// comes first, the same deviations stand in the same places.
pub proof fn lemma_merge_commutative_diffs<T: Permutation>(a: Seq<T>, b: Seq<T>, limit: int)
    requires
        0 <= limit,
    ensures
        diffs(ranked(a + b, limit)) == diffs(ranked(b + a, limit)),
{
    let none = Seq::<T>::empty();
    let x = place_all(none, a + b);
    let y = place_all(none, b + a);
    lemma_place_all_sorted(none, a + b);
    lemma_place_all_sorted(none, b + a);
    assert forall|d: u64| slot(x, d) == slot(y, d) by {
        lemma_slot_after_place_all(none, a + b, d);
        lemma_slot_after_place_all(none, b + a, d);
        lemma_count_le_concat(a, b, d);
        lemma_count_le_concat(b, a, d);
    }
    lemma_same_slots_same_diffs(x, y);
    lemma_ranked_wf(a + b, limit);
    lemma_ranked_wf(b + a, limit);
    assert forall|i: int| 0 <= i < capped(x, limit).len() implies capped(x, limit)[i].spec_diff()
        == capped(y, limit)[i].spec_diff() by {
        assert(diffs(x)[i] == diffs(y)[i]);
    }
    assert(diffs(capped(x, limit)) =~= diffs(capped(y, limit)));
}

/// The rankings of the parts, each under the capacity `limit`.
pub open spec fn ranked_each<T: Permutation>(parts: Seq<Seq<T>>, limit: int) -> Seq<Seq<T>> {
    Seq::new(parts.len(), |i: int| ranked(parts[i], limit))
}

/// A ranking may be built in any number of parts: the rankings of the
/// parts, taken together in their order, rank as the items of the parts
/// taken together.
pub proof fn lemma_ranked_parts<T: Permutation>(parts: Seq<Seq<T>>, limit: int)
    requires
        0 <= limit,
    ensures
        ranked(ranked_each(parts, limit).flatten(), limit) == ranked(parts.flatten(), limit),
    decreases parts.len(),
{
    let none = Seq::<T>::empty();
    if parts.len() == 0 {
        assert(ranked_each(parts, limit) =~= parts);
    } else {
        let rest = parts.drop_last();
        let part = parts.last();
        let short = ranked_each(rest, limit).flatten();
        lemma_ranked_parts(rest, limit);
        assert(parts =~= rest.push(part));
        assert(ranked_each(parts, limit) =~= ranked_each(rest, limit).push(ranked(part, limit)));
        rest.lemma_flatten_push(part);
        ranked_each(rest, limit).lemma_flatten_push(ranked(part, limit));
        assert(parts.flatten() =~= rest.flatten() + part);
        assert(ranked_each(parts, limit).flatten() =~= short + ranked(part, limit));
        lemma_ranked_part(short, part, none, limit);
        assert(short + ranked(part, limit) + none =~= short + ranked(part, limit));
        assert(short + part + none =~= short + part);
        lemma_offer_all_concat(none, short, part, limit);
        lemma_offer_all_concat(none, rest.flatten(), part, limit);
    }
}

} // verus!
