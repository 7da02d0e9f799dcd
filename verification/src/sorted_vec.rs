use crate::permutation::Permutation;
use vstd::prelude::*;

verus! {

/// The items stand in ascending order of deviation.
pub open spec fn sorted_by_diff<T: Permutation>(s: Seq<T>) -> bool {
    forall|i: int, j: int| 0 <= i <= j < s.len() ==> s[i].spec_diff() <= s[j].spec_diff()
}

/// Where an item with deviation `diff` goes: behind the longest run of
/// leading items that are no worse. Among equal deviations the item that
/// came first stays first.
pub open spec fn slot<T: Permutation>(s: Seq<T>, diff: u64) -> int
    decreases s.len(),
{
    if s.len() == 0 || s[0].spec_diff() > diff {
        0
    } else {
        1 + slot(s.drop_first(), diff)
    }
}

/// `s` with `item` placed at its slot.
pub open spec fn place<T: Permutation>(s: Seq<T>, item: T) -> Seq<T> {
    s.insert(slot(s, item.spec_diff()), item)
}

/// The first `limit` items of `s`, or all of `s` where it has fewer.
pub open spec fn capped<T>(s: Seq<T>, limit: int) -> Seq<T> {
    if 0 <= limit < s.len() {
        s.take(limit)
    } else {
        s
    }
}

/// What a collection of capacity `limit` holds after `item` is offered.
pub open spec fn offer<T: Permutation>(s: Seq<T>, item: T, limit: int) -> Seq<T> {
    capped(place(s, item), limit)
}

/// What a collection of capacity `limit` that holds `start` holds after
/// the items of `items` are offered in turn.
pub open spec fn offer_all<T: Permutation>(start: Seq<T>, items: Seq<T>, limit: int) -> Seq<T>
    decreases items.len(),
{
    if items.len() == 0 {
        start
    } else {
        offer(offer_all(start, items.drop_last(), limit), items.last(), limit)
    }
}

/// The ranking of `items`: what an empty collection of capacity `limit`
/// holds after they are offered in turn.
pub open spec fn ranked<T: Permutation>(items: Seq<T>, limit: int) -> Seq<T> {
    offer_all(Seq::<T>::empty(), items, limit)
}

/// The slot of `diff` is the one place with no worse item before it and
/// a strictly worse item at it.
pub proof fn lemma_slot_is<T: Permutation>(s: Seq<T>, diff: u64, pos: int)
    requires
        0 <= pos <= s.len(),
        forall|i: int| 0 <= i < pos ==> s[i].spec_diff() <= diff,
        pos < s.len() ==> s[pos].spec_diff() > diff,
    ensures
        slot(s, diff) == pos,
    decreases s.len(),
{
    if pos > 0 {
        let t = s.drop_first();
        assert forall|i: int| 0 <= i < pos - 1 implies t[i].spec_diff() <= diff by {
            assert(t[i] == s[i + 1]);
        }
        lemma_slot_is(t, diff, pos - 1);
    }
}

/// The slot lies inside the sequence, behind items that are no worse and
/// before an item that is strictly worse.
pub proof fn lemma_slot_bounds<T: Permutation>(s: Seq<T>, diff: u64)
    ensures
        0 <= slot(s, diff) <= s.len(),
        forall|i: int| 0 <= i < slot(s, diff) ==> s[i].spec_diff() <= diff,
        slot(s, diff) < s.len() ==> s[slot(s, diff)].spec_diff() > diff,
    decreases s.len(),
{
    if !(s.len() == 0 || s[0].spec_diff() > diff) {
        let t = s.drop_first();
        lemma_slot_bounds(t, diff);
        assert forall|i: int| 0 <= i < slot(s, diff) implies s[i].spec_diff() <= diff by {
            if i > 0 {
                assert(s[i] == t[i - 1]);
            }
        }
        if slot(s, diff) < s.len() {
            assert(s[slot(s, diff)] == t[slot(t, diff)]);
        }
    }
}

/// Placing an item keeps a sorted sequence sorted.
pub proof fn lemma_place_sorted<T: Permutation>(s: Seq<T>, item: T)
    requires
        sorted_by_diff(s),
    ensures
        sorted_by_diff(place(s, item)),
        place(s, item).len() == s.len() + 1,
{
    let d = item.spec_diff();
    let p = slot(s, d);
    lemma_slot_bounds(s, d);
    let r = place(s, item);
    assert forall|i: int, j: int| 0 <= i <= j < r.len() implies r[i].spec_diff()
        <= r[j].spec_diff() by {
        if j < p {
        } else if j == p {
        } else {
            assert(r[j] == s[j - 1]);
            if i < p {
            } else if i == p {
                assert(s[j - 1].spec_diff() >= s[p].spec_diff());
            } else {
                assert(r[i] == s[i - 1]);
            }
        }
    }
}

/// Offering one more item is the last step of offering them all.
pub proof fn lemma_offer_all_step<T: Permutation>(start: Seq<T>, items: Seq<T>, n: int, limit: int)
    requires
        0 <= n < items.len(),
    ensures
        offer_all(start, items.take(n + 1), limit) == offer(
            offer_all(start, items.take(n), limit),
            items[n],
            limit,
        ),
{
    assert(items.take(n + 1).drop_last() =~= items.take(n));
}

/// Offering `a` and then `b` is offering `a + b`.
pub proof fn lemma_offer_all_concat<T: Permutation>(start: Seq<T>, a: Seq<T>, b: Seq<T>, limit: int)
    ensures
        offer_all(start, a + b, limit) == offer_all(offer_all(start, a, limit), b, limit),
    decreases b.len(),
{
    if b.len() == 0 {
        assert(a + b =~= a);
    } else {
        assert((a + b).drop_last() =~= a + b.drop_last());
        lemma_offer_all_concat(start, a, b.drop_last(), limit);
    }
}

/// A bounded collection of the best items seen, best first.
#[derive(Debug, Clone)]
pub struct SortedVec<T: Permutation> {
    pub data: Vec<T>,
    size_limit: usize,
}

impl<T: Permutation> View for SortedVec<T> {
    type V = Seq<T>;

    /// The retained items, best first.
    closed spec fn view(&self) -> Seq<T> {
        self.data@
    }
}

impl<T: Permutation> SortedVec<T> {
    /// The capacity the collection was made with.
    pub closed spec fn spec_size_limit(&self) -> usize {
        self.size_limit
    }

    /// Sorted by deviation, and no longer than the capacity.
    pub open spec fn wf(&self) -> bool {
        &&& self@.len() <= self.spec_size_limit()
        &&& sorted_by_diff(self@)
    }

    /// An empty collection that keeps at most `size_limit` items, with
    /// room for them reserved where the memory is to be had.
    pub fn new(size_limit: usize) -> (v: Self)
        ensures
            v@ == Seq::<T>::empty(),
            v.spec_size_limit() == size_limit,
            v.wf(),
    {
        let mut data: Vec<T> = Vec::new();
        let _ = data.try_reserve(size_limit);
        SortedVec { data, size_limit }
    }

    /// The capacity the collection was made with.
    pub fn size_limit(&self) -> (limit: usize)
        ensures
            limit == self.spec_size_limit(),
    {
        self.size_limit
    }

    /// How many items the collection holds.
    pub fn len(&self) -> (n: usize)
        ensures
            n == self@.len(),
    {
        self.data.len()
    }

    /// The item at place `index`, the best at place 0.
    pub fn get(&self, index: usize) -> (item: Option<&T>)
        ensures
            index < self@.len() ==> item == Some(&self@[index as int]),
            index >= self@.len() ==> item is None,
    {
        if index < self.data.len() {
            Some(&self.data[index])
        } else {
            None
        }
    }

    /// The ranking of the items of both collections, the left one's
    /// first, under the larger of the two capacities.
    pub fn merged(left: Self, right: Self) -> (v: Self)
        ensures
            v.spec_size_limit() == if left.spec_size_limit() >= right.spec_size_limit() {
                left.spec_size_limit()
            } else {
                right.spec_size_limit()
            },
            v@ == ranked(left@ + right@, v.spec_size_limit() as int),
            v.wf(),
    {
        let size_limit = if left.size_limit >= right.size_limit {
            left.size_limit
        } else {
            right.size_limit
        };
        let mut vec = SortedVec::new(size_limit);
        let ghost a = left@;
        let ghost b = right@;
        let ghost limit = size_limit as int;
        for l in it: left.data
            invariant
                it.seq() == a,
                vec.spec_size_limit() == size_limit,
                limit == size_limit as int,
                vec.wf(),
                vec@ == ranked(a.take(it.index() as int), limit),
        {
            proof {
                lemma_offer_all_step(Seq::<T>::empty(), a, it.index() as int, limit);
            }
            vec.insert_ordered(l);
        }
        assert(a.take(a.len() as int) =~= a);
        for r in it: right.data
            invariant
                it.seq() == b,
                vec.spec_size_limit() == size_limit,
                limit == size_limit as int,
                vec.wf(),
                vec@ == offer_all(ranked(a, limit), b.take(it.index() as int), limit),
        {
            proof {
                lemma_offer_all_step(ranked(a, limit), b, it.index() as int, limit);
            }
            vec.insert_ordered(r);
        }
        proof {
            assert(b.take(b.len() as int) =~= b);
            lemma_offer_all_concat(Seq::<T>::empty(), a, b, limit);
        }
        vec
    }

    /// The slot of `item` in the sorted items, found by halving.
    fn find_slot(&self, item: &T) -> (pos: usize)
        requires
            sorted_by_diff(self@),
        ensures
            pos == slot(self@, item.spec_diff()),
            pos <= self@.len(),
    {
        let diff = item.get_diff();
        let mut lo: usize = 0;
        let mut hi: usize = self.data.len();
        while lo < hi
            invariant
                0 <= lo <= hi <= self.data@.len(),
                sorted_by_diff(self.data@),
                diff == item.spec_diff(),
                forall|i: int| 0 <= i < lo ==> self.data@[i].spec_diff() <= diff,
                forall|i: int| hi <= i < self.data@.len() ==> self.data@[i].spec_diff() > diff,
            decreases hi - lo,
        {
            let mid = lo + (hi - lo) / 2;
            if self.data[mid].get_diff() <= diff {
                lo = mid + 1;
            } else {
                hi = mid;
            }
        }
        proof {
            lemma_slot_is(self.data@, diff, lo as int);
        }
        lo
    }

    /// Offers `item` to the collection. It is placed behind every item
    /// that is no worse, and the worst item leaves where the capacity is
    /// exceeded; a full collection is left as it is by an item that is
    /// not strictly better than its worst.
    pub fn insert_ordered(&mut self, item: T)
        requires
            old(self).wf(),
        ensures
            final(self).spec_size_limit() == old(self).spec_size_limit(),
            final(self)@ == offer(old(self)@, item, old(self).spec_size_limit() as int),
            final(self).wf(),
    {
        let ghost before = self.data@;
        let ghost limit = self.size_limit as int;
        proof {
            lemma_slot_bounds(before, item.spec_diff());
            lemma_place_sorted(before, item);
        }
        let len = self.data.len();
        if len == self.size_limit && len > 0 {
            if !item.perm_lt(&self.data[len - 1]) {
                proof {
                    lemma_slot_is(before, item.spec_diff(), before.len() as int);
                    assert(place(before, item).take(limit) =~= before);
                }
                return ;
            }
        }
        let pos = self.find_slot(&item);
        self.data.insert(pos, item);
        if self.data.len() > self.size_limit {
            self.data.truncate(self.size_limit);
        }
    }
}

} // verus!
