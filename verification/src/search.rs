use crate::masked_permutation::{
    deposit, lemma_sign_count_bounds, sign_count, MaskedPermutation,
};
use crate::permutation::Permutation;
use crate::singleresult::SingleResult;
use crate::sorted_vec::{ranked, SortedVec};
use vstd::prelude::*;

verus! {

/// The largest number of fields a search can cover.
pub const MAX_FIELDS: usize = 31;

/// The selection mask with a bit for each of `num_fields` fields.
pub open spec fn full_mask(num_fields: nat) -> u32 {
    if num_fields >= 32 {
        0xffff_ffffu32
    } else {
        ((1u32 << (num_fields as u32)) - 1) as u32
    }
}

/// The combinations of one selection, in the order they are generated:
/// each a selection mask and a sign mask inside it.
pub open spec fn candidates_of(select: u32) -> Seq<(u32, u32)> {
    Seq::new(sign_count(select), |c: int| (select, deposit(c as u32, select)))
}

/// The combinations of the selections `first ..= last`, selection by
/// selection. The empty selection has none.
pub open spec fn candidates(first: u32, last: u32) -> Seq<(u32, u32)>
    decreases last,
{
    if last < first || last == 0 {
        Seq::empty()
    } else {
        candidates(first, (last - 1) as u32) + candidates_of(last)
    }
}

/// `item` is the combination `candidate` of a search over the fields
/// `names` with the full mask `mask`.
pub open spec fn is_scored(
    item: SingleResult,
    names: Seq<String>,
    mask: u32,
    candidate: (u32, u32),
) -> bool {
    &&& item.spec_field_names() == names
    &&& item.spec_mask() == mask
    &&& item.spec_select() == candidate.0
    &&& item.spec_sign() == candidate.1
}

/// The combinations up to a selection are the start of the combinations
/// up to any later one.
pub proof fn lemma_candidates_prefix(first: u32, mid: u32, last: u32)
    requires
        mid <= last,
    ensures
        candidates(first, mid).len() <= candidates(first, last).len(),
        candidates(first, last).take(candidates(first, mid).len() as int) == candidates(
            first,
            mid,
        ),
    decreases last - mid,
{
    if mid == last {
        assert(candidates(first, last).take(candidates(first, last).len() as int) =~= candidates(
            first,
            last,
        ));
    } else if last < first {
    } else {
        lemma_candidates_prefix(first, mid, (last - 1) as u32);
        let shorter = candidates(first, (last - 1) as u32);
        let n = candidates(first, mid).len() as int;
        assert((shorter + candidates_of(last)).take(n) =~= shorter.take(n));
    }
}

/// Splitting the selections at any point splits the combinations there.
pub proof fn lemma_candidates_split(first: u32, second: u32, last: u32)
    requires
        1 <= first <= second,
        second - 1 <= last,
    ensures
        candidates(first, last) == candidates(first, (second - 1) as u32) + candidates(
            second,
            last,
        ),
    decreases last + 1 - second,
{
    let a = candidates(first, (second - 1) as u32);
    if second - 1 == last {
        assert(candidates(second, last) =~= Seq::<(u32, u32)>::empty());
        assert(a + Seq::<(u32, u32)>::empty() =~= a);
    } else {
        lemma_candidates_split(first, second, (last - 1) as u32);
        let b = candidates(second, (last - 1) as u32);
        assert((a + b) + candidates_of(last) =~= a + (b + candidates_of(last)));
    }
}

/// The selections `lo ..= last` cut into runs of `size` selections, the
/// last run as long as what is left.
pub open spec fn parts_from(lo: int, last: u32, size: int) -> Seq<(u32, u32)>
    decreases last - lo + 1,
{
    if lo > last || size < 1 || lo < 0 {
        Seq::empty()
    } else {
        let hi = if lo + size - 1 < last {
            lo + size - 1
        } else {
            last as int
        };
        seq![(lo as u32, hi as u32)] + parts_from(hi + 1, last, size)
    }
}

/// The length of the runs that cut `first ..= last` into at most
/// `parts` runs.
pub open spec fn part_size(first: u32, last: u32, parts: u32) -> int {
    if parts == 0 {
        last - first + 1
    } else {
        (last - first) / (parts as int) + 1
    }
}

/// The combinations of the runs `parts`, run after run.
pub open spec fn candidates_in(parts: Seq<(u32, u32)>) -> Seq<(u32, u32)>
    decreases parts.len(),
{
    if parts.len() == 0 {
        Seq::empty()
    } else {
        candidates(parts[0].0, parts[0].1) + candidates_in(parts.drop_first())
    }
}

/// Cutting the selections into runs loses no combination, repeats none
/// and keeps their order.
pub proof fn lemma_parts_cover(lo: int, last: u32, size: int)
    requires
        1 <= lo,
        1 <= size,
    ensures
        candidates_in(parts_from(lo, last, size)) == if lo <= last {
            candidates(lo as u32, last)
        } else {
            Seq::empty()
        },
    decreases last - lo + 1,
{
    if lo <= last {
        let hi = if lo + size - 1 < last {
            lo + size - 1
        } else {
            last as int
        };
        let rest = parts_from(hi + 1, last, size);
        let all = parts_from(lo, last, size);
        lemma_parts_cover(hi + 1, last, size);
        assert(all[0] == (lo as u32, hi as u32));
        assert(all.drop_first() =~= rest);
        if hi < last {
            lemma_candidates_split(lo as u32, (hi + 1) as u32, last);
        } else {
            assert(candidates(lo as u32, last) + Seq::<(u32, u32)>::empty() =~= candidates(
                lo as u32,
                last,
            ));
        }
    }
}

/// The runs before the last are full: all the runs but one, each of
/// `size` selections, fit between `lo` and `last`.
proof fn lemma_parts_fit(lo: int, last: u32, size: int)
    requires
        0 <= lo <= last,
        1 <= size,
    ensures
        parts_from(lo, last, size).len() >= 1,
        (parts_from(lo, last, size).len() - 1) * size <= last - lo,
    decreases last - lo + 1,
{
    let hi = if lo + size - 1 < last {
        lo + size - 1
    } else {
        last as int
    };
    let rest = parts_from(hi + 1, last, size);
    if hi < last {
        lemma_parts_fit(hi + 1, last, size);
        assert((rest.len() - 1) * size + size == rest.len() * size) by (nonlinear_arith);
    } else {
        assert(rest =~= Seq::<(u32, u32)>::empty());
        assert(0 * size == 0) by (nonlinear_arith);
    }
}

/// There are no more runs than were asked for.
pub proof fn lemma_parts_count(first: u32, last: u32, parts: u32)
    requires
        first <= last,
        1 <= parts,
    ensures
        1 <= parts_from(first as int, last, part_size(first, last, parts)).len() <= parts,
{
    let size = part_size(first, last, parts);
    let count = parts_from(first as int, last, size).len() as int;
    let span = last - first;
    lemma_parts_fit(first as int, last, size);
    assert(span < size * parts) by (nonlinear_arith)
        requires
            size == span / (parts as int) + 1,
            parts >= 1,
            span >= 0,
    ;
    assert(count - 1 < parts) by (nonlinear_arith)
        requires
            (count - 1) * size <= span,
            span < size * parts,
            size >= 1,
    ;
}

/// Cuts the selections `first ..= last` into at most `parts` runs of
/// equal length, but for the last, for workers to search side by side.
pub fn split_range(first: u32, last: u32, parts: u32) -> (runs: Vec<(u32, u32)>)
    ensures
        runs@ == parts_from(first as int, last, part_size(first, last, parts)),
        first > last ==> runs@.len() == 0,
        first <= last ==> 1 <= runs@.len(),
        first <= last && parts >= 1 ==> runs@.len() <= parts,
        first <= last && parts == 0 ==> runs@.len() == 1,
{
    let mut runs: Vec<(u32, u32)> = Vec::new();
    if first > last {
        return runs;
    }
    proof {
        if parts >= 1 {
            lemma_parts_count(first, last, parts);
        } else {
            lemma_parts_fit(first as int, last, part_size(first, last, parts));
            let more = parts_from(first as int, last, part_size(first, last, parts)).len() - 1;
            let size = part_size(first, last, parts);
            assert(more == 0) by (nonlinear_arith)
                requires
                    more >= 0,
                    size >= 1,
                    more * size <= size - 1,
            ;
        }
    }
    let size: u64 = if parts == 0 {
        (last - first) as u64 + 1
    } else {
        ((last - first) / parts) as u64 + 1
    };
    let mut lo: u64 = first as u64;
    let ghost whole = parts_from(first as int, last, size as int);
    assert(runs@ + whole =~= whole);
    while lo <= last as u64
        invariant
            first <= lo <= last + 1,
            1 <= size <= 0x1_0000_0000,
            whole == parts_from(first as int, last, size as int),
            runs@ + parts_from(lo as int, last, size as int) == whole,
        decreases last + 1 - lo,
    {
        let hi: u64 = if lo + size - 1 < last as u64 {
            lo + size - 1
        } else {
            last as u64
        };
        let ghost before = runs@;
        runs.push((lo as u32, hi as u32));
        proof {
            assert(runs@ + parts_from(hi + 1, last, size as int) =~= before + parts_from(
                lo as int,
                last,
                size as int,
            ));
        }
        lo = hi + 1;
    }
    assert(runs@ + Seq::<(u32, u32)>::empty() =~= runs@);
    runs
}

/// The mask with a bit for each of `num_fields` fields, or the reason
/// why that many fields cannot be searched.
pub fn all_fields_mask(num_fields: usize) -> (r: Result<u32, String>)
    ensures
        r is Err <==> num_fields > MAX_FIELDS,
        r matches Ok(mask) ==> mask == full_mask(num_fields as nat) && mask <= 0x7fff_ffff,
        r matches Err(msg) ==> msg@ == "Too many fields (max 31 supported)"@,
{
    if num_fields > MAX_FIELDS {
        return Err("Too many fields (max 31 supported)".to_owned());
    }
    let width = num_fields as u32;
    assert(1u32 << width >= 1 && (1u32 << width) - 1 <= 0x7fff_ffff) by (bit_vector)
        requires
            width <= 31,
    ;
    Ok((1u32 << width) - 1)
}

/// A search in progress over the selections `first ..= last`.
///
/// The search names the combination that is to be scored next; the
/// caller scores it and hands the score back. Scored combinations are
/// ranked as they come.
pub struct PermutationSearch {
    field_names: Vec<String>,
    mask: u32,
    first: u32,
    last: u32,
    select: u32,
    signs: MaskedPermutation,
    waiting: Option<(u32, u32)>,
    rank: SortedVec<SingleResult>,
    scored: Ghost<Seq<SingleResult>>,
}

impl PermutationSearch {
    #[verifier::type_invariant]
    spec fn inv(self) -> bool {
        let all = candidates(self.first, self.last);
        let done = self.scored@.len() as int;
        &&& 1 <= self.first
        &&& self.rank.wf()
        &&& self.rank@ == ranked(self.scored@, self.rank.spec_size_limit() as int)
        &&& done <= all.len()
        &&& forall|i: int|
            0 <= i < done ==> is_scored(
                #[trigger] self.scored@[i],
                self.field_names@,
                self.mask,
                all[i],
            )
        &&& match self.waiting {
            Some(candidate) => {
                let at = self.signs.spec_position() - 1;
                &&& self.first <= self.select <= self.last
                &&& self.signs.spec_mask() == self.select
                &&& 0 <= at < sign_count(self.select)
                &&& done == candidates(self.first, (self.select - 1) as u32).len() + at
                &&& candidate == (self.select, deposit(at as u32, self.select))
            },
            None => done == all.len(),
        }
    }

    /// The first selection of the search.
    pub closed spec fn spec_first(&self) -> u32 {
        self.first
    }

    /// The last selection of the search.
    pub closed spec fn spec_last(&self) -> u32 {
        self.last
    }

    /// The mask of all fields.
    pub closed spec fn spec_mask(&self) -> u32 {
        self.mask
    }

    /// The names of the fields, in the order of their bits.
    pub closed spec fn spec_field_names(&self) -> Seq<String> {
        self.field_names@
    }

    /// How many combinations the ranking keeps.
    pub closed spec fn spec_rank_size(&self) -> usize {
        self.rank.spec_size_limit()
    }

    /// The combinations scored so far, in the order they were named.
    pub closed spec fn scored(&self) -> Seq<SingleResult> {
        self.scored@
    }

    /// Every combination of the search, in the order it is named.
    pub open spec fn all_candidates(&self) -> Seq<(u32, u32)> {
        candidates(self.spec_first(), self.spec_last())
    }

    /// The combination that is to be scored next, if any is left.
    pub open spec fn spec_pending(&self) -> Option<(u32, u32)> {
        if self.scored().len() < self.all_candidates().len() {
            Some(self.all_candidates()[self.scored().len() as int])
        } else {
            None
        }
    }

    /// The combinations scored so far are the first of the search, each
    /// under the search's field names and full mask.
    pub open spec fn consistent(&self) -> bool {
        &&& self.scored().len() <= self.all_candidates().len()
        &&& forall|i: int|
            0 <= i < self.scored().len() ==> is_scored(
                #[trigger] self.scored()[i],
                self.spec_field_names(),
                self.spec_mask(),
                self.all_candidates()[i],
            )
    }

    /// A search over the selections `first ..= last` of the fields named,
    /// cut to the selections `1 ..= full mask`, with nothing scored yet.
    /// More than 31 fields are refused.
    pub fn between(field_names: Vec<String>, first: u32, last: u32, rank_size: usize) -> (r:
        Result<PermutationSearch, String>)
        ensures
            r is Err <==> field_names@.len() > MAX_FIELDS,
            r matches Err(msg) ==> msg@ == "Too many fields (max 31 supported)"@,
            r matches Ok(search) ==> {
                let mask = full_mask(field_names@.len());
                &&& search.spec_first() == if first == 0 {
                    1u32
                } else {
                    first
                }
                &&& search.spec_last() == if last > mask {
                    mask
                } else {
                    last
                }
                &&& search.spec_mask() == mask
                &&& search.spec_field_names() == field_names@
                &&& search.spec_rank_size() == rank_size
                &&& search.scored() == Seq::<SingleResult>::empty()
                &&& search.consistent()
            },
    {
        let mask = match all_fields_mask(field_names.len()) {
            Ok(mask) => mask,
            Err(msg) => {
                return Err(msg);
            },
        };
        let first = if first == 0 {
            1
        } else {
            first
        };
        let last = if last > mask {
            mask
        } else {
            last
        };
        let rank = SortedVec::new(rank_size);
        let mut signs = MaskedPermutation::new(first);
        let mut waiting: Option<(u32, u32)> = None;
        if first <= last {
            proof {
                lemma_sign_count_bounds(first);
                assert(candidates(first, (first - 1) as u32) =~= Seq::<(u32, u32)>::empty());
            }
            if let Some(sign) = signs.next() {
                waiting = Some((first, sign));
            }
        }
        Ok(
            PermutationSearch {
                field_names,
                mask,
                first,
                last,
                select: first,
                signs,
                waiting,
                rank,
                scored: Ghost(Seq::empty()),
            },
        )
    }

    /// The combination that is to be scored next, or `None` once every
    /// combination of the search has been scored.
    pub fn pending(&self) -> (candidate: Option<(u32, u32)>)
        ensures
            candidate == self.spec_pending(),
            self.consistent(),
    {
        proof {
            use_type_invariant(self);
            self.lemma_waiting_is_next();
        }
        self.waiting
    }

    /// Takes the score of the pending combination: ranks it under the
    /// search's field names and full mask, and moves on to the next
    /// combination. With nothing pending the search stays as it is.
    pub fn advance(self, diff: u64, err: u64) -> (next: Self)
        ensures
            next.spec_first() == self.spec_first(),
            next.spec_last() == self.spec_last(),
            next.spec_mask() == self.spec_mask(),
            next.spec_field_names() == self.spec_field_names(),
            next.spec_rank_size() == self.spec_rank_size(),
            next.consistent(),
            match self.spec_pending() {
                Some(candidate) => {
                    &&& next.scored().len() == self.scored().len() + 1
                    &&& next.scored().drop_last() == self.scored()
                    &&& next.scored().last().spec_diff() == diff
                    &&& next.scored().last().spec_error() == err
                    &&& is_scored(
                        next.scored().last(),
                        self.spec_field_names(),
                        self.spec_mask(),
                        candidate,
                    )
                },
                None => next.scored() == self.scored(),
            },
    {
        proof {
            use_type_invariant(&self);
            self.lemma_waiting_is_next();
        }
        let ghost all = candidates(self.first, self.last);
        let PermutationSearch {
            field_names,
            mask,
            first,
            last,
            select,
            signs,
            waiting,
            rank,
            scored,
        } = self;
        let (picked, sign) = match waiting {
            Some(candidate) => candidate,
            None => {
                return PermutationSearch {
                    field_names,
                    mask,
                    first,
                    last,
                    select,
                    signs,
                    waiting,
                    rank,
                    scored,
                };
            },
        };
        let names = field_names.clone();
        assert(names@ =~= field_names@);
        let item = SingleResult::new(names, sign, picked, mask, diff, err);
        let ghost grown = scored@.push(item);
        let mut rank = rank;
        proof {
            assert(grown.drop_last() =~= scored@);
        }
        rank.insert_ordered(item);
        let mut signs = signs;
        let mut select = select;
        let ghost at = signs.spec_position() as int;
        let mut waiting: Option<(u32, u32)> = None;
        match signs.next() {
            Some(sign) => {
                waiting = Some((select, sign));
            },
            None => {
                proof {
                    lemma_candidates_prefix(first, select, last);
                }
                if select < last {
                    select = select + 1;
                    signs = MaskedPermutation::new(select);
                    proof {
                        lemma_sign_count_bounds(select);
                    }
                    if let Some(sign) = signs.next() {
                        waiting = Some((select, sign));
                    }
                }
            },
        }
        PermutationSearch {
            field_names,
            mask,
            first,
            last,
            select,
            signs,
            waiting,
            rank,
            scored: Ghost(grown),
        }
    }

    /// Ends the search and hands out the ranking of what was scored.
    pub fn finish(self) -> (rank: SortedVec<SingleResult>)
        ensures
            rank@ == ranked(self.scored(), self.spec_rank_size() as int),
            rank.spec_size_limit() == self.spec_rank_size(),
            rank.wf(),
            self.consistent(),
    {
        proof {
            use_type_invariant(&self);
        }
        self.rank
    }

    /// The combination that waits is the next of the search.
    proof fn lemma_waiting_is_next(&self)
        requires
            self.inv(),
        ensures
            self.waiting == self.spec_pending(),
    {
        if let Some(candidate) = self.waiting {
            let before = candidates(self.first, (self.select - 1) as u32);
            let upto = candidates(self.first, self.select);
            let at = self.signs.spec_position() - 1;
            lemma_candidates_prefix(self.first, self.select, self.last);
            assert(upto == before + candidates_of(self.select));
            let i = before.len() + at;
            assert(upto[i] == candidates_of(self.select)[at]);
            assert(candidates(self.first, self.last).take(upto.len() as int)[i] == candidates(
                self.first,
                self.last,
            )[i]);
        }
    }
}

/// Starts the search over every non-empty selection of the fields named.
/// With no fields there is nothing to score, and the ranking stays
/// empty; more than 31 fields are refused.
pub fn find_permutation(field_names: Vec<String>, rank_size: usize) -> (r: Result<
    PermutationSearch,
    String,
>)
    ensures
        r is Err <==> field_names@.len() > MAX_FIELDS,
        r matches Err(msg) ==> msg@ == "Too many fields (max 31 supported)"@,
        r matches Ok(search) ==> {
            &&& search.spec_first() == 1
            &&& search.spec_last() == full_mask(field_names@.len())
            &&& search.spec_mask() == full_mask(field_names@.len())
            &&& search.spec_field_names() == field_names@
            &&& search.spec_rank_size() == rank_size
            &&& search.scored() == Seq::<SingleResult>::empty()
            &&& search.consistent()
        },
{
    PermutationSearch::between(field_names, 1, 0xffff_ffff, rank_size)
}

} // verus!
