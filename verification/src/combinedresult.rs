use crate::permutation::{key_order, Permutation};
use crate::utils;
use std::cmp::Ordering;
use vstd::prelude::*;
use vstd::std_specs::cmp::{PartialEqSpecImpl, PartialOrdSpecImpl};

verus! {

/// One combination as several datasets found it: the deviation of each
/// sighting, and the mean of them by which it is ranked.
///
/// Its identity is the canonical key of its sign, its selection and the
/// full mask it carries: the key of the sightings that were folded into
/// it.
///
/// The mean is not computed here. It is the ordering key that the caller
/// sets once the sightings are in; until then it is 0, the key of a mean
/// over nothing.
#[derive(Debug, Default)]
pub struct CombinedResult {
    field_names: Vec<String>,
    permutation_sign: u32,
    permutation_select: u32,
    mask: u32,
    diffs: Vec<u64>,
    mean: u64,
}

impl Permutation for CombinedResult {
    closed spec fn spec_sign(&self) -> u32 {
        self.permutation_sign
    }

    closed spec fn spec_select(&self) -> u32 {
        self.permutation_select
    }

    closed spec fn spec_field_names(&self) -> Seq<String> {
        self.field_names@
    }

    closed spec fn spec_mask(&self) -> u32 {
        self.mask
    }

    open spec fn spec_error(&self) -> u64 {
        self.spec_diff()
    }

    closed spec fn spec_diff(&self) -> u64 {
        self.mean
    }

    fn get_permutation_sign(&self) -> u32 {
        self.permutation_sign
    }

    fn get_permutation_select(&self) -> u32 {
        self.permutation_select
    }

    fn get_field_names(&self) -> &[String] {
        self.field_names.as_slice()
    }

    fn get_error(&self) -> u64 {
        self.mean
    }

    fn get_mask(&self) -> u32 {
        self.mask
    }

    fn get_diff(&self) -> u64 {
        self.mean
    }
}

impl Eq for CombinedResult {

}

impl CombinedResult {
    /// The deviations of the sightings, in the order they came.
    pub closed spec fn spec_diffs(&self) -> Seq<u64> {
        self.diffs@
    }

    /// This result under the ordering key `mean`, all else the same.
    pub closed spec fn spec_with_mean(self, mean: u64) -> Self {
        CombinedResult { mean, ..self }
    }

    /// A combination that no dataset has shown yet. The selection
    /// stands for the full mask: every selected field that is not added
    /// is subtracted.
    pub fn new(fields_names: Vec<String>, psign: u32, pselect: u32) -> (r: Self)
        ensures
            r.spec_field_names() == fields_names@,
            r.spec_sign() == psign,
            r.spec_select() == pselect,
            r.spec_mask() == pselect,
            r.spec_diffs() == Seq::<u64>::empty(),
            r.spec_diff() == 0,
    {
        CombinedResult {
            field_names: fields_names,
            permutation_sign: psign,
            permutation_select: pselect,
            mask: pselect,
            diffs: Vec::new(),
            mean: 0,
        }
    }

    /// A combination that no dataset has shown yet, under the full mask
    /// of the search that is about to show it.
    pub fn with_mask(fields_names: Vec<String>, psign: u32, pselect: u32, mask: u32) -> (r: Self)
        ensures
            r.spec_field_names() == fields_names@,
            r.spec_sign() == psign,
            r.spec_select() == pselect,
            r.spec_mask() == mask,
            r.spec_diffs() == Seq::<u64>::empty(),
            r.spec_diff() == 0,
    {
        CombinedResult {
            field_names: fields_names,
            permutation_sign: psign,
            permutation_select: pselect,
            mask,
            diffs: Vec::new(),
            mean: 0,
        }
    }

    /// Adds the deviation of one more sighting.
    pub fn push_diff(&mut self, diff: u64)
        ensures
            final(self).spec_diffs() == old(self).spec_diffs().push(diff),
            final(self).spec_field_names() == old(self).spec_field_names(),
            final(self).spec_sign() == old(self).spec_sign(),
            final(self).spec_select() == old(self).spec_select(),
            final(self).spec_mask() == old(self).spec_mask(),
            final(self).spec_diff() == old(self).spec_diff(),
    {
        self.diffs.push(diff)
    }

    /// The deviations of the sightings, in the order they came.
    pub fn get_diffs(&self) -> (diffs: &[u64])
        ensures
            diffs@ == self.spec_diffs(),
    {
        self.diffs.as_slice()
    }

    /// Sets the ordering key: the mean of the deviations, as the caller
    /// computed it.
    pub fn set_mean(&mut self, mean: u64)
        ensures
            *final(self) == old(self).spec_with_mean(mean),
            final(self).spec_diff() == mean,
            final(self).spec_diffs() == old(self).spec_diffs(),
            final(self).spec_field_names() == old(self).spec_field_names(),
            final(self).spec_sign() == old(self).spec_sign(),
            final(self).spec_select() == old(self).spec_select(),
            final(self).spec_mask() == old(self).spec_mask(),
    {
        self.mean = mean;
    }

    /// Setting the mean changes the ordering key and nothing else.
    pub proof fn lemma_with_mean(self, mean: u64)
        ensures
            self.spec_with_mean(mean).spec_diff() == mean,
            self.spec_with_mean(mean).spec_diffs() == self.spec_diffs(),
            self.spec_with_mean(mean).spec_field_names() == self.spec_field_names(),
            self.spec_with_mean(mean).spec_sign() == self.spec_sign(),
            self.spec_with_mean(mean).spec_select() == self.spec_select(),
            self.spec_with_mean(mean).spec_mask() == self.spec_mask(),
    {
    }
}

impl PartialEq for CombinedResult {
    /// Two results are equal when they are the same combination, whatever
    /// their deviations.
    fn eq(&self, other: &Self) -> (r: bool) {
        self.get_key() == other.get_key()
    }
}

impl PartialEqSpecImpl for CombinedResult {
    open spec fn obeys_eq_spec() -> bool {
        true
    }

    open spec fn eq_spec(&self, other: &Self) -> bool {
        utils::perm_key(self.spec_sign(), self.spec_select(), self.spec_mask())
            == utils::perm_key(other.spec_sign(), other.spec_select(), other.spec_mask())
    }
}

impl PartialOrd for CombinedResult {
    /// Results are ordered by mean deviation alone.
    fn partial_cmp(&self, other: &Self) -> (o: Option<Ordering>) {
        Some(self.perm_cmp(other))
    }

    fn lt(&self, other: &Self) -> (b: bool) {
        self.perm_lt(other)
    }

    fn le(&self, other: &Self) -> (b: bool) {
        self.perm_le(other)
    }

    fn gt(&self, other: &Self) -> (b: bool) {
        self.perm_gt(other)
    }

    fn ge(&self, other: &Self) -> (b: bool) {
        self.perm_ge(other)
    }
}

impl PartialOrdSpecImpl for CombinedResult {
    open spec fn obeys_partial_cmp_spec() -> bool {
        true
    }

    open spec fn partial_cmp_spec(&self, other: &Self) -> Option<Ordering> {
        Some(key_order(self.spec_diff(), other.spec_diff()))
    }
}

} // verus!
