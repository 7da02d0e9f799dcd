use crate::permutation::{key_order, Permutation, PermutationKey};
use crate::utils;
use std::cmp::Ordering;
use vstd::prelude::*;
use vstd::std_specs::cmp::{PartialEqSpecImpl, PartialOrdSpecImpl};

verus! {

/// The ordering key of the largest finite deviation: the bit pattern of
/// the largest finite IEEE-754 double.
pub const WORST_DIFF: u64 = 0x7FEF_FFFF_FFFF_FFFF;

/// One scored combination of one dataset.
///
/// `diff` is the ordering key of the absolute deviation and `error` the
/// signed deviation as the caller encodes it; neither is computed here.
#[derive(Debug)]
pub struct SingleResult {
    pub field_names: Vec<String>,
    pub permutation_sign: u32,
    pub permutation_select: u32,
    pub mask: u32,
    pub diff: u64,
    error: u64,
}

impl Permutation for SingleResult {
    closed spec fn spec_sign(&self) -> u32 {
        self.permutation_sign
    }

    closed spec fn spec_select(&self) -> u32 {
        self.permutation_select
    }

    closed spec fn spec_field_names(&self) -> Seq<String> {
        self.field_names@
    }

    closed spec fn spec_mask(&self) -> u32 {
        self.mask
    }

    closed spec fn spec_error(&self) -> u64 {
        self.error
    }

    closed spec fn spec_diff(&self) -> u64 {
        self.diff
    }

    fn get_permutation_sign(&self) -> u32 {
        self.permutation_sign
    }

    fn get_permutation_select(&self) -> u32 {
        self.permutation_select
    }

    fn get_field_names(&self) -> &[String] {
        self.field_names.as_slice()
    }

    fn get_error(&self) -> u64 {
        self.error
    }

    fn get_mask(&self) -> u32 {
        self.mask
    }

    fn get_diff(&self) -> u64 {
        self.diff
    }
}

impl Eq for SingleResult {

}

impl SingleResult {
    /// A scored combination of the fields named in `fields_descr`.
    pub fn new(
        fields_descr: Vec<String>,
        psign: u32,
        pselect: u32,
        mask: u32,
        diff: u64,
        err: u64,
    ) -> (r: Self)
        ensures
            r.spec_field_names() == fields_descr@,
            r.spec_sign() == psign,
            r.spec_select() == pselect,
            r.spec_mask() == mask,
            r.spec_diff() == diff,
            r.spec_error() == err,
    {
        SingleResult {
            field_names: fields_descr,
            permutation_sign: psign,
            permutation_select: pselect,
            mask,
            diff,
            error: err,
        }
    }

    /// The canonical key of this combination.
    pub fn get_own_key(&self) -> (key: PermutationKey)
        ensures
            key == utils::perm_key(self.spec_sign(), self.spec_select(), self.spec_mask()),
    {
        self.get_key()
    }
}

impl PartialEq for SingleResult {
    /// Two results are equal when they are the same combination, whatever
    /// their deviations.
    fn eq(&self, other: &Self) -> (r: bool) {
        self.get_key() == other.get_key()
    }
}

impl PartialEqSpecImpl for SingleResult {
    open spec fn obeys_eq_spec() -> bool {
        true
    }

    open spec fn eq_spec(&self, other: &Self) -> bool {
        utils::perm_key(self.spec_sign(), self.spec_select(), self.spec_mask())
            == utils::perm_key(other.spec_sign(), other.spec_select(), other.spec_mask())
    }
}

impl PartialOrd for SingleResult {
    /// Results are ordered by deviation alone.
    fn partial_cmp(&self, other: &Self) -> (o: Option<Ordering>) {
        Some(self.perm_cmp(other))
    }

    fn lt(&self, other: &Self) -> (b: bool) {
        self.perm_lt(other)
    }

    fn le(&self, other: &Self) -> (b: bool) {
        self.perm_le(other)
    }

    fn gt(&self, other: &Self) -> (b: bool) {
        self.perm_gt(other)
    }

    fn ge(&self, other: &Self) -> (b: bool) {
        self.perm_ge(other)
    }
}

impl PartialOrdSpecImpl for SingleResult {
    open spec fn obeys_partial_cmp_spec() -> bool {
        true
    }

    open spec fn partial_cmp_spec(&self, other: &Self) -> Option<Ordering> {
        Some(key_order(self.spec_diff(), other.spec_diff()))
    }
}

impl Default for SingleResult {
    /// No fields, no selection, and the worst finite deviation.
    fn default() -> (r: Self)
        ensures
            r.spec_field_names() == Seq::<String>::empty(),
            r.spec_sign() == 0,
            r.spec_select() == 0,
            r.spec_mask() == 0,
            r.spec_diff() == WORST_DIFF,
            r.spec_error() == WORST_DIFF,
    {
        SingleResult {
            field_names: Vec::new(),
            permutation_sign: 0,
            permutation_select: 0,
            mask: 0,
            diff: WORST_DIFF,
            error: WORST_DIFF,
        }
    }
}

} // verus!
