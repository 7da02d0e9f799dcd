use crate::display::{describe, display_text};
use crate::utils;
use std::cmp::Ordering;
use vstd::prelude::*;

verus! {

/// Canonical identity of a signed selection: the fields that are added
/// and the fields that are subtracted.
#[derive(Debug, Clone, Copy, PartialEq, Eq, Hash, Structural)]
pub struct PermutationKey(pub u32, pub u32);

/// How two ordering keys compare.
pub open spec fn key_order(a: u64, b: u64) -> Ordering {
    if a < b {
        Ordering::Less
    } else if a > b {
        Ordering::Greater
    } else {
        Ordering::Equal
    }
}

/// A scored combination: a selection of fields, a sign for each selected
/// field, and the deviation by which it is ranked.
///
/// Ranking goes by `get_diff` alone; identity goes by `get_key` alone.
/// Two different combinations may compare `Equal`.
pub trait Permutation: Sized {
    spec fn spec_sign(&self) -> u32;

    spec fn spec_select(&self) -> u32;

    spec fn spec_field_names(&self) -> Seq<String>;

    spec fn spec_mask(&self) -> u32;

    spec fn spec_error(&self) -> u64;

    spec fn spec_diff(&self) -> u64;

    fn get_permutation_sign(&self) -> (sign: u32)
        ensures
            sign == self.spec_sign(),
    ;

    fn get_permutation_select(&self) -> (select: u32)
        ensures
            select == self.spec_select(),
    ;

    fn get_field_names(&self) -> (names: &[String])
        ensures
            names@ == self.spec_field_names(),
    ;

    fn get_mask(&self) -> (mask: u32)
        ensures
            mask == self.spec_mask(),
    ;

    fn get_error(&self) -> (error: u64)
        ensures
            error == self.spec_error(),
    ;

    fn get_diff(&self) -> (diff: u64)
        ensures
            diff == self.spec_diff(),
    ;

    /// The two lines that describe this combination: its masks in
    /// binary, lowest bit first, with `error_text` for its signed
    /// deviation, and its formula.
    fn fmt_display(&self, error_text: &str) -> (text: String)
        ensures
            text@ == display_text(
                self.spec_field_names(),
                self.spec_sign(),
                self.spec_select(),
                error_text@,
            ),
    {
        describe(
            self.get_field_names(),
            self.get_permutation_sign(),
            self.get_permutation_select(),
            error_text,
        )
    }

    /// The canonical key of this combination.
    fn get_key(&self) -> (key: PermutationKey)
        ensures
            key == utils::perm_key(self.spec_sign(), self.spec_select(), self.spec_mask()),
    {
        utils::get_perm_key(
            self.get_permutation_sign(),
            self.get_permutation_select(),
            self.get_mask(),
        )
    }

    /// Orders two combinations by deviation, the smaller first.
    fn perm_cmp(&self, other: &Self) -> (o: Ordering)
        ensures
            o == key_order(self.spec_diff(), other.spec_diff()),
    {
        if self.get_diff() < other.get_diff() {
            Ordering::Less
        } else if self.get_diff() > other.get_diff() {
            Ordering::Greater
        } else {
            Ordering::Equal
        }
    }

    fn perm_partial_cmp(&self, other: &Self) -> (o: Option<Ordering>)
        ensures
            o == Some(key_order(self.spec_diff(), other.spec_diff())),
    {
        Some(self.perm_cmp(other))
    }

    fn perm_lt(&self, other: &Self) -> (b: bool)
        ensures
            b == (self.spec_diff() < other.spec_diff()),
    {
        match self.perm_partial_cmp(other) {
            Some(Ordering::Less) => true,
            _ => false,
        }
    }

    fn perm_le(&self, other: &Self) -> (b: bool)
        ensures
            b == (self.spec_diff() <= other.spec_diff()),
    {
        match self.perm_partial_cmp(other) {
            Some(Ordering::Less) => true,
            Some(Ordering::Equal) => true,
            _ => false,
        }
    }

    fn perm_gt(&self, other: &Self) -> (b: bool)
        ensures
            b == (self.spec_diff() > other.spec_diff()),
    {
        match self.perm_partial_cmp(other) {
            Some(Ordering::Greater) => true,
            _ => false,
        }
    }

    fn perm_ge(&self, other: &Self) -> (b: bool)
        ensures
            b == (self.spec_diff() >= other.spec_diff()),
    {
        match self.perm_partial_cmp(other) {
            Some(Ordering::Greater) => true,
            Some(Ordering::Equal) => true,
            _ => false,
        }
    }
}

} // verus!
