use cu_solver::combinedresult::CombinedResult;
use cu_solver::permutation::{Permutation, PermutationKey};
use cu_solver::singleresult::{SingleResult, WORST_DIFF};
use std::cmp::Ordering;

fn single(sign: u32, select: u32, diff: f64, err: f64) -> SingleResult {
    SingleResult::new(
        vec!["A".to_string(), "B".to_string(), "C".to_string()],
        sign,
        select,
        0b111,
        diff.to_bits(),
        err.to_bits(),
    )
}

#[test]
fn single_result_keeps_what_it_was_given() {
    let result = single(0b001, 0b011, 2.5, -2.5);
    assert_eq!(result.get_permutation_sign(), 0b001);
    assert_eq!(result.get_permutation_select(), 0b011);
    assert_eq!(result.get_mask(), 0b111);
    assert_eq!(f64::from_bits(result.get_diff()), 2.5);
    assert_eq!(f64::from_bits(result.get_error()), -2.5);
    assert_eq!(result.get_field_names(), ["A".to_string(), "B".to_string(), "C".to_string()]);
    assert_eq!(result.permutation_sign, 0b001);
    assert_eq!(result.permutation_select, 0b011);
    assert_eq!(result.mask, 0b111);
    assert_eq!(result.diff, 2.5f64.to_bits());
    assert_eq!(result.field_names.len(), 3);
}

#[test]
fn single_results_are_equal_by_key_not_by_deviation() {
    assert_eq!(single(0b001, 0b011, 2.5, 2.5), single(0b001, 0b011, 9.0, -9.0));
    assert_eq!(single(0b101, 0b011, 2.5, 2.5), single(0b001, 0b011, 2.5, 2.5));
    assert_ne!(single(0b001, 0b011, 2.5, 2.5), single(0b010, 0b011, 2.5, 2.5));
    assert_ne!(single(0b001, 0b011, 2.5, 2.5), single(0b001, 0b111, 2.5, 2.5));
}

#[test]
fn single_results_are_ordered_by_deviation_not_by_key() {
    let near = single(0b001, 0b011, 1.0, 1.0);
    let far = single(0b001, 0b011, 2.0, -2.0);
    let other_near = single(0b100, 0b100, 1.0, -1.0);
    assert_eq!(near.perm_cmp(&far), Ordering::Less);
    assert_eq!(far.perm_cmp(&near), Ordering::Greater);
    assert_eq!(near.perm_cmp(&other_near), Ordering::Equal);
    assert_eq!(near.perm_partial_cmp(&far), Some(Ordering::Less));
    assert_eq!(near.partial_cmp(&far), Some(Ordering::Less));
    assert_eq!(near.partial_cmp(&other_near), Some(Ordering::Equal));
    assert!(near.perm_lt(&far) && !far.perm_lt(&near) && !near.perm_lt(&other_near));
    assert!(near.perm_le(&far) && !far.perm_le(&near) && near.perm_le(&other_near));
    assert!(far.perm_gt(&near) && !near.perm_gt(&far) && !near.perm_gt(&other_near));
    assert!(far.perm_ge(&near) && !near.perm_ge(&far) && near.perm_ge(&other_near));
    assert!(near < far && near <= far && far > near && far >= near);
    assert!(near <= other_near && near >= other_near);
    assert!(!(near < other_near) && !(near > other_near));
}

#[test]
fn deviation_keys_order_as_the_deviations_do() {
    let deviations = [0.0f64, 4.5e-13, 0.15999999999939973, 1.0, 23.399999999979627, 1e300, f64::MAX];
    for pair in deviations.windows(2) {
        assert!(pair[0].to_bits() < pair[1].to_bits());
    }
}

#[test]
fn default_single_result_is_the_worst() {
    let result = SingleResult::default();
    assert_eq!(result.get_permutation_sign(), 0);
    assert_eq!(result.get_permutation_select(), 0);
    assert_eq!(result.get_mask(), 0);
    assert_eq!(result.get_field_names().len(), 0);
    assert_eq!(result.get_diff(), WORST_DIFF);
    assert_eq!(result.get_error(), WORST_DIFF);
    assert_eq!(f64::from_bits(WORST_DIFF), f64::MAX);
}

#[test]
fn combined_result_collects_deviations() {
    let mut combined = CombinedResult::new(vec!["A".to_string(), "B".to_string()], 0b01, 0b11);
    assert_eq!(combined.get_diffs().len(), 0);
    assert_eq!(combined.get_diff(), 0);
    combined.push_diff(3.0f64.to_bits());
    combined.push_diff(5.0f64.to_bits());
    assert_eq!(combined.get_diffs(), [3.0f64.to_bits(), 5.0f64.to_bits()]);
    assert_eq!(combined.get_diff(), 0);
    combined.set_mean(4.0f64.to_bits());
    assert_eq!(f64::from_bits(combined.get_diff()), 4.0);
    assert_eq!(f64::from_bits(combined.get_error()), 4.0);
    assert_eq!(combined.get_diffs().len(), 2);
    assert_eq!(combined.get_permutation_sign(), 0b01);
    assert_eq!(combined.get_permutation_select(), 0b11);
    assert_eq!(combined.get_field_names(), ["A".to_string(), "B".to_string()]);
}

#[test]
fn combined_result_takes_its_selection_for_the_full_mask() {
    let combined = CombinedResult::new(vec!["A".to_string(), "B".to_string()], 0b01, 0b11);
    assert_eq!(combined.get_mask(), 0b11);
    assert_eq!(combined.get_key(), PermutationKey(0b01, 0b10));
}

#[test]
fn combined_result_carries_the_full_mask_it_was_given() {
    let combined =
        CombinedResult::with_mask(vec!["A".to_string(), "B".to_string()], 0b01, 0b11, 0b111);
    assert_eq!(combined.get_mask(), 0b111);
    assert_eq!(combined.get_permutation_sign(), 0b01);
    assert_eq!(combined.get_permutation_select(), 0b11);
    assert_eq!(combined.get_key(), PermutationKey(0b01, 0b10));
    assert_eq!(combined.get_diffs().len(), 0);
    assert_eq!(combined.get_diff(), 0);
    let narrow = CombinedResult::with_mask(vec!["A".to_string()], 0b00, 0b11, 0b01);
    assert_eq!(narrow.get_key(), PermutationKey(0, 0b01));
}

#[test]
fn combined_results_that_subtract_different_fields_are_unequal() {
    let only_added = CombinedResult::new(Vec::new(), 0b01, 0b01);
    let also_subtracted = CombinedResult::new(Vec::new(), 0b01, 0b11);
    assert_eq!(only_added.get_key(), PermutationKey(0b01, 0b00));
    assert_eq!(also_subtracted.get_key(), PermutationKey(0b01, 0b10));
    assert_ne!(only_added, also_subtracted);
}

#[test]
fn combined_results_are_equal_by_key_and_ordered_by_mean() {
    let mut a = CombinedResult::new(vec!["A".to_string()], 0b01, 0b11);
    let mut b = CombinedResult::new(vec!["A".to_string()], 0b01, 0b11);
    let mut c = CombinedResult::new(vec!["A".to_string()], 0b10, 0b11);
    a.set_mean(1.0f64.to_bits());
    b.set_mean(2.0f64.to_bits());
    c.set_mean(1.0f64.to_bits());
    assert_eq!(a, b);
    assert_ne!(a, c);
    assert_eq!(a.perm_cmp(&b), Ordering::Less);
    assert_eq!(a.perm_cmp(&c), Ordering::Equal);
    assert_eq!(b.partial_cmp(&c), Some(Ordering::Greater));
    assert!(a < b && b > c && a <= c && a >= c);
}
