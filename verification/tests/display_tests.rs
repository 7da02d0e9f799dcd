use cu_solver::combinedresult::CombinedResult;
use cu_solver::display::{describe, pretty_formula, reversed_binary};
use cu_solver::permutation::Permutation;
use cu_solver::singleresult::SingleResult;

fn names(list: &[&str]) -> Vec<String> {
    list.iter().map(|s| s.to_string()).collect()
}

#[test]
fn binary_is_written_lowest_bit_first() {
    assert_eq!(reversed_binary(0), "0");
    assert_eq!(reversed_binary(1), "1");
    assert_eq!(reversed_binary(2), "01");
    assert_eq!(reversed_binary(6), "011");
    assert_eq!(reversed_binary(0b100111), "111001");
    assert_eq!(reversed_binary(0b1100111), "1110011");
    assert_eq!(reversed_binary(0x8000_0000), format!("{}1", "0".repeat(31)));
    assert_eq!(reversed_binary(0xffff_ffff), "1".repeat(32));
}

#[test]
fn binary_matches_the_reversed_standard_form() {
    for value in [0u32, 1, 5, 10, 255, 256, 0b1010111110, 123_456_789, u32::MAX] {
        let expected: String = format!("{:b}", value).chars().rev().collect();
        assert_eq!(reversed_binary(value), expected);
    }
}

#[test]
fn formula_lists_selected_fields_with_their_signs() {
    let fields = names(&["AAAAA", "BBBBB", "CCCCC", "DDDDD"]);
    assert_eq!(pretty_formula(&fields, 0b0101, 0b0111), " + AAAAA - BBBBB + CCCCC");
    assert_eq!(pretty_formula(&fields, 0b0000, 0b1000), " - DDDDD");
    assert_eq!(pretty_formula(&fields, 0b1111, 0b1111), " + AAAAA + BBBBB + CCCCC + DDDDD");
    assert_eq!(pretty_formula(&fields, 0b1111, 0), "");
    assert_eq!(pretty_formula(&[], 0b1, 0b1), "");
}

#[test]
fn formula_ignores_bits_beyond_the_fields() {
    let fields = names(&["A", "B"]);
    assert_eq!(pretty_formula(&fields, 0b110, 0b111), " - A + B");
}

#[test]
fn formula_handles_more_fields_than_bits() {
    let many: Vec<String> = (0..40).map(|i| format!("F{}", i)).collect();
    assert_eq!(pretty_formula(&many, 0x8000_0000, 0x8000_0001), " - F0 + F31");
}

#[test]
fn description_has_two_lines() {
    let fields = names(&["AAAAA", "BBBBB", "CCCCC"]);
    assert_eq!(
        describe(&fields, 0b001, 0b011, "-2.5"),
        "permutation_sign: 1, permutation_select: 11, error: -2.5\n        pretty formula: + AAAAA - BBBBB\n"
    );
}

#[test]
fn single_result_describes_itself() {
    let err: f64 = -25.62999999998283;
    let result = SingleResult::new(
        names(&["AAAAA", "BBBBB", "CCCCC", "DDDDD", "EEEEE", "FFFFF", "ADDED"]),
        0b1100111,
        0b1111111,
        0b1111111,
        err.abs().to_bits(),
        err.to_bits(),
    );
    let text = result.fmt_display(&format!("{}", f64::from_bits(result.get_error())));
    assert_eq!(
        text,
        "permutation_sign: 1110011, permutation_select: 1111111, error: -25.62999999998283\n        pretty formula: + AAAAA + BBBBB + CCCCC - DDDDD - EEEEE + FFFFF + ADDED\n"
    );
}

#[test]
fn combined_result_describes_itself() {
    let mut combined = CombinedResult::new(names(&["A", "B"]), 0b10, 0b10);
    combined.set_mean(1.5f64.to_bits());
    let text = combined.fmt_display(&format!("{}", f64::from_bits(combined.get_error())));
    assert_eq!(
        text,
        "permutation_sign: 01, permutation_select: 01, error: 1.5\n        pretty formula: + B\n"
    );
}
