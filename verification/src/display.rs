//! The text of a combination: its masks as binary digits, lowest bit
//! first, and the formula that its fields make.

use vstd::prelude::*;
use vstd::string::StringExecFns;

verus! {

/// The digit of a bit.
pub open spec fn digit(bit: u32) -> char {
    if bit == 0 {
        '0'
    } else {
        '1'
    }
}

/// The binary digits of `value`, lowest bit first, down to its highest
/// set bit; a single `0` for zero. The first digit stands for the first
/// field.
pub open spec fn binary_lowest_first(value: u32) -> Seq<char>
    decreases value,
{
    if value < 2 {
        seq![digit(value)]
    } else {
        seq![digit(value % 2)] + binary_lowest_first(value / 2)
    }
}

/// What one field adds to the formula: nothing where it is not
/// selected, else its sign and its name.
pub open spec fn term(name: Seq<char>, sign: u32, select: u32) -> Seq<char> {
    if select % 2 == 0 {
        Seq::empty()
    } else if sign % 2 == 1 {
        " + "@ + name
    } else {
        " - "@ + name
    }
}

/// The formula of a combination: the terms of its fields in their
/// order, the lowest bits of `sign` and `select` standing for the first
/// field.
pub open spec fn formula(names: Seq<String>, sign: u32, select: u32) -> Seq<char>
    decreases names.len(),
{
    if names.len() == 0 {
        Seq::empty()
    } else {
        term(names[0]@, sign, select) + formula(names.drop_first(), sign / 2, select / 2)
    }
}

/// The two lines that describe a combination, `error_text` being its
/// signed deviation as the caller writes it.
pub open spec fn display_text(
    names: Seq<String>,
    sign: u32,
    select: u32,
    error_text: Seq<char>,
) -> Seq<char> {
    "permutation_sign: "@ + binary_lowest_first(sign) + ", permutation_select: "@
        + binary_lowest_first(select) + ", error: "@ + error_text + "\n"@
        + "        pretty formula:"@ + formula(names, sign, select) + "\n"@
}

/// Writes `value` in binary digits, lowest bit first.
pub fn reversed_binary(value: u32) -> (text: String)
    ensures
        text@ == binary_lowest_first(value),
{
    let mut text = String::new();
    let mut rest = value;
    proof {
        reveal_strlit("0");
        reveal_strlit("1");
        assert(text@ + binary_lowest_first(rest) =~= binary_lowest_first(value));
    }
    while rest >= 2
        invariant
            text@ + binary_lowest_first(rest) == binary_lowest_first(value),
            "0"@ == seq!['0'],
            "1"@ == seq!['1'],
        decreases rest,
    {
        let ghost before = text@;
        if rest % 2 == 1 {
            text.append("1");
        } else {
            text.append("0");
        }
        proof {
            assert(text@ + binary_lowest_first(rest / 2) =~= before + binary_lowest_first(rest));
        }
        rest = rest / 2;
    }
    let ghost before = text@;
    if rest == 1 {
        text.append("1");
    } else {
        text.append("0");
    }
    assert(text@ =~= before + binary_lowest_first(rest));
    text
}

/// Writes the formula of a combination.
pub fn pretty_formula(names: &[String], sign: u32, select: u32) -> (text: String)
    ensures
        text@ == formula(names@, sign, select),
{
    let mut text = String::new();
    let mut sign_rest = sign;
    let mut select_rest = select;
    let mut i: usize = 0;
    proof {
        assert(names@.skip(0) =~= names@);
        assert(text@ + formula(names@, sign, select) =~= formula(names@, sign, select));
    }
    while i < names.len()
        invariant
            i <= names@.len(),
            text@ + formula(names@.skip(i as int), sign_rest, select_rest) == formula(
                names@,
                sign,
                select,
            ),
        decreases names@.len() - i,
    {
        let ghost before = text@;
        let ghost tail = names@.skip(i as int);
        let curr_sele = select_rest % 2;
        let curr_sign = sign_rest % 2;
        if curr_sele != 0 {
            if curr_sign == 1 {
                text.append(" + ");
            } else {
                text.append(" - ");
            }
            text.append(names[i].as_str());
        }
        proof {
            assert(tail[0] == names@[i as int]);
            assert(tail.drop_first() =~= names@.skip(i + 1));
            assert(text@ =~= before + term(names@[i as int]@, sign_rest, select_rest));
            assert(text@ + formula(names@.skip(i + 1), sign_rest / 2, select_rest / 2) =~= before
                + formula(tail, sign_rest, select_rest));
        }
        sign_rest = sign_rest / 2;
        select_rest = select_rest / 2;
        i += 1;
    }
    assert(text@ + Seq::<char>::empty() =~= text@);
    text
}

/// Writes the two lines that describe a combination.
pub fn describe(names: &[String], sign: u32, select: u32, error_text: &str) -> (text: String)
    ensures
        text@ == display_text(names@, sign, select, error_text@),
{
    let mut text = String::new();
    text.append("permutation_sign: ");
    text.append(reversed_binary(sign).as_str());
    text.append(", permutation_select: ");
    text.append(reversed_binary(select).as_str());
    text.append(", error: ");
    text.append(error_text);
    text.append("\n");
    text.append("        pretty formula:");
    text.append(pretty_formula(names, sign, select).as_str());
    text.append("\n");
    assert(text@ =~= display_text(names@, sign, select, error_text@));
    text
}

} // verus!
