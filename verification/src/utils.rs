use crate::permutation::PermutationKey;
use vstd::prelude::*;

verus! {

/// The fields that a combination adds: selected, with the sign bit set.
pub open spec fn positive_bits(p_sign: u32, p_select: u32) -> u32 {
    p_sign & p_select
}

/// The fields that a combination subtracts: selected, inside the full
/// mask, with the sign bit clear.
pub open spec fn negative_bits(p_sign: u32, p_select: u32, mask: u32) -> u32 {
    (!p_sign & mask) & p_select
}

/// The canonical key of a combination, as a value of the model.
pub open spec fn perm_key(p_sign: u32, p_select: u32, mask: u32) -> PermutationKey {
    PermutationKey(positive_bits(p_sign, p_select), negative_bits(p_sign, p_select, mask))
}

/// Maps a sign mask, a selection mask and the mask of all fields to the
/// canonical key of the combination.
pub fn get_perm_key(p_sign: u32, p_select: u32, mask: u32) -> (key: PermutationKey)
    ensures
        key == perm_key(p_sign, p_select, mask),
{
    let positive_sign_mask = p_sign & p_select;
    let negative_sign_mask = (!p_sign & mask) & p_select;
    PermutationKey(positive_sign_mask, negative_sign_mask)
}

/// The key does not depend on sign bits outside the selection: two sign
/// masks that agree on the selected positions give the same key.
pub proof fn lemma_key_ignores_unselected_sign_bits(
    sign_a: u32,
    sign_b: u32,
    p_select: u32,
    mask: u32,
)
    requires
        sign_a & p_select == sign_b & p_select,
    ensures
        perm_key(sign_a, p_select, mask) == perm_key(sign_b, p_select, mask),
{
    assert((!sign_a & mask) & p_select == (!sign_b & mask) & p_select) by (bit_vector)
        requires
            sign_a & p_select == sign_b & p_select,
    ;
}

/// Inside the full mask the key is an identity: two combinations have the
/// same key exactly when they select the same fields and give every
/// selected field the same sign.
pub proof fn lemma_key_identifies_combination(
    sign_a: u32,
    select_a: u32,
    sign_b: u32,
    select_b: u32,
    mask: u32,
)
    requires
        select_a & !mask == 0,
        select_b & !mask == 0,
    ensures
        perm_key(sign_a, select_a, mask) == perm_key(sign_b, select_b, mask) <==> (select_a
            == select_b && sign_a & select_a == sign_b & select_b),
{
    assert(((sign_a & select_a == sign_b & select_b) && ((!sign_a & mask) & select_a == (!sign_b
        & mask) & select_b)) <==> (select_a == select_b && sign_a & select_a == sign_b
        & select_b)) by (bit_vector)
        requires
            select_a & !mask == 0,
            select_b & !mask == 0,
    ;
}

/// The two halves of a key never overlap, and inside the full mask they
/// make up the selection.
pub proof fn lemma_key_splits_selection(p_sign: u32, p_select: u32, mask: u32)
    ensures
        positive_bits(p_sign, p_select) & negative_bits(p_sign, p_select, mask) == 0,
        p_select & !mask == 0 ==> positive_bits(p_sign, p_select) | negative_bits(
            p_sign,
            p_select,
            mask,
        ) == p_select,
{
    assert((p_sign & p_select) & ((!p_sign & mask) & p_select) == 0) by (bit_vector);
    assert(p_select & !mask == 0 ==> (p_sign & p_select) | ((!p_sign & mask) & p_select)
        == p_select) by (bit_vector);
}

/// Whether bit `index` of `bits` is set; no bit stands at 32 or above.
pub open spec fn bit_at(bits: u32, index: nat) -> bool {
    index < 32 && (bits >> (index as u32)) & 1 == 1
}

/// How a field enters the sum of a combination: 1 where it is added, -1
/// where it is subtracted, 0 where it is not selected.
pub open spec fn spec_field_sign(p_sign: u32, p_select: u32, field: nat) -> int {
    if !bit_at(p_select, field) {
        0
    } else if bit_at(p_sign, field) {
        1
    } else {
        -1
    }
}

/// Tells how the field with index `field` enters the sum of a
/// combination: 1 where it is added, -1 where it is subtracted, 0 where
/// it is not selected.
pub fn field_sign(p_sign: u32, p_select: u32, field: usize) -> (weight: i8)
    ensures
        weight == spec_field_sign(p_sign, p_select, field as nat),
{
    if field >= 32 {
        return 0;
    }
    let index = field as u32;
    if (p_select >> index) & 1 != 1 {
        0
    } else if (p_sign >> index) & 1 == 1 {
        1
    } else {
        -1
    }
}

/// The key says how every field inside the full mask enters the sum:
/// the fields it adds, the fields it subtracts, and no others. So two
/// combinations of one key sum the same fields with the same signs.
pub proof fn lemma_key_decides_field_signs(p_sign: u32, p_select: u32, mask: u32, field: nat)
    requires
        p_select & !mask == 0,
    ensures
        bit_at(positive_bits(p_sign, p_select), field) <==> spec_field_sign(
            p_sign,
            p_select,
            field,
        ) == 1,
        bit_at(negative_bits(p_sign, p_select, mask), field) <==> spec_field_sign(
            p_sign,
            p_select,
            field,
        ) == -1,
{
    if field < 32 {
        let i = field as u32;
        assert(((p_sign & p_select) >> i) & 1 == 1 <==> ((p_select >> i) & 1 == 1 && (p_sign >> i)
            & 1 == 1)) by (bit_vector)
            requires
                i < 32,
        ;
        assert((((!p_sign & mask) & p_select) >> i) & 1 == 1 <==> ((p_select >> i) & 1 == 1 && (
        p_sign >> i) & 1 != 1)) by (bit_vector)
            requires
                i < 32,
                p_select & !mask == 0,
        ;
    }
}

} // verus!
