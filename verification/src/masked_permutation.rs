use vstd::arithmetic::power2::{lemma_pow2_unfold, pow2};
use vstd::prelude::*;

verus! {

/// The number of bits set in `mask`.
pub open spec fn ones(mask: u32) -> nat
    decreases mask,
    via ones_terminates
{
    if mask == 0 {
        0
    } else {
        ones(mask >> 1) + if mask & 1 == 1 {
            1nat
        } else {
            0nat
        }
    }
}

#[via_fn]
proof fn ones_terminates(mask: u32) {
    assert(mask != 0 ==> mask >> 1 < mask) by (bit_vector);
}

/// The number of sign masks inside `mask`: two for each bit set.
pub open spec fn sign_count(mask: u32) -> nat
    decreases mask,
    via sign_count_terminates
{
    if mask == 0 {
        1
    } else if mask & 1 == 1 {
        2 * sign_count(mask >> 1)
    } else {
        sign_count(mask >> 1)
    }
}

#[via_fn]
proof fn sign_count_terminates(mask: u32) {
    assert(mask != 0 ==> mask >> 1 < mask) by (bit_vector);
}

/// The bits of `perm`, lowest first, laid on the set bits of `mask`,
/// lowest first. Positions outside `mask` stay zero.
pub open spec fn deposit(perm: u32, mask: u32) -> u32
    decreases mask,
    via deposit_terminates
{
    if mask == 0 {
        0
    } else if mask & 1 == 1 {
        (deposit(perm >> 1, mask >> 1) << 1) | (perm & 1)
    } else {
        deposit(perm, mask >> 1) << 1
    }
}

#[via_fn]
proof fn deposit_terminates(perm: u32, mask: u32) {
    assert(mask != 0 ==> mask >> 1 < mask) by (bit_vector);
}

/// The bits of `sign` at the set bits of `mask`, packed lowest first: the
/// counter value that `deposit` turns into `sign`.
pub open spec fn extract(sign: u32, mask: u32) -> u32
    decreases mask,
    via extract_terminates
{
    if mask == 0 {
        0
    } else if mask & 1 == 1 {
        (extract(sign >> 1, mask >> 1) << 1) | (sign & 1)
    } else {
        extract(sign >> 1, mask >> 1)
    }
}

#[via_fn]
proof fn extract_terminates(sign: u32, mask: u32) {
    assert(mask != 0 ==> mask >> 1 < mask) by (bit_vector);
}

proof fn lemma_shift_decreases(mask: u32)
    requires
        mask != 0,
    ensures
        mask >> 1 < mask,
        mask >> 1 <= 0x7fff_ffff,
{
    assert(mask != 0 ==> mask >> 1 < mask && mask >> 1 <= 0x7fff_ffff) by (bit_vector);
}

/// There are two to the number of set bits sign masks inside a mask.
pub proof fn lemma_sign_count_is_pow2(mask: u32)
    ensures
        sign_count(mask) == pow2(ones(mask)),
    decreases mask,
{
    if mask == 0 {
        assert(pow2(0) == 1) by {
            vstd::arithmetic::power2::lemma2_to64();
        }
    } else {
        lemma_shift_decreases(mask);
        lemma_sign_count_is_pow2(mask >> 1);
        if mask & 1 == 1 {
            lemma_pow2_unfold(ones(mask));
        }
    }
}

/// A mask of 32 bits holds at most two to the 32 sign masks.
pub proof fn lemma_sign_count_bounds(mask: u32)
    ensures
        1 <= sign_count(mask) <= 0x1_0000_0000,
        mask <= 0x7fff_ffff ==> sign_count(mask) <= 0x8000_0000,
{
    lemma_sign_count_below(mask, 32);
    if mask <= 0x7fff_ffff {
        assert(mask <= 0x7fff_ffff ==> mask >> 31 == 0) by (bit_vector);
        lemma_sign_count_below(mask, 31);
    }
    vstd::arithmetic::power2::lemma2_to64();
}

proof fn lemma_sign_count_below(mask: u32, width: u32)
    requires
        width <= 32,
        width < 32 ==> mask >> width == 0,
    ensures
        1 <= sign_count(mask) <= pow2(width as nat),
    decreases mask,
{
    vstd::arithmetic::power2::lemma_pow2_pos(width as nat);
    if mask != 0 {
        lemma_shift_decreases(mask);
        assert(width > 0) by {
            assert(mask >> 0 == mask) by (bit_vector);
        }
        let w = (width - 1) as u32;
        assert(w < 32 ==> (mask >> 1) >> w == 0) by {
            if width < 32 {
                assert(mask >> width == 0 && width >= 1 && w == width - 1 ==> (mask >> 1) >> w
                    == 0) by (bit_vector);
            } else {
                assert(w == 31 ==> (mask >> 1) >> w == 0) by (bit_vector);
            }
        }
        lemma_sign_count_below(mask >> 1, w);
        lemma_pow2_unfold(width as nat);
    }
}

/// Every generated sign mask lies inside the selection.
pub proof fn lemma_deposit_inside_mask(perm: u32, mask: u32)
    ensures
        deposit(perm, mask) & !mask == 0,
    decreases mask,
{
    if mask != 0 {
        lemma_shift_decreases(mask);
        let half = mask >> 1;
        if mask & 1 == 1 {
            let d = deposit(perm >> 1, half);
            lemma_deposit_inside_mask(perm >> 1, half);
            assert(((d << 1) | (perm & 1)) & !mask == 0) by (bit_vector)
                requires
                    d & !half == 0,
                    half == mask >> 1,
                    mask & 1 == 1,
            ;
        } else {
            let d = deposit(perm, half);
            lemma_deposit_inside_mask(perm, half);
            assert((d << 1) & !mask == 0) by (bit_vector)
                requires
                    d & !half == 0,
                    half == mask >> 1,
            ;
        }
    } else {
        assert(0u32 & !0u32 == 0) by (bit_vector);
    }
}

/// Below the sign count, the counter can be read back from the sign mask
/// it gave.
pub proof fn lemma_extract_deposit(perm: u32, mask: u32)
    requires
        perm < sign_count(mask),
    ensures
        extract(deposit(perm, mask), mask) == perm,
    decreases mask,
{
    if mask != 0 {
        lemma_shift_decreases(mask);
        let half = mask >> 1;
        if mask & 1 == 1 {
            let d = deposit(perm >> 1, half);
            assert(perm >> 1 == perm / 2) by (bit_vector);
            lemma_extract_deposit(perm >> 1, half);
            lemma_deposit_inside_mask(perm >> 1, half);
            let v = (d << 1) | (perm & 1);
            assert(v >> 1 == d && v & 1 == perm & 1) by (bit_vector)
                requires
                    v == (d << 1) | (perm & 1),
                    d & !half == 0,
                    half <= 0x7fff_ffff,
            ;
            let p = perm >> 1;
            assert((p << 1) | (perm & 1) == perm) by (bit_vector)
                requires
                    p == perm >> 1,
            ;
        } else {
            let d = deposit(perm, half);
            lemma_extract_deposit(perm, half);
            lemma_deposit_inside_mask(perm, half);
            assert((d << 1) >> 1 == d) by (bit_vector)
                requires
                    d & !half == 0,
                    half <= 0x7fff_ffff,
            ;
        }
    }
}

/// Every sign mask inside the selection is generated: its counter lies
/// below the sign count and gives it back.
pub proof fn lemma_deposit_extract(sign: u32, mask: u32)
    requires
        sign & !mask == 0,
    ensures
        extract(sign, mask) < sign_count(mask),
        deposit(extract(sign, mask), mask) == sign,
    decreases mask,
{
    if mask != 0 {
        lemma_shift_decreases(mask);
        let half = mask >> 1;
        let rest = sign >> 1;
        assert(rest & !half == 0) by (bit_vector)
            requires
                sign & !mask == 0,
                half == mask >> 1,
                rest == sign >> 1,
        ;
        lemma_deposit_extract(rest, half);
        lemma_sign_count_bounds(half);
        let e = extract(rest, half);
        if mask & 1 == 1 {
            let c = (e << 1) | (sign & 1);
            assert(c >> 1 == e && c & 1 == sign & 1 && c == 2 * e + (sign & 1)) by (bit_vector)
                requires
                    c == (e << 1) | (sign & 1),
                    e < 0x8000_0000u32,
            ;
            assert(sign & 1 <= 1) by (bit_vector);
            assert((rest << 1) | (sign & 1) == sign) by (bit_vector)
                requires
                    rest == sign >> 1,
            ;
        } else {
            assert((rest << 1) == sign) by (bit_vector)
                requires
                    rest == sign >> 1,
                    sign & !mask == 0,
                    mask & 1 != 1,
            ;
        }
    } else {
        assert(sign & !0u32 == 0 ==> sign == 0) by (bit_vector);
    }
}

/// Different counters below the sign count give different sign masks.
pub proof fn lemma_deposit_injective(perm_a: u32, perm_b: u32, mask: u32)
    requires
        perm_a < sign_count(mask),
        perm_b < sign_count(mask),
        perm_a != perm_b,
    ensures
        deposit(perm_a, mask) != deposit(perm_b, mask),
{
    lemma_extract_deposit(perm_a, mask);
    lemma_extract_deposit(perm_b, mask);
}

/// The sign masks inside `mask`, in the order they are generated.
pub open spec fn sign_masks(mask: u32) -> Seq<u32> {
    Seq::new(sign_count(mask), |c: int| deposit(c as u32, mask))
}

/// A selection with `p` bits set has two to the `p` sign masks: all
/// inside the selection, no two the same, and none inside the selection
/// missing.
pub proof fn lemma_sign_masks(mask: u32)
    ensures
        sign_masks(mask).len() == pow2(ones(mask)),
        forall|i: int|
            0 <= i < sign_masks(mask).len() ==> #[trigger] sign_masks(mask)[i] & !mask == 0,
        forall|i: int, j: int|
            0 <= i < j < sign_masks(mask).len() ==> sign_masks(mask)[i] != sign_masks(mask)[j],
        forall|sign: u32| sign & !mask == 0 ==> #[trigger] sign_masks(mask).contains(sign),
{
    lemma_sign_count_is_pow2(mask);
    lemma_sign_count_bounds(mask);
    assert forall|i: int| 0 <= i < sign_masks(mask).len() implies #[trigger] sign_masks(mask)[i]
        & !mask == 0 by {
        lemma_deposit_inside_mask(i as u32, mask);
    }
    assert forall|i: int, j: int| 0 <= i < j < sign_masks(mask).len() implies sign_masks(mask)[i]
        != sign_masks(mask)[j] by {
        lemma_deposit_injective(i as u32, j as u32, mask);
    }
    assert forall|sign: u32| sign & !mask == 0 implies #[trigger] sign_masks(mask).contains(
        sign,
    ) by {
        lemma_deposit_extract(sign, mask);
        assert(sign_masks(mask)[extract(sign, mask) as int] == sign);
    }
}

/// `x` moved up by `pos` places; nothing is left of it from place 32 on.
spec fn raised(x: u32, pos: u32) -> u32 {
    if pos < 32 {
        x << pos
    } else {
        0
    }
}

/// Lays the low bits of `perm` on the set bits of `mask`, lowest first.
pub fn map_to_mask(perm: u32, mask: u32) -> (ret: u32)
    ensures
        ret == deposit(perm, mask),
{
    let ghost perm0 = perm;
    let ghost mask0 = mask;
    let mut perm = perm;
    let mut mask = mask;
    let mut ret: u32 = 0;
    let mut pos: u32 = 0;
    let ghost whole = deposit(perm, mask);
    assert(0u32 | (whole << 0u32) == whole) by (bit_vector);
    assert(mask <= 0xffff_ffffu32 >> 0u32) by (bit_vector);
    while mask != 0
        invariant
            pos <= 32,
            pos == 32 ==> mask == 0,
            pos < 32 ==> mask <= 0xffff_ffffu32 >> pos,
            deposit(perm0, mask0) == ret | raised(deposit(perm, mask), pos),
        decreases mask,
    {
        let ghost d = deposit(perm, mask);
        let ghost half = mask >> 1;
        let ghost next_pos = (pos + 1) as u32;
        proof {
            lemma_shift_decreases(mask);
            assert(pos < 31 ==> half <= 0xffff_ffffu32 >> next_pos) by (bit_vector)
                requires
                    pos < 32,
                    mask <= 0xffff_ffffu32 >> pos,
                    half == mask >> 1,
                    next_pos == pos + 1,
            ;
            assert(pos == 31 ==> mask == 1 && half == 0) by (bit_vector)
                requires
                    mask != 0,
                    pos < 32,
                    mask <= 0xffff_ffffu32 >> pos,
                    half == mask >> 1,
            ;
            assert(1u32 & 1 == 1) by (bit_vector);
        }
        if mask & 1 == 1 {
            let bit = perm & 1;
            proof {
                let up = deposit(perm >> 1, half);
                assert(d == (up << 1) | bit);
                if pos < 31 {
                    assert(ret | (((up << 1) | bit) << pos) == (ret | (bit << pos)) | (up
                        << next_pos)) by (bit_vector)
                        requires
                            pos < 31,
                            next_pos == pos + 1,
                    ;
                } else {
                    assert(up == 0);
                    assert(ret | (((0u32 << 1) | bit) << pos) == (ret | (bit << pos)) | 0)
                        by (bit_vector);
                }
            }
            ret |= bit << pos;
            perm >>= 1;
        } else {
            proof {
                let up = deposit(perm, half);
                assert(d == up << 1);
                assert(ret | ((up << 1) << pos) == ret | (up << next_pos)) by (bit_vector)
                    requires
                        pos < 31,
                        next_pos == pos + 1,
                ;
            }
        }
        mask >>= 1;
        pos += 1;
    }
    assert(ret | 0u32 == ret) by (bit_vector);
    assert(pos < 32 ==> 0u32 << pos == 0) by (bit_vector);
    ret
}

/// Counts the sign masks inside `mask`.
fn count_signs(mask: u32) -> (count: u64)
    ensures
        count == sign_count(mask),
{
    let mut rest = mask;
    let mut count: u64 = 1;
    let mut seen: u32 = 0;
    assert(rest <= 0xffff_ffffu32 >> 0u32) by (bit_vector);
    proof {
        vstd::arithmetic::power2::lemma2_to64();
    }
    while rest != 0
        invariant
            seen <= 32,
            seen == 32 ==> rest == 0,
            seen < 32 ==> rest <= 0xffff_ffffu32 >> seen,
            count <= pow2(seen as nat),
            count * sign_count(rest) == sign_count(mask),
        decreases rest,
    {
        let ghost half = rest >> 1;
        proof {
            lemma_shift_decreases(rest);
            lemma_pow2_unfold((seen + 1) as nat);
            vstd::arithmetic::power2::lemma_pow2_strictly_increases(seen as nat, 32);
            vstd::arithmetic::power2::lemma2_to64();
            let next_seen = (seen + 1) as u32;
            assert(seen < 31 ==> half <= 0xffff_ffffu32 >> next_seen) by (bit_vector)
                requires
                    seen < 32,
                    rest <= 0xffff_ffffu32 >> seen,
                    half == rest >> 1,
                    next_seen == seen + 1,
            ;
            assert(seen == 31 ==> half == 0) by (bit_vector)
                requires
                    seen < 32,
                    rest <= 0xffff_ffffu32 >> seen,
                    half == rest >> 1,
            ;
            if rest & 1 == 1 {
                assert(count * (2 * sign_count(half)) == (2 * count) * sign_count(half))
                    by (nonlinear_arith);
            }
        }
        if rest & 1 == 1 {
            count = 2 * count;
        }
        rest >>= 1;
        seen += 1;
    }
    assert(count * sign_count(rest) == count) by (nonlinear_arith)
        requires
            sign_count(rest) == 1,
    ;
    count
}

/// Generates the sign masks inside a selection mask, each once: the
/// counter values 0, 1, 2, ... laid on the set bits of the mask.
pub struct MaskedPermutation {
    mask: u32,
    start: u64,
    upper: u64,
}

impl MaskedPermutation {
    #[verifier::type_invariant]
    spec fn inv(self) -> bool {
        &&& self.upper == sign_count(self.mask)
        &&& self.start <= self.upper
    }

    /// The selection mask whose sign masks are generated.
    pub closed spec fn spec_mask(&self) -> u32 {
        self.mask
    }

    /// How many sign masks have been generated so far.
    pub closed spec fn spec_position(&self) -> nat {
        self.start as nat
    }

    /// A generator at the start of the sign masks inside `mask`.
    pub fn new(mask: u32) -> (g: Self)
        ensures
            g.spec_mask() == mask,
            g.spec_position() == 0,
    {
        MaskedPermutation { mask, start: 0, upper: count_signs(mask) }
    }

    /// The next sign mask, or `None` once every sign mask inside the
    /// selection has been generated.
    pub fn next(&mut self) -> (sign: Option<u32>)
        ensures
            final(self).spec_mask() == old(self).spec_mask(),
            old(self).spec_position() <= sign_count(old(self).spec_mask()),
            match sign {
                Some(s) => {
                    &&& old(self).spec_position() < sign_count(old(self).spec_mask())
                    &&& s == deposit(old(self).spec_position() as u32, old(self).spec_mask())
                    &&& final(self).spec_position() == old(self).spec_position() + 1
                },
                None => {
                    &&& old(self).spec_position() == sign_count(old(self).spec_mask())
                    &&& final(self).spec_position() == old(self).spec_position()
                },
            },
    {
        proof {
            use_type_invariant(&*self);
            lemma_sign_count_bounds(self.mask);
        }
        if self.start >= self.upper {
            return None;
        }
        let result = Some(map_to_mask(self.start as u32, self.mask));
        self.start += 1;
        result
    }
}

impl From<u32> for MaskedPermutation {
    fn from(mask: u32) -> (g: Self)
        ensures
            g.spec_mask() == mask,
            g.spec_position() == 0,
    {
        MaskedPermutation { mask, start: 0, upper: count_signs(mask) }
    }
}

impl vstd::std_specs::convert::FromSpecImpl<u32> for MaskedPermutation {
    open spec fn obeys_from_spec() -> bool {
        true
    }

    closed spec fn from_spec(mask: u32) -> Self {
        MaskedPermutation { mask, start: 0, upper: sign_count(mask) as u64 }
    }
}

} // verus!
