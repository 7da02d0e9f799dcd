use cu_solver::masked_permutation::{map_to_mask, MaskedPermutation};

fn collect(mask: u32) -> Vec<u32> {
    let mut generator = MaskedPermutation::new(mask);
    let mut out = Vec::new();
    while let Some(sign) = generator.next() {
        out.push(sign);
    }
    out
}

#[test]
fn generates_the_sign_masks_of_a_sparse_selection() {
    assert_eq!(collect(0b101), vec![0b000, 0b001, 0b100, 0b101]);
}

#[test]
fn generates_the_sign_masks_of_a_dense_selection() {
    assert_eq!(collect(0b111), vec![0, 1, 2, 3, 4, 5, 6, 7]);
}

#[test]
fn generates_one_sign_mask_for_the_empty_selection() {
    assert_eq!(collect(0), vec![0]);
}

#[test]
fn generates_two_sign_masks_for_the_highest_bit() {
    assert_eq!(collect(0x8000_0000), vec![0, 0x8000_0000]);
}

#[test]
fn stays_exhausted_once_it_is() {
    let mut generator = MaskedPermutation::new(0b10);
    assert_eq!(generator.next(), Some(0));
    assert_eq!(generator.next(), Some(0b10));
    assert_eq!(generator.next(), None);
    assert_eq!(generator.next(), None);
}

#[test]
fn from_starts_like_new() {
    let mut generator = MaskedPermutation::from(0b1100);
    assert_eq!(generator.next(), Some(0));
    assert_eq!(generator.next(), Some(0b0100));
    assert_eq!(generator.next(), Some(0b1000));
    assert_eq!(generator.next(), Some(0b1100));
    assert_eq!(generator.next(), None);
}

#[test]
fn yields_two_to_the_bits_distinct_masks_inside_the_selection() {
    let masks: [u32; 6] = [0b1, 0b1010, 0b1111_0000, 0x8000_0001, 0b1011_0110_1001, 0x0001_5555];
    for mask in masks {
        let signs = collect(mask);
        assert_eq!(signs.len(), 1usize << mask.count_ones());
        for sign in &signs {
            assert_eq!(sign & !mask, 0);
        }
        let mut sorted = signs.clone();
        sorted.sort();
        sorted.dedup();
        assert_eq!(sorted.len(), signs.len());
    }
}

#[test]
fn yields_every_mask_inside_the_selection() {
    let mask: u32 = 0b1101_0010;
    let signs = collect(mask);
    for candidate in 0u32..=0xff {
        assert_eq!(signs.contains(&candidate), candidate & !mask == 0);
    }
}

#[test]
fn maps_counter_bits_onto_mask_bits() {
    assert_eq!(map_to_mask(0b11, 0b1010), 0b1010);
    assert_eq!(map_to_mask(0b01, 0b1010), 0b0010);
    assert_eq!(map_to_mask(0b10, 0b1010), 0b1000);
    assert_eq!(map_to_mask(0b101, 0b0111_0000), 0b0101_0000);
    assert_eq!(map_to_mask(0, 0xffff_ffff), 0);
    assert_eq!(map_to_mask(0xdead_beef, 0xffff_ffff), 0xdead_beef);
    assert_eq!(map_to_mask(0b1, 0x8000_0000), 0x8000_0000);
    assert_eq!(map_to_mask(0xffff_ffff, 0), 0);
}

#[test]
fn ignores_counter_bits_beyond_the_selection() {
    assert_eq!(map_to_mask(0b111, 0b11), 0b11);
    assert_eq!(map_to_mask(0b100, 0b11), 0);
}

#[test]
fn walks_the_full_mask_in_counting_order() {
    let mut generator = MaskedPermutation::new(0xffff_ffff);
    for expected in 0u32..1000 {
        assert_eq!(generator.next(), Some(expected));
    }
}
