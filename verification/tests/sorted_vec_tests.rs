use cu_solver::permutation::Permutation;
use cu_solver::singleresult::SingleResult;
use cu_solver::sorted_vec::SortedVec;

fn item(id: u32, diff: u64) -> SingleResult {
    SingleResult::new(Vec::new(), 0, id, 0xff, diff, diff)
}

fn filled(limit: usize, items: &[(u32, u64)]) -> SortedVec<SingleResult> {
    let mut rank = SortedVec::new(limit);
    for (id, diff) in items {
        rank.insert_ordered(item(*id, *diff));
    }
    rank
}

fn contents(rank: &SortedVec<SingleResult>) -> Vec<(u32, u64)> {
    rank.data.iter().map(|r| (r.get_permutation_select(), r.get_diff())).collect()
}

#[test]
fn new_collection_is_empty() {
    let rank: SortedVec<SingleResult> = SortedVec::new(4);
    assert_eq!(rank.len(), 0);
    assert_eq!(rank.data.len(), 0);
    assert_eq!(rank.size_limit(), 4);
    assert!(rank.get(0).is_none());
}

#[test]
fn insert_keeps_ascending_order() {
    let rank = filled(10, &[(1, 50), (2, 10), (3, 30), (4, 20), (5, 40)]);
    assert_eq!(contents(&rank), vec![(2, 10), (4, 20), (3, 30), (5, 40), (1, 50)]);
    assert_eq!(rank.len(), 5);
    assert_eq!(rank.get(0).map(|r| r.get_diff()), Some(10));
    assert_eq!(rank.get(4).map(|r| r.get_diff()), Some(50));
    assert!(rank.get(5).is_none());
}

#[test]
fn insert_never_exceeds_capacity_and_keeps_the_best() {
    let rank = filled(3, &[(1, 50), (2, 10), (3, 30), (4, 20), (5, 40), (6, 5)]);
    assert_eq!(contents(&rank), vec![(6, 5), (2, 10), (4, 20)]);
}

#[test]
fn insert_is_sorted_and_bounded_after_every_step() {
    let diffs: [u64; 12] = [9, 3, 7, 3, 1, 8, 2, 2, 6, 0, 5, 4];
    let mut rank = SortedVec::new(5);
    for (i, diff) in diffs.iter().enumerate() {
        rank.insert_ordered(item(i as u32, *diff));
        assert!(rank.data.len() <= 5);
        assert_eq!(rank.data.len(), usize::min(i + 1, 5));
        for pair in rank.data.windows(2) {
            assert!(pair[0].get_diff() <= pair[1].get_diff());
        }
    }
    assert_eq!(contents(&rank), vec![(9, 0), (4, 1), (6, 2), (7, 2), (1, 3)]);
}

#[test]
fn equal_deviations_keep_their_order_of_arrival() {
    let rank = filled(10, &[(1, 7), (2, 7), (3, 5), (4, 7), (5, 5)]);
    assert_eq!(contents(&rank), vec![(3, 5), (5, 5), (1, 7), (2, 7), (4, 7)]);
}

#[test]
fn full_collection_rejects_what_is_not_strictly_better() {
    let mut rank = filled(3, &[(1, 10), (2, 20), (3, 30)]);
    rank.insert_ordered(item(4, 30));
    assert_eq!(contents(&rank), vec![(1, 10), (2, 20), (3, 30)]);
    rank.insert_ordered(item(5, 31));
    assert_eq!(contents(&rank), vec![(1, 10), (2, 20), (3, 30)]);
    rank.insert_ordered(item(6, 29));
    assert_eq!(contents(&rank), vec![(1, 10), (2, 20), (6, 29)]);
    rank.insert_ordered(item(7, 10));
    assert_eq!(contents(&rank), vec![(1, 10), (7, 10), (2, 20)]);
}

#[test]
fn capacity_zero_stays_empty() {
    let rank = filled(0, &[(1, 10), (2, 0), (3, 30)]);
    assert_eq!(rank.len(), 0);
    assert_eq!(rank.size_limit(), 0);
}

#[test]
fn capacity_one_keeps_the_first_best() {
    let rank = filled(1, &[(1, 10), (2, 10), (3, 30), (4, 9), (5, 9)]);
    assert_eq!(contents(&rank), vec![(4, 9)]);
}

#[test]
fn merged_takes_the_larger_capacity() {
    let left = filled(2, &[(1, 10), (2, 20)]);
    let right = filled(4, &[(3, 15), (4, 25), (5, 5)]);
    let merged = SortedVec::merged(left, right);
    assert_eq!(merged.size_limit(), 4);
    assert_eq!(contents(&merged), vec![(5, 5), (1, 10), (3, 15), (2, 20)]);
    let merged_back = SortedVec::merged(
        filled(4, &[(3, 15), (4, 25), (5, 5)]),
        filled(2, &[(1, 10), (2, 20)]),
    );
    assert_eq!(merged_back.size_limit(), 4);
}

#[test]
fn merged_with_empty_is_unchanged() {
    let merged = SortedVec::merged(filled(3, &[(1, 10), (2, 20)]), SortedVec::new(3));
    assert_eq!(contents(&merged), vec![(1, 10), (2, 20)]);
    let merged = SortedVec::merged(SortedVec::new(3), filled(3, &[(1, 10), (2, 20)]));
    assert_eq!(contents(&merged), vec![(1, 10), (2, 20)]);
    let merged: SortedVec<SingleResult> = SortedVec::merged(SortedVec::new(3), SortedVec::new(3));
    assert_eq!(merged.len(), 0);
}

#[test]
fn merged_puts_left_items_first_among_equal_deviations() {
    let merged = SortedVec::merged(filled(4, &[(1, 10), (2, 20)]), filled(4, &[(3, 10), (4, 20)]));
    assert_eq!(contents(&merged), vec![(1, 10), (3, 10), (2, 20), (4, 20)]);
    let merged = SortedVec::merged(filled(4, &[(3, 10), (4, 20)]), filled(4, &[(1, 10), (2, 20)]));
    assert_eq!(contents(&merged), vec![(3, 10), (1, 10), (4, 20), (2, 20)]);
}

#[test]
fn merged_is_commutative_without_shared_deviations() {
    let a = [(1u32, 10u64), (2, 40), (3, 70)];
    let b = [(4u32, 20u64), (5, 50), (6, 60)];
    let ab = SortedVec::merged(filled(4, &a), filled(4, &b));
    let ba = SortedVec::merged(filled(4, &b), filled(4, &a));
    assert_eq!(contents(&ab), vec![(1, 10), (4, 20), (2, 40), (5, 50)]);
    assert_eq!(contents(&ab), contents(&ba));
}

#[test]
fn merged_is_commutative_in_the_deviations_it_keeps() {
    let a = [(1u32, 10u64), (2, 20), (3, 20)];
    let b = [(4u32, 10u64), (5, 20), (6, 30)];
    let ab = SortedVec::merged(filled(4, &a), filled(4, &b));
    let ba = SortedVec::merged(filled(4, &b), filled(4, &a));
    let diffs_ab: Vec<u64> = ab.data.iter().map(|r| r.get_diff()).collect();
    let diffs_ba: Vec<u64> = ba.data.iter().map(|r| r.get_diff()).collect();
    assert_eq!(diffs_ab, vec![10, 10, 20, 20]);
    assert_eq!(diffs_ab, diffs_ba);
}

#[test]
fn merged_is_associative_under_one_capacity() {
    let a = [(1u32, 10u64), (2, 20), (3, 30)];
    let b = [(4u32, 10u64), (5, 25), (6, 30)];
    let c = [(7u32, 5u64), (8, 20), (9, 30)];
    for limit in 0usize..8 {
        let left_first = SortedVec::merged(
            SortedVec::merged(filled(limit, &a), filled(limit, &b)),
            filled(limit, &c),
        );
        let right_first = SortedVec::merged(
            filled(limit, &a),
            SortedVec::merged(filled(limit, &b), filled(limit, &c)),
        );
        assert_eq!(contents(&left_first), contents(&right_first));
        let mut all = Vec::new();
        all.extend_from_slice(&a);
        all.extend_from_slice(&b);
        all.extend_from_slice(&c);
        assert_eq!(contents(&left_first), contents(&filled(limit, &all)));
    }
    let merged = SortedVec::merged(
        SortedVec::merged(filled(5, &a), filled(5, &b)),
        filled(5, &c),
    );
    assert_eq!(contents(&merged), vec![(7, 5), (1, 10), (4, 10), (2, 20), (8, 20)]);
}
