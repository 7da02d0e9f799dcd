use cu_solver::permutation::Permutation;
use cu_solver::reduce::{merge_all, merge_parts};
use cu_solver::search::{split_range, PermutationSearch};
use cu_solver::singleresult::SingleResult;
use cu_solver::sorted_vec::SortedVec;

fn filled(limit: usize, items: &[(u32, u64)]) -> SortedVec<SingleResult> {
    let mut rank = SortedVec::new(limit);
    for (id, diff) in items {
        rank.insert_ordered(SingleResult::new(Vec::new(), 0, *id, 0xff, *diff, *diff));
    }
    rank
}

fn contents(rank: &SortedVec<SingleResult>) -> Vec<(u32, u64)> {
    rank.data.iter().map(|r| (r.get_permutation_select(), r.get_diff())).collect()
}

#[test]
fn merging_no_parts_gives_nothing() {
    assert!(merge_all(Vec::new()).is_none());
}

#[test]
fn merging_one_part_gives_it_back() {
    let merged = merge_all(vec![filled(3, &[(1, 10), (2, 20)])]).unwrap();
    assert_eq!(contents(&merged), vec![(1, 10), (2, 20)]);
    assert_eq!(merged.size_limit(), 3);
}

#[test]
fn merging_parts_ranks_all_their_items() {
    let parts = vec![
        filled(4, &[(1, 10), (2, 40), (3, 70)]),
        filled(4, &[(4, 10), (5, 50)]),
        filled(4, &[]),
        filled(4, &[(6, 5), (7, 40), (8, 41), (9, 42)]),
        filled(4, &[(10, 10)]),
    ];
    let merged = merge_all(parts).unwrap();
    assert_eq!(contents(&merged), vec![(6, 5), (1, 10), (4, 10), (10, 10)]);
    assert_eq!(merged.size_limit(), 4);
}

#[test]
fn merging_many_parts_is_the_same_as_merging_them_in_turn() {
    for limit in [1usize, 3, 10, 64] {
        let mut parts = Vec::new();
        let mut in_turn = SortedVec::new(limit);
        for part in 0u32..200 {
            let items: Vec<(u32, u64)> =
                (0u32..7).map(|i| (part * 7 + i, ((part * 31 + i * 17) % 23) as u64)).collect();
            parts.push(filled(limit, &items));
            in_turn = SortedVec::merged(in_turn, filled(limit, &items));
        }
        let merged = merge_all(parts).unwrap();
        assert_eq!(contents(&merged), contents(&in_turn));
    }
}

#[test]
fn merged_parts_of_a_search_are_the_whole_search() {
    let names = vec!["A".to_string(), "B".to_string(), "C".to_string(), "D".to_string()];
    let score = |select: u32, sign: u32| ((select * 7 + sign * 13) % 11) as u64;
    let mut whole = PermutationSearch::between(names.clone(), 1, 15, 6).unwrap();
    while let Some((select, sign)) = whole.pending() {
        whole = whole.advance(score(select, sign), 0);
    }
    let whole = whole.finish();
    for parts in [1u32, 2, 4, 5, 15] {
        let mut rankings = Vec::new();
        for (first, last) in split_range(1, 15, parts) {
            let mut search = PermutationSearch::between(names.clone(), first, last, 6).unwrap();
            while let Some((select, sign)) = search.pending() {
                search = search.advance(score(select, sign), 0);
            }
            rankings.push(search.finish());
        }
        let merged = merge_all(rankings).unwrap();
        let seen: Vec<(u32, u32, u64)> = merged
            .data
            .iter()
            .map(|r| (r.get_permutation_select(), r.get_permutation_sign(), r.get_diff()))
            .collect();
        let expected: Vec<(u32, u32, u64)> = whole
            .data
            .iter()
            .map(|r| (r.get_permutation_select(), r.get_permutation_sign(), r.get_diff()))
            .collect();
        assert_eq!(seen, expected);
    }
}

#[test]
fn merging_the_parts_of_an_empty_search_gives_an_empty_ranking() {
    let rank = merge_parts(Vec::new(), 7);
    assert_eq!(rank.len(), 0);
    assert_eq!(rank.size_limit(), 7);
}

#[test]
fn merging_the_parts_of_a_search_ranks_all_their_items() {
    let parts = vec![
        filled(3, &[(1, 10), (2, 40)]),
        filled(3, &[(4, 10), (5, 50)]),
        filled(3, &[(6, 5)]),
    ];
    let rank = merge_parts(parts, 3);
    assert_eq!(contents(&rank), vec![(6, 5), (1, 10), (4, 10)]);
    assert_eq!(rank.size_limit(), 3);
}
