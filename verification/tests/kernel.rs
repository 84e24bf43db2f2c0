// The kernel on its own types: u32 distance keys and i64 rowids.

use topk_merge::list::CandidateList;
use topk_merge::merge::merge_bounded;
use topk_merge::select::select_min_k;

fn merge(
    a_distances: Vec<u32>,
    a_rowids: Vec<i64>,
    b_distances: Vec<u32>,
    b_rowids: Vec<i64>,
    b_order: Vec<usize>,
    limit: usize,
) -> (Vec<u32>, Vec<i64>) {
    let a = CandidateList { distances: a_distances, rowids: a_rowids };
    let out = merge_bounded(&a, &b_distances, &b_rowids, &b_order, limit);
    (out.distances, out.rowids)
}

#[test]
fn test_select_empty_input() {
    assert_eq!(select_min_k(&vec![], 5), Vec::<usize>::new());
}

#[test]
fn test_select_k_zero() {
    assert_eq!(select_min_k(&vec![9, 3, 7], 0), Vec::<usize>::new());
}

#[test]
fn test_select_k_larger_than_input() {
    assert_eq!(select_min_k(&vec![5, 4], 10), vec![1, 0]);
}

#[test]
fn test_select_ties_keep_lower_index_first() {
    assert_eq!(select_min_k(&vec![2, 1, 1, 2], 4), vec![1, 2, 0, 3]);
    assert_eq!(select_min_k(&vec![8, 8, 8], 2), vec![0, 1]);
}

#[test]
fn test_select_exact_smallest() {
    assert_eq!(select_min_k(&vec![40, 10, 30, 20, 50], 3), vec![1, 3, 2]);
}

#[test]
fn test_merge_zero_limit_is_empty() {
    let out = merge(
        vec![1, 2],
        vec![10, 20],
        vec![4, 3],
        vec![40, 30],
        vec![1, 0],
        0,
    );
    assert_eq!(out, (vec![], vec![]));
}

#[test]
fn test_merge_tie_prefers_a() {
    let out = merge(vec![5], vec![100], vec![5], vec![200], vec![0], 2);
    assert_eq!(out, (vec![5, 5], vec![100, 200]));
    let out = merge(vec![5], vec![100], vec![5], vec![200], vec![0], 1);
    assert_eq!(out, (vec![5], vec![100]));
}

#[test]
fn test_merge_empty_sides() {
    let out = merge(vec![], vec![], vec![2, 1], vec![20, 10], vec![1, 0], 3);
    assert_eq!(out, (vec![1, 2], vec![10, 20]));
    let out = merge(vec![1, 2], vec![10, 20], vec![], vec![], vec![], 3);
    assert_eq!(out, (vec![1, 2], vec![10, 20]));
    let out = merge(vec![], vec![], vec![], vec![], vec![], 3);
    assert_eq!(out, (vec![], vec![]));
}

#[test]
fn test_merge_length_clamps_to_both_streams() {
    let out = merge(
        vec![1, 3],
        vec![10, 30],
        vec![4, 2],
        vec![40, 20],
        vec![1, 0],
        9,
    );
    assert_eq!(out, (vec![1, 2, 3, 4], vec![10, 20, 30, 40]));
}

#[test]
fn test_merge_truncates_interleaved_streams() {
    let out = merge(
        vec![1, 4, 6],
        vec![10, 40, 60],
        vec![5, 3, 2],
        vec![50, 30, 20],
        vec![2, 1, 0],
        4,
    );
    assert_eq!(out, (vec![1, 2, 3, 4], vec![10, 20, 30, 40]));
}

#[test]
fn test_candidate_list_len() {
    let list = CandidateList { distances: vec![1, 2, 3], rowids: vec![7, 8, 9] };
    assert_eq!(list.len(), 3);
}
