// The kernel entry points exercised the way the surrounding engine uses
// them: f32 distances arrive from outside, enter the kernel as their
// order-preserving bit patterns (exact for the non-negative scores a
// distance function produces), and come back out as f32.

use topk_merge::list::CandidateList;
use topk_merge::merge::merge_bounded;
use topk_merge::select::select_min_k;

fn min_idx(distances: Vec<f32>, k: i32) -> Vec<i32> {
    let keys: Vec<u32> = distances.iter().map(|d| d.to_bits()).collect();
    select_min_k(&keys, k as usize).iter().map(|i| *i as i32).collect()
}

fn merge_sorted_lists(
    a: &Vec<f32>,
    a_rowids: &Vec<i64>,
    b: &Vec<f32>,
    b_rowids: &Vec<i64>,
    b_top_idx: &Vec<i32>,
    n: usize,
) -> (Vec<i64>, Vec<f32>) {
    let a_list = CandidateList {
        distances: a.iter().map(|d| d.to_bits()).collect(),
        rowids: a_rowids.clone(),
    };
    let b_keys: Vec<u32> = b.iter().map(|d| d.to_bits()).collect();
    let b_order: Vec<usize> = b_top_idx.iter().map(|i| *i as usize).collect();
    let out = merge_bounded(&a_list, &b_keys, b_rowids, &b_order, n);
    let distances = out.distances.iter().map(|key| f32::from_bits(*key)).collect();
    (out.rowids, distances)
}

#[test]
fn test_basic() {
    assert_eq!(min_idx(vec![1.0, 2.0, 3.0], 3), vec![0, 1, 2]);
    assert_eq!(min_idx(vec![3.0, 2.0, 1.0], 3), vec![2, 1, 0]);

    assert_eq!(min_idx(vec![1.0, 2.0, 3.0], 2), vec![0, 1]);
    assert_eq!(min_idx(vec![3.0, 2.0, 1.0], 2), vec![2, 1]);
}

#[test]
fn test_merge_sorted_lists() {
    let a = &vec![0.01, 0.02, 0.03];
    let a_rowids = &vec![1, 2, 3];

    let b = &vec![0.4, 0.2, 0.3, 0.1];
    let b_rowids = &vec![7, 5, 6, 4];
    let b_top_idx = &vec![3, 1, 2, 0];

    assert_eq!(
        merge_sorted_lists(a, a_rowids, b, b_rowids, b_top_idx, 0),
        (vec![], vec![])
    );
    assert_eq!(
        merge_sorted_lists(a, a_rowids, b, b_rowids, b_top_idx, 1),
        (vec![1], vec![0.01])
    );
    assert_eq!(
        merge_sorted_lists(a, a_rowids, b, b_rowids, b_top_idx, 2),
        (vec![1, 2], vec![0.01, 0.02])
    );
    assert_eq!(
        merge_sorted_lists(a, a_rowids, b, b_rowids, b_top_idx, 3),
        (vec![1, 2, 3], vec![0.01, 0.02, 0.03])
    );
    assert_eq!(
        merge_sorted_lists(a, a_rowids, b, b_rowids, b_top_idx, 4),
        (vec![1, 2, 3, 4], vec![0.01, 0.02, 0.03, 0.1])
    );
    assert_eq!(
        merge_sorted_lists(a, a_rowids, b, b_rowids, b_top_idx, 5),
        (vec![1, 2, 3, 4, 5], vec![0.01, 0.02, 0.03, 0.1, 0.2])
    );
    assert_eq!(
        merge_sorted_lists(a, a_rowids, b, b_rowids, b_top_idx, 6),
        (
            vec![1, 2, 3, 4, 5, 6],
            vec![0.01, 0.02, 0.03, 0.1, 0.2, 0.3]
        )
    );
    assert_eq!(
        merge_sorted_lists(a, a_rowids, b, b_rowids, b_top_idx, 7),
        (
            vec![1, 2, 3, 4, 5, 6, 7],
            vec![0.01, 0.02, 0.03, 0.1, 0.2, 0.3, 0.4]
        )
    );

    assert_eq!(
        merge_sorted_lists(a, a_rowids, b, b_rowids, b_top_idx, 8),
        (
            vec![1, 2, 3, 4, 5, 6, 7],
            vec![0.01, 0.02, 0.03, 0.1, 0.2, 0.3, 0.4]
        )
    );
}
