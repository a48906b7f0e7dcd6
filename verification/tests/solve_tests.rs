use std::collections::HashMap;

use matcher::solve::{build_rows_by_jbt, precompute_candidates_for_bucket1, subtotal_for_pair};
use matcher::types::{compat_key_sorted, key_sorted_vec, Bucket};

fn bucket(rows: Vec<Vec<i32>>, weights: Vec<u64>, key: Vec<i32>) -> Bucket {
    let mut rows_data = Vec::new();
    let mut indptr = vec![0i64];
    for row in rows {
        rows_data.extend(row.iter().copied());
        indptr.push(rows_data.len() as i64);
    }
    Bucket { rows_data, indptr, weights, key }
}

#[test]
fn key_helpers_sort_and_complement() {
    assert_eq!(key_sorted_vec(&vec![3, 1, 2, 1]), vec![1, 1, 2, 3]);
    assert_eq!(compat_key_sorted(&vec![1, 2], 5), vec![3, 4]);
    assert_eq!(compat_key_sorted(&vec![2, 2], 4), vec![2, 2]);
}

#[test]
fn rows_index_lists_rows_per_piece() {
    let b = bucket(vec![vec![0, 2], vec![1, 2]], vec![1, 1], vec![1, 1]);
    let rows_by = build_rows_by_jbt(&b, 3);
    assert_eq!(rows_by.len(), 3);
    assert_eq!(rows_by[0], vec![0]);
    assert_eq!(rows_by[1], vec![1]);
    assert_eq!(rows_by[2], vec![0, 1]);
}

fn s5_compat() -> HashMap<i32, (Vec<i32>, Vec<i32>)> {
    // pieces 0..=3 with populations [1, 2, 3, 2] on a board of 4:
    // piece 0 pairs with piece 2, piece 1 pairs with piece 3
    let mut compat = HashMap::new();
    compat.insert(1, (vec![0], vec![2]));
    compat.insert(2, (vec![1], vec![3]));
    compat.insert(3, (vec![2], vec![0]));
    compat
}

#[test]
fn disjoint_candidates_multiply() {
    // one row each; both key populations are unique, and the two
    // candidate sets are disjoint, so the row pair scores w1 * w2
    let pop = vec![1, 2, 3, 2];
    let left = bucket(vec![vec![0, 1]], vec![2], vec![1, 2]);
    let right = bucket(vec![vec![2, 3]], vec![5], vec![2, 3]);
    let compat = s5_compat();
    let rows_by = build_rows_by_jbt(&right, 4);
    let cands = precompute_candidates_for_bucket1(&left, &rows_by, &pop, 4, &compat);
    assert_eq!(cands[0], vec![2]);
    assert_eq!(cands[1], vec![3]);
    let sub = subtotal_for_pair(&left, &right, &pop, 4, &compat, &rows_by, &cands);
    assert_eq!(sub, 10);
}

#[test]
fn pair_value_is_symmetric_between_the_sides() {
    // pair-level symmetry needs the midpoint table itself symmetric
    let pop = vec![1, 2, 3, 2];
    let left = bucket(vec![vec![0, 1]], vec![2], vec![1, 2]);
    let right = bucket(vec![vec![2, 3]], vec![5], vec![2, 3]);
    let mut compat = s5_compat();
    compat.insert(2, (vec![1, 3], vec![3, 1]));

    let rows_by_r = build_rows_by_jbt(&right, 4);
    let cands_l = precompute_candidates_for_bucket1(&left, &rows_by_r, &pop, 4, &compat);
    let forward = subtotal_for_pair(&left, &right, &pop, 4, &compat, &rows_by_r, &cands_l);

    let rows_by_l = build_rows_by_jbt(&left, 4);
    let cands_r = precompute_candidates_for_bucket1(&right, &rows_by_l, &pop, 4, &compat);
    let backward = subtotal_for_pair(&right, &left, &pop, 4, &compat, &rows_by_l, &cands_r);

    assert_eq!(forward, backward);
}

#[test]
fn overlapping_candidates_force_injectivity() {
    // both positions collide (population 2 twice) and share the same
    // two candidates: only the two injective assignments count
    let pop = vec![2, 2, 2, 2];
    let mut compat = HashMap::new();
    compat.insert(1, (Vec::new(), Vec::new()));
    compat.insert(2, (vec![0, 0, 1, 1], vec![2, 3, 2, 3]));
    compat.insert(3, (Vec::new(), Vec::new()));
    let left = bucket(vec![vec![0, 1]], vec![1], vec![2, 2]);
    let right = bucket(vec![vec![2, 3]], vec![1], vec![2, 2]);
    let rows_by = build_rows_by_jbt(&right, 4);
    let cands = precompute_candidates_for_bucket1(&left, &rows_by, &pop, 4, &compat);
    assert_eq!(cands[0], vec![2, 3]);
    assert_eq!(cands[1], vec![2, 3]);
    let sub = subtotal_for_pair(&left, &right, &pop, 4, &compat, &rows_by, &cands);
    assert_eq!(sub, 2);
}

#[test]
fn neutral_bucket_pairs_freely() {
    // an empty key multiplies the weight sums; with itself it squares
    let pop = vec![0];
    let compat = s5_compat();
    let neutral = bucket(vec![vec![], vec![]], vec![3, 4], vec![]);
    let rows_by = build_rows_by_jbt(&neutral, 1);
    let cands = precompute_candidates_for_bucket1(&neutral, &rows_by, &pop, 4, &compat);
    let squared = subtotal_for_pair(&neutral, &neutral, &pop, 4, &compat, &rows_by, &cands);
    assert_eq!(squared, 49);

    let other = bucket(vec![vec![0]], vec![6], vec![2]);
    let rows_by2 = build_rows_by_jbt(&other, 1);
    let sub = subtotal_for_pair(&neutral, &other, &pop, 4, &compat, &rows_by2, &cands);
    assert_eq!(sub, 42);
}

#[test]
fn empty_candidates_zero_a_row() {
    // the left piece has no listed partner: the row contributes nothing
    let pop = vec![1, 3];
    let mut compat = HashMap::new();
    compat.insert(1, (Vec::new(), Vec::new()));
    compat.insert(2, (Vec::new(), Vec::new()));
    compat.insert(3, (Vec::new(), Vec::new()));
    let left = bucket(vec![vec![0]], vec![2], vec![1]);
    let right = bucket(vec![vec![1]], vec![5], vec![3]);
    let rows_by = build_rows_by_jbt(&right, 2);
    let cands = precompute_candidates_for_bucket1(&left, &rows_by, &pop, 4, &compat);
    let sub = subtotal_for_pair(&left, &right, &pop, 4, &compat, &rows_by, &cands);
    assert_eq!(sub, 0);
}
