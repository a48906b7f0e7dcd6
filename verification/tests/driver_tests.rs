use std::collections::HashMap;

use matcher::driver::{check_snapshot, run_all_pairs_parallel};
use matcher::enumerate::{enumerate_to_snapshot, inputs_from_arrays};
use matcher::types::{Bucket, Snapshot};

fn bucket(rows: Vec<Vec<i32>>, weights: Vec<u64>, key: Vec<i32>) -> Bucket {
    let mut rows_data = Vec::new();
    let mut indptr = vec![0i64];
    for row in rows {
        rows_data.extend(row.iter().copied());
        indptr.push(rows_data.len() as i64);
    }
    Bucket { rows_data, indptr, weights, key }
}

#[test]
fn complementary_buckets_are_paired_and_doubled() {
    let mut compat = HashMap::new();
    compat.insert(1, (vec![0], vec![2]));
    compat.insert(2, (vec![1], vec![3]));
    compat.insert(3, (vec![2], vec![0]));
    let snap = Snapshot {
        buckets: vec![
            bucket(vec![vec![0, 1]], vec![2], vec![1, 2]),
            bucket(vec![vec![2, 3]], vec![5], vec![2, 3]),
        ],
        jbt_ref_pop: vec![1, 2, 3, 2],
        n_total: 4,
        compat,
    };
    assert!(check_snapshot(&snap));
    let (results, omega) = run_all_pairs_parallel(&snap);
    assert_eq!(results.len(), 1);
    assert_eq!(results[0].left, 0);
    assert_eq!(results[0].right, 1);
    assert_eq!(results[0].factor, 2);
    assert_eq!(results[0].subtotal, 20);
    assert_eq!(results[0].rows1, 1);
    assert_eq!(results[0].rows2, 1);
    assert_eq!(omega, 20);
}

#[test]
fn unpaired_buckets_contribute_nothing() {
    let mut compat = HashMap::new();
    compat.insert(1, (vec![0], vec![2]));
    compat.insert(2, (vec![1], vec![3]));
    compat.insert(3, (vec![2], vec![0]));
    // a lone bucket whose complementary key is absent
    let snap = Snapshot {
        buckets: vec![bucket(vec![vec![0, 1]], vec![2], vec![1, 2])],
        jbt_ref_pop: vec![1, 2, 3, 2],
        n_total: 4,
        compat,
    };
    assert!(check_snapshot(&snap));
    let (results, omega) = run_all_pairs_parallel(&snap);
    assert_eq!(results.len(), 0);
    assert_eq!(omega, 0);
}

#[test]
fn neutral_bucket_squares_its_weight_sum() {
    // the full enumeration of the trivial 2-board gives one neutral
    // bucket; its self-pair scores the squared weight sum
    let inp = inputs_from_arrays(
        2,
        1,
        vec![0b11],
        vec![2],
        vec![0],
        vec![0, 1, 1],
        vec![2],
        Vec::new(),
    )
    .unwrap();
    let mut snap = enumerate_to_snapshot(inp, 32768, None).unwrap().0;
    let mut compat = HashMap::new();
    compat.insert(1, (Vec::new(), Vec::new()));
    snap.compat = compat;
    assert!(check_snapshot(&snap));
    let (results, omega) = run_all_pairs_parallel(&snap);
    assert_eq!(results.len(), 1);
    assert_eq!(results[0].factor, 1);
    assert_eq!(omega, 1);
}

#[test]
fn broken_snapshots_are_refused() {
    let mut compat = HashMap::new();
    compat.insert(1, (Vec::new(), Vec::new()));
    compat.insert(2, (Vec::new(), Vec::new()));
    compat.insert(3, (Vec::new(), Vec::new()));
    // a row entry out of range of the population table
    let snap = Snapshot {
        buckets: vec![bucket(vec![vec![9]], vec![1], vec![1])],
        jbt_ref_pop: vec![1],
        n_total: 4,
        compat: compat.clone(),
    };
    assert!(!check_snapshot(&snap));

    // a missing compatibility table
    let mut partial = HashMap::new();
    partial.insert(1, (Vec::new(), Vec::new()));
    let snap2 = Snapshot {
        buckets: Vec::new(),
        jbt_ref_pop: vec![1],
        n_total: 4,
        compat: partial,
    };
    assert!(!check_snapshot(&snap2));

    // an unsorted row
    let snap3 = Snapshot {
        buckets: vec![bucket(vec![vec![1, 0]], vec![1], vec![1, 1])],
        jbt_ref_pop: vec![1, 1],
        n_total: 4,
        compat,
    };
    assert!(!check_snapshot(&snap3));
}
