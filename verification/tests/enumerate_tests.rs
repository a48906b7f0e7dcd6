use matcher::board::popcount64;
use matcher::bucket::AOBucket;
use matcher::enumerate::{check_mask_code_consistency, enumerate_to_snapshot, inputs_from_arrays};
use matcher::errors::MatcherError;

fn tiny_inputs(
    n: i32,
    m: i32,
    masks: Vec<u64>,
    pops: Vec<u8>,
    jidx: Vec<u32>,
    offsets: Vec<i64>,
    jpop: Vec<i32>,
) -> Result<matcher::enumerate::Inputs, MatcherError> {
    inputs_from_arrays(n, m, masks, pops, jidx, offsets, jpop, Vec::new())
}

#[test]
fn two_single_cell_pieces_tile_the_half_of_a_2_board() {
    // N = 2: the left half is cells 0 and 1; one piece per cell
    let inp = tiny_inputs(
        2,
        2,
        vec![0b01, 0b10],
        vec![1, 1],
        vec![0, 1],
        vec![0, 1, 2],
        vec![1, 1],
    )
    .unwrap();
    let (snap, saturations) = enumerate_to_snapshot(inp, 32768, None).unwrap();
    assert_eq!(saturations, 0);
    assert_eq!(snap.n_total, 2);
    assert_eq!(snap.buckets.len(), 1);
    let bk = &snap.buckets[0];
    assert_eq!(bk.key, vec![1, 1]);
    assert_eq!(bk.indptr, vec![0, 2]);
    assert_eq!(bk.rows_data, vec![0, 1]);
    assert_eq!(bk.weights, vec![1]);

    // mask-code consistency on the emitted row: the union of the
    // pieces' masks covers the half, and the populations add up to it
    let union = 0b01u64 | 0b10u64;
    assert_eq!(popcount64(union), 2);
    assert!(check_mask_code_consistency(bk, &vec![0b01, 0b10], &vec![1, 1], 2));
    // a wrong mask table breaks the coverage
    assert!(!check_mask_code_consistency(bk, &vec![0b01, 0b01], &vec![1, 1], 2));
    // a wrong population table breaks the sum
    assert!(!check_mask_code_consistency(bk, &vec![0b01, 0b10], &vec![1, 2], 2));
}

#[test]
fn a_full_height_piece_lands_in_the_neutral_bucket() {
    // N = 2 with a single piece covering the whole half: its index is
    // not recorded, so the completed tiling keeps the empty code and
    // the neutral (empty) key
    let inp = tiny_inputs(2, 1, vec![0b11], vec![2], vec![0], vec![0, 1, 1], vec![2]).unwrap();
    let snap = enumerate_to_snapshot(inp, 32768, None).unwrap().0;
    assert_eq!(snap.buckets.len(), 1);
    let bk = &snap.buckets[0];
    assert_eq!(bk.key, Vec::<i32>::new());
    assert_eq!(bk.indptr, vec![0, 0]);
    assert_eq!(bk.rows_data, Vec::<i32>::new());
    assert_eq!(bk.weights, vec![1]);
}

#[test]
fn first_limit_caps_the_opening_pieces() {
    // two interchangeable full-half pieces; the limit keeps only one
    let inp = tiny_inputs(
        2,
        2,
        vec![0b11, 0b11],
        vec![2, 2],
        vec![0, 1],
        vec![0, 2, 2],
        vec![2, 2],
    )
    .unwrap();
    let full = enumerate_to_snapshot(inp, 32768, None).unwrap().0;
    assert_eq!(full.buckets[0].weights, vec![2]);

    let inp2 = tiny_inputs(
        2,
        2,
        vec![0b11, 0b11],
        vec![2, 2],
        vec![0, 1],
        vec![0, 2, 2],
        vec![2, 2],
    )
    .unwrap();
    let limited = enumerate_to_snapshot(inp2, 32768, Some(1)).unwrap().0;
    assert_eq!(limited.buckets[0].weights, vec![1]);
}

#[test]
fn malformed_inputs_are_rejected() {
    assert_eq!(
        tiny_inputs(3, 1, vec![0b11], vec![2], vec![0], vec![0, 1, 1], vec![2]).unwrap_err(),
        MatcherError::BoardSize,
    );
    assert_eq!(
        tiny_inputs(2, 5000, vec![], vec![], vec![], vec![0, 0, 0], vec![]).unwrap_err(),
        MatcherError::CodeWidth,
    );
    assert_eq!(
        tiny_inputs(2, 1, vec![0b11], vec![], vec![0], vec![0, 1, 1], vec![2]).unwrap_err(),
        MatcherError::MismatchedLengths,
    );
    assert_eq!(
        tiny_inputs(2, 1, vec![0b11], vec![2], vec![0], vec![0, 1], vec![2]).unwrap_err(),
        MatcherError::OffsetsInvalid,
    );
    assert_eq!(
        tiny_inputs(2, 1, vec![0b11], vec![2], vec![0], vec![0, 2, 1], vec![2]).unwrap_err(),
        MatcherError::OffsetsInvalid,
    );
    assert_eq!(
        tiny_inputs(2, 1, vec![0b11], vec![2], vec![3], vec![0, 1, 1], vec![2]).unwrap_err(),
        MatcherError::PieceIndexRange,
    );
    assert_eq!(
        tiny_inputs(2, 1, vec![0b111], vec![2], vec![0], vec![0, 1, 1], vec![2]).unwrap_err(),
        MatcherError::PieceMaskRange,
    );
    assert_eq!(
        tiny_inputs(2, 1, vec![0b11], vec![2], vec![0], vec![0, 1, 1], vec![16]).unwrap_err(),
        MatcherError::PopulationRange,
    );
}

#[test]
fn flush_sorts_merges_and_saturates() {
    let mut b = AOBucket::new();
    b.append_batch(vec![7, 3, 7], vec![2, 5, 9], 1 << 20);
    b.flush();
    assert_eq!(b.codes, vec![3, 7]);
    assert_eq!(b.weights, vec![5, 11]);
    assert_eq!(b.pend_codes.len(), 0);
    assert_eq!(b.saturations, 0);

    // a second batch merges into the committed entries
    b.append_batch(vec![3, 9], vec![1, 1], 1 << 20);
    b.flush();
    assert_eq!(b.codes, vec![3, 7, 9]);
    assert_eq!(b.weights, vec![6, 11, 1]);

    // weights clamp at the 32-bit maximum, and the clamp is counted
    let mut c = AOBucket::new();
    c.append_batch(vec![5, 5], vec![u32::MAX, 2], 1 << 20);
    c.flush();
    assert_eq!(c.codes, vec![5]);
    assert_eq!(c.weights, vec![u32::MAX]);
    assert_eq!(c.saturations, 1);
}

#[test]
fn append_batch_flushes_at_the_threshold() {
    let mut b = AOBucket::new();
    // threshold 2: the second pending entry triggers the flush
    b.append_batch(vec![9], vec![1], 2);
    assert_eq!(b.pend_codes.len(), 1);
    b.append_batch(vec![9], vec![1], 2);
    assert_eq!(b.pend_codes.len(), 0);
    assert_eq!(b.codes, vec![9]);
    assert_eq!(b.weights, vec![2]);
}

#[test]
fn columns_of_dominoes_fill_a_4_board() {
    // N = 4: the half has two columns of four cells. The library holds
    // a full column piece and the three vertical dominoes per column;
    // only the aligned dominoes can finish a column.
    let inp = tiny_inputs(
        4,
        8,
        vec![0x0f, 0x03, 0x06, 0x0c, 0xf0, 0x30, 0x60, 0xc0],
        vec![4, 2, 2, 2, 4, 2, 2, 2],
        vec![0, 1, 2, 3, 4, 5, 6, 7],
        vec![0, 2, 3, 4, 4, 6, 7, 8, 8],
        vec![4, 2, 2, 2, 4, 2, 2, 2],
    )
    .unwrap();
    let snap = enumerate_to_snapshot(inp, 32768, None).unwrap().0;
    assert_eq!(snap.buckets.len(), 3);

    // both columns taken by full pieces: the neutral bucket
    assert_eq!(snap.buckets[0].key, Vec::<i32>::new());
    assert_eq!(snap.buckets[0].weights, vec![1]);
    assert_eq!(snap.buckets[0].rows_data, Vec::<i32>::new());

    // one column of dominoes, the other full: two distinct tilings
    assert_eq!(snap.buckets[1].key, vec![2, 2]);
    assert_eq!(snap.buckets[1].indptr, vec![0, 2, 4]);
    assert_eq!(snap.buckets[1].rows_data, vec![1, 3, 5, 7]);
    assert_eq!(snap.buckets[1].weights, vec![1, 1]);

    // four dominoes cover everything
    assert_eq!(snap.buckets[2].key, vec![2, 2, 2, 2]);
    assert_eq!(snap.buckets[2].rows_data, vec![1, 3, 5, 7]);
    assert_eq!(snap.buckets[2].weights, vec![1]);

    // rows whose pieces are all recorded cover the half exactly;
    // full-height pieces stay outside the codes, so the rows that used
    // one do not
    let masks = vec![0x0f, 0x03, 0x06, 0x0c, 0xf0, 0x30, 0x60, 0xc0];
    let pops = vec![4, 2, 2, 2, 4, 2, 2, 2];
    assert!(check_mask_code_consistency(&snap.buckets[2], &masks, &pops, 4));
    assert!(!check_mask_code_consistency(&snap.buckets[0], &masks, &pops, 4));
    assert!(!check_mask_code_consistency(&snap.buckets[1], &masks, &pops, 4));
}
