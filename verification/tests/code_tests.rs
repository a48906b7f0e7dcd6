use matcher::code::{bitwidth, code_indices, code_insert, code_len};

#[test]
fn bitwidth_smallest_sufficient_width() {
    assert_eq!(bitwidth(0), 1);
    assert_eq!(bitwidth(1), 1);
    assert_eq!(bitwidth(2), 1);
    assert_eq!(bitwidth(3), 2);
    assert_eq!(bitwidth(16), 4);
    assert_eq!(bitwidth(17), 5);
    assert_eq!(bitwidth(4096), 12);
}

#[test]
fn canonical_insert_packs_length_and_field() {
    // width 4: inserting 3 into the empty code gives length 1, field 3
    let (c1, ok1) = code_insert(0, 3, 4);
    assert!(ok1);
    assert_eq!(c1, 0x31);
    assert_eq!(code_len(c1), 1);

    // inserting 1 keeps the fields sorted: [1, 3]
    let (c2, ok2) = code_insert(c1, 1, 4);
    assert!(ok2);
    assert_eq!(c2, 0x312);
    assert_eq!(code_len(c2), 2);

    // inserting 3 again is rejected and leaves the code unchanged
    let (c3, ok3) = code_insert(c2, 3, 4);
    assert!(!ok3);
    assert_eq!(c3, c2);
}

#[test]
fn insert_order_does_not_matter() {
    let b = 6;
    let (a1, _) = code_insert(0, 9, b);
    let (a2, _) = code_insert(a1, 4, b);
    let (b1, _) = code_insert(0, 4, b);
    let (b2, _) = code_insert(b1, 9, b);
    assert_eq!(a2, b2);

    let (a3, _) = code_insert(a2, 30, b);
    let (b3, _) = code_insert(b2, 30, b);
    assert_eq!(a3, b3);
}

#[test]
fn decoded_indices_come_back_ascending() {
    let b = 5;
    let mut c: u128 = 0;
    for j in [17u32, 2, 9, 30, 4] {
        let (c2, ok) = code_insert(c, j, b);
        assert!(ok);
        c = c2;
    }
    let idxs = code_indices(c, b);
    assert_eq!(idxs, vec![2, 4, 9, 17, 30]);
}

#[test]
fn full_code_rejects_an_eleventh_entry() {
    let b = 4;
    let mut c: u128 = 0;
    for j in 0..10u32 {
        let (c2, ok) = code_insert(c, j, b);
        assert!(ok);
        c = c2;
    }
    assert_eq!(code_len(c), 10);
    let (c3, ok) = code_insert(c, 12, b);
    assert!(!ok);
    assert_eq!(c3, c);
}
