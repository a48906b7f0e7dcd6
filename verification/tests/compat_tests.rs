use matcher::compat::{
    build_compat_map, compat_for_pop_pair, compat_from_entries, contiguous_overlap,
    determine_compatibility,
};

#[test]
fn contiguous_overlap_examples() {
    // shared run 0b00011100 is contiguous
    assert!(contiguous_overlap(0b0011_1100, 0b0001_1110));
    // shared bits 0b10101000 are not one run
    assert!(!contiguous_overlap(0b1010_1000, 0b1010_1000));
    // no overlap at all
    assert!(!contiguous_overlap(0b1100, 0b0011));
    // a single shared bit is a run of one
    assert!(contiguous_overlap(0b0100, 0b0110));
}

#[test]
fn compatibility_over_component_counts() {
    // (1,1): one contiguous overlap
    assert!(determine_compatibility(&[0b1100, 0, 0], &[0b0110, 0, 0]));
    assert!(!determine_compatibility(&[0b1100, 0, 0], &[0b0011, 0, 0]));
    // (1,2): the single component must overlap both
    assert!(determine_compatibility(&[0b1111, 0, 0], &[0b0011, 0b1100, 0]));
    assert!(!determine_compatibility(&[0b0011, 0, 0], &[0b0011, 0b1100, 0]));
    // (2,2): both aligned overlaps, and exactly one crossed overlap
    assert!(determine_compatibility(
        &[0b0011, 0b1100, 0],
        &[0b0011, 0b1110, 0],
    ));
    // (3,3) and other shapes are incompatible
    assert!(!determine_compatibility(
        &[0b1, 0b10, 0b100],
        &[0b1, 0b10, 0b100],
    ));
}

#[test]
fn pair_table_lists_each_compatible_pair_once() {
    // two pieces of population 1, one of population 3 (n = 4)
    let pop = vec![1, 1, 3];
    let comps = vec![
        [0b1100u16, 0, 0],
        [0b0011u16, 0, 0],
        [0b0110u16, 0, 0],
    ];
    let (k1, k2) = compat_for_pop_pair(&pop, &comps, 4, 1);
    // piece 0 overlaps piece 2 in 0b0100; piece 1 overlaps in 0b0010
    assert_eq!(k1, vec![0, 1]);
    assert_eq!(k2, vec![2, 2]);

    // out-of-range populations give empty tables
    let (e1, e2) = compat_for_pop_pair(&pop, &comps, 4, 0);
    assert!(e1.is_empty() && e2.is_empty());
    let (f1, f2) = compat_for_pop_pair(&pop, &comps, 4, 4);
    assert!(f1.is_empty() && f2.is_empty());
}

#[test]
fn compat_map_covers_and_mirrors() {
    let pop = vec![1, 1, 3];
    let comps = vec![
        [0b1100u16, 0, 0],
        [0b0011u16, 0, 0],
        [0b0110u16, 0, 0],
    ];
    let m = build_compat_map(&pop, &comps, 4);
    // every population 1..=3 is present
    for p in 1..4 {
        assert!(m.contains_key(&p), "population {} missing", p);
    }
    // the mirrored table swaps the arrays
    let t1 = m.get(&1).unwrap();
    let t3 = m.get(&3).unwrap();
    assert_eq!(t1.0, t3.1);
    assert_eq!(t1.1, t3.0);
    // the midpoint of an even board stays empty
    let t2 = m.get(&2).unwrap();
    assert!(t2.0.is_empty() && t2.1.is_empty());
}

#[test]
fn archive_compat_is_mirrored_and_covered() {
    // only population 1 is listed; 3 is filled with the swap, 2 stays empty
    let entries = vec![(1, vec![7, 8], vec![9, 10])];
    let m = compat_from_entries(&entries, 4);
    for p in 1..4 {
        assert!(m.contains_key(&p));
    }
    assert_eq!(*m.get(&1).unwrap(), (vec![7, 8], vec![9, 10]));
    assert_eq!(*m.get(&3).unwrap(), (vec![9, 10], vec![7, 8]));
    let t2 = m.get(&2).unwrap();
    assert!(t2.0.is_empty() && t2.1.is_empty());
}
