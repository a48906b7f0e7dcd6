use matcher::board::{
    col_mask, detect_evil_pmask, find_root, flood_fill, left_half_mask, popcount64,
};

#[test]
fn popcount_counts_bits() {
    assert_eq!(popcount64(0), 0);
    assert_eq!(popcount64(1), 1);
    assert_eq!(popcount64(0b1011_0110), 5);
    assert_eq!(popcount64(u64::MAX), 64);
}

#[test]
fn half_and_column_masks() {
    // N = 4: the left half is columns 0 and 1, cells 0..8
    assert_eq!(left_half_mask(4), 0xff);
    // N = 2: two cells
    assert_eq!(left_half_mask(2), 0b11);
    assert_eq!(col_mask(4, 0), 0x0f);
    assert_eq!(col_mask(4, 1), 0xf0);
}

#[test]
fn flood_fill_reaches_a_connected_component() {
    // N = 4: domain is the whole left half; everything is connected
    let domain = left_half_mask(4);
    assert_eq!(flood_fill(1, domain, 4), domain);

    // two separated fragments: only the seeded one is filled
    // cells 0,1 (column 0 bottom) and cell 7 (column 1 top)
    let domain = 0b1000_0011;
    assert_eq!(flood_fill(0b1, domain, 4), 0b11);
    assert_eq!(flood_fill(0b1000_0000, domain, 4), 0b1000_0000);
    // a seed outside the domain fills nothing
    assert_eq!(flood_fill(0b100, domain, 4), 0);
}

#[test]
fn flood_fill_twice_is_flood_fill_once() {
    let domain = 0b1011_0111;
    let once = flood_fill(0b10, domain, 4);
    let twice = flood_fill(once, domain, 4);
    assert_eq!(twice, once);
}

#[test]
fn evil_hole_of_three_cells_is_detected() {
    // N = 4: an enclosed hole of 3 cells in column 0 (cells 0,1,2),
    // not touching the escape column 1
    let half = left_half_mask(4);
    let hole3 = 0b0000_0111u64;
    assert!(detect_evil_pmask(half ^ hole3, 4));

    // the same hole grown to 4 cells could host one full piece
    let hole4 = 0b0000_1111u64;
    assert!(!detect_evil_pmask(half ^ hole4, 4));
}

#[test]
fn holes_touching_the_escape_column_are_not_evil() {
    // N = 4: a 3-cell hole that reaches column 1 may still be finished
    // from the right half
    let half = left_half_mask(4);
    let hole = 0b0011_0001u64;
    assert!(!detect_evil_pmask(half ^ hole, 4));
}

#[test]
fn find_root_names_the_lowest_uncovered_cell() {
    // N = 4: nothing covered: root is (0, 0)
    assert_eq!(find_root(0, 4), Some((0, 0)));
    // bottom cell of column 0 covered: root is (0, 1)
    assert_eq!(find_root(0b1, 4), Some((0, 1)));
    // column 0 covered: root is (1, 0)
    assert_eq!(find_root(0x0f, 4), Some((1, 0)));
    // the full half has no root
    assert_eq!(find_root(0xff, 4), None);
}
