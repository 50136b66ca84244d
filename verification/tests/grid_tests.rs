use cif_stage0::grid::{manhattan, Grid};

#[test]
fn test_filled() {
    let g = Grid::filled(3, 3, 0);
    assert_eq!(g.width, 3);
    assert_eq!(g.height, 3);
    assert_eq!(g.cells[1][1], 0);
}

#[test]
fn test_hamming_identical() {
    let a = Grid::filled(3, 3, 0);
    let b = Grid::filled(3, 3, 0);
    assert_eq!(a.hamming_distance(&b), 0);
}

#[test]
fn test_hamming_one_diff() {
    let a = Grid::filled(3, 3, 0);
    let mut b = Grid::filled(3, 3, 0);
    b.set(1, 1, 1);
    assert_eq!(a.hamming_distance(&b), 1);
}

#[test]
fn test_hamming_different_dims() {
    let a = Grid::filled(3, 3, 0);
    let b = Grid::filled(4, 4, 0);
    assert_eq!(a.hamming_distance(&b), usize::MAX);
}

#[test]
fn test_equality() {
    let a = Grid::from_rows(vec![vec![0, 1], vec![1, 0]]);
    let b = Grid::from_rows(vec![vec![0, 1], vec![1, 0]]);
    let c = Grid::from_rows(vec![vec![1, 0], vec![0, 1]]);
    assert_eq!(a, b);
    assert_ne!(a, c);
}

#[test]
fn get_out_of_bounds_is_none() {
    let g = Grid::filled(2, 3, 7);
    assert_eq!(g.get(2, 1), Some(7));
    assert_eq!(g.get(3, 0), None);
    assert_eq!(g.get(0, 2), None);
}

#[test]
fn set_out_of_bounds_is_noop() {
    let mut g = Grid::filled(2, 2, 0);
    g.set(5, 0, 9);
    g.set(0, 5, 9);
    assert_eq!(g, Grid::filled(2, 2, 0));
    g.set(1, 0, 9);
    assert_eq!(g.get(1, 0), Some(9));
}

#[test]
fn size_counts_cells() {
    assert_eq!(Grid::filled(4, 3, 0).size(), 12);
    assert_eq!(Grid::from_rows(vec![]).size(), 0);
}

#[test]
fn from_rows_takes_first_row_width() {
    let g = Grid::from_rows(vec![vec![1, 2, 3], vec![4, 5, 6]]);
    assert_eq!(g.width, 3);
    assert_eq!(g.height, 2);
    let e = Grid::from_rows(vec![]);
    assert_eq!((e.width, e.height), (0, 0));
}

#[test]
fn hamming_is_symmetric_and_zero_on_self() {
    let mut a = Grid::filled(3, 3, 0);
    a.set(0, 0, 1);
    let mut b = Grid::filled(3, 3, 0);
    b.set(2, 2, 1);
    b.set(1, 1, 2);
    assert_eq!(a.hamming_distance(&b), 3);
    assert_eq!(b.hamming_distance(&a), 3);
    assert_eq!(a.hamming_distance(&a), 0);
}

#[test]
fn find_marker_is_first_in_row_major_order() {
    let g = Grid::from_rows(vec![vec![0, 2, 0], vec![1, 0, 1]]);
    assert_eq!(g.find_marker(), Some((1, 0)));
    assert_eq!(g.find_other(), Some((0, 1)));
    assert_eq!(Grid::filled(3, 3, 0).find_marker(), None);
}

#[test]
fn strip_color_replaces_with_background() {
    let g = Grid::from_rows(vec![vec![2, 1], vec![0, 2]]);
    let s = g.strip_color(2);
    assert_eq!(s, Grid::from_rows(vec![vec![0, 1], vec![0, 0]]));
    assert_eq!(s.find_other(), None);
}

#[test]
fn equals_and_clone_agree_with_eq() {
    let a = Grid::from_rows(vec![vec![0, 1], vec![1, 0]]);
    let b = a.clone();
    assert!(a.equals(&b));
    assert_eq!(a, b);
    let c = Grid::from_rows(vec![vec![0, 1]]);
    assert!(!a.equals(&c));
}

#[test]
fn manhattan_distance() {
    assert_eq!(manhattan((0, 0), (4, 4)), 8);
    assert_eq!(manhattan((3, 1), (1, 3)), 4);
    assert_eq!(manhattan((2, 2), (2, 2)), 0);
}

#[test]
fn render_writes_rows_of_decimal_cells() {
    let g = Grid::from_rows(vec![vec![0, 7, 42], vec![255, 1, 100]]);
    assert_eq!(g.render(), "0 7 42\n255 1 100\n");
    assert_eq!(Grid::filled(2, 2, 0).render(), "0 0\n0 0\n");
    assert_eq!(Grid::filled(0, 0, 0).render(), "");
}
