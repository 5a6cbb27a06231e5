use kingfisher_bnb::BitMatrix;

#[test]
fn test_bitmatrix_frequency() {
    // Columns: 0 holds rows 0, 1, 3; 1 holds rows 0, 2, 3; 2 holds rows 1, 2, 3.
    let rows = vec![vec![0, 1], vec![0, 2], vec![1, 2], vec![0, 1, 2]];
    let matrix = BitMatrix::from_rows(rows, 3);
    assert_eq!(matrix.frequency(&[0]), 3);
    assert_eq!(matrix.frequency(&[0, 1]), 2);
    assert_eq!(matrix.frequency(&[0, 1, 2]), 1);
}

#[test]
fn from_rows_counts_each_column() {
    let rows = vec![vec![0, 1], vec![0, 2], vec![1, 2], vec![0, 1, 2]];
    let matrix = BitMatrix::from_rows(rows, 3);
    assert_eq!(matrix.num_rows, 4);
    assert_eq!(matrix.num_cols, 3);
    assert_eq!(matrix.attr_freqs, vec![3, 3, 3]);
}

#[test]
fn from_rows_ignores_attributes_past_the_last_column() {
    let rows = vec![vec![0, 5], vec![7], vec![1, 0]];
    let matrix = BitMatrix::from_rows(rows, 2);
    assert_eq!(matrix.attr_freqs, vec![2, 1]);
    assert_eq!(matrix.frequency(&[0, 1]), 1);
}

#[test]
fn empty_path_covers_every_row() {
    let rows = vec![vec![0], vec![], vec![1]];
    let matrix = BitMatrix::from_rows(rows, 2);
    assert_eq!(matrix.frequency(&[]), 3);
}

#[test]
fn repeated_attribute_in_path_changes_nothing() {
    let rows = vec![vec![0, 1], vec![0], vec![1]];
    let matrix = BitMatrix::from_rows(rows, 2);
    assert_eq!(matrix.frequency(&[0, 0]), 2);
    assert_eq!(matrix.frequency(&[1, 0, 1]), 1);
}

#[test]
fn matrix_without_rows() {
    let matrix = BitMatrix::from_rows(Vec::new(), 3);
    assert_eq!(matrix.num_rows, 0);
    assert_eq!(matrix.attr_freqs, vec![0, 0, 0]);
    assert_eq!(matrix.frequency(&[2]), 0);
}

#[test]
fn matrix_from_text_lines() {
    let lines = ["0 1", "0\t2 x", "", "1 2 0 9"];
    let m = BitMatrix::from_lines(&lines, 3);
    assert_eq!(m.num_rows, 4);
    assert_eq!(m.attr_freqs, vec![3, 2, 2]);
    assert_eq!(m.frequency(&[0, 1]), 2);
    assert_eq!(m.frequency(&[0, 2]), 2);
    assert_eq!(m.frequency(&[1, 2]), 1);
}
