use kira_secretion::csc::{CellStats, ExprCsc};
use kira_secretion::error::{DimsIssue, InputError};
use kira_secretion::mtx::MatrixHeader;

#[test]
fn build_csc_tiny() {
    let text = "%%MatrixMarket matrix coordinate integer general\n3 2 4\n1 1 1\n2 1 2\n3 2 3\n1 2 4\n";
    let (csc, stats) = ExprCsc::from_mtx(text.as_bytes(), 3, 2, false).expect("csc");
    assert_eq!(csc.col_ptr, vec![0, 2, 4]);
    assert_eq!(csc.row_idx, vec![0, 1, 0, 2]);
    assert_eq!(csc.values, vec![1, 2, 4, 3]);
    assert_eq!(stats[0].libsize, 3);
    assert_eq!(stats[0].detected, 2);
    assert_eq!(stats[1].libsize, 7);
    assert_eq!(stats[1].detected, 2);
}

#[test]
fn determinism_repeat_build() {
    let text = "%%MatrixMarket matrix coordinate integer general\n3 2 3\n1 1 2\n2 2 3\n3 1 4\n";
    let (csc1, stats1) = ExprCsc::from_mtx(text.as_bytes(), 3, 2, false).expect("csc1");
    let (csc2, stats2) = ExprCsc::from_mtx(text.as_bytes(), 3, 2, false).expect("csc2");
    assert_eq!(csc1.col_ptr, csc2.col_ptr);
    assert_eq!(csc1.row_idx, csc2.row_idx);
    assert_eq!(csc1.values, csc2.values);
    assert_eq!(stats1[0].libsize, stats2[0].libsize);
    assert_eq!(stats1[1].detected, stats2[1].detected);
}

#[test]
fn concrete_three_by_two_example() {
    let header = MatrixHeader { n_rows: 3, n_cols: 2, nnz: 4 };
    let entries = vec![(0u32, 0u32, 1u32), (0, 1, 2), (1, 2, 3), (1, 0, 4)];
    let (csc, stats) = ExprCsc::from_entries(&header, &entries, 3, 2, false).expect("csc");
    assert_eq!(stats[0], CellStats { libsize: 3, detected: 2 });
    assert_eq!(stats[1], CellStats { libsize: 7, detected: 2 });
    assert_eq!(csc.nnz, 4);
    assert_eq!(csc.iter_cell_raw(1), vec![(0, 4), (2, 3)]);
}

#[test]
fn duplicate_entries_kept_and_counted_once() {
    let header = MatrixHeader { n_rows: 2, n_cols: 1, nnz: 3 };
    let entries = vec![(0u32, 1u32, 5u32), (0, 0, 2), (0, 1, 7)];
    let (csc, stats) = ExprCsc::from_entries(&header, &entries, 2, 1, false).expect("csc");
    assert_eq!(csc.row_idx, vec![0, 1, 1]);
    assert_eq!(csc.values, vec![2, 5, 7]);
    assert_eq!(stats[0].libsize, 14);
    assert_eq!(stats[0].detected, 2);
}

#[test]
fn unsorted_columns_are_sorted_stably() {
    let header = MatrixHeader { n_rows: 4, n_cols: 3, nnz: 4 };
    let entries = vec![(2u32, 3u32, 1u32), (0, 2, 2), (2, 0, 3), (0, 1, 4)];
    let (csc, stats) = ExprCsc::from_entries(&header, &entries, 4, 3, false).expect("csc");
    assert_eq!(csc.col_ptr, vec![0, 2, 2, 4]);
    assert_eq!(csc.row_idx, vec![1, 2, 0, 3]);
    assert_eq!(csc.values, vec![4, 2, 3, 1]);
    assert_eq!(stats[1], CellStats { libsize: 0, detected: 0 });
}

#[test]
fn header_dims_mismatch_rejected_unless_fast() {
    let header = MatrixHeader { n_rows: 3, n_cols: 2, nnz: 1 };
    let entries = vec![(0u32, 0u32, 1u32)];
    let err = ExprCsc::from_entries(&header, &entries, 4, 2, false).unwrap_err();
    assert_eq!(err, InputError::InvalidMtxDimensions(DimsIssue::DimsMismatch));
    assert!(ExprCsc::from_entries(&header, &entries, 4, 2, true).is_ok());
}

#[test]
fn nnz_mismatch_rejected_unless_fast() {
    let header = MatrixHeader { n_rows: 2, n_cols: 2, nnz: 5 };
    let entries = vec![(0u32, 0u32, 1u32)];
    let err = ExprCsc::from_entries(&header, &entries, 2, 2, false).unwrap_err();
    assert_eq!(err, InputError::InvalidMtxDimensions(DimsIssue::NnzMismatch));
    assert!(ExprCsc::from_entries(&header, &entries, 2, 2, true).is_ok());
}

#[test]
fn column_out_of_bounds_rejected_even_when_fast() {
    let header = MatrixHeader { n_rows: 2, n_cols: 2, nnz: 1 };
    let entries = vec![(2u32, 0u32, 1u32)];
    for fast in [false, true] {
        let err = ExprCsc::from_entries(&header, &entries, 2, 2, fast).unwrap_err();
        assert_eq!(err, InputError::InvalidMtxDimensions(DimsIssue::ColumnOutOfBounds));
    }
}

#[test]
fn row_out_of_bounds_rejected_unless_fast() {
    let header = MatrixHeader { n_rows: 2, n_cols: 2, nnz: 1 };
    let entries = vec![(1u32, 2u32, 1u32)];
    let err = ExprCsc::from_entries(&header, &entries, 2, 2, false).unwrap_err();
    assert_eq!(err, InputError::InvalidMtxDimensions(DimsIssue::RowOutOfBounds));
    let (csc, _) = ExprCsc::from_entries(&header, &entries, 2, 2, true).expect("fast");
    assert_eq!(csc.row_idx, vec![2]);
}
