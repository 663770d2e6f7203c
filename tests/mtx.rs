use kira_secretion::error::{DimsIssue, HeaderIssue, InputError, RowIssue};
use kira_secretion::mtx::{count_nnz_lines, read_barcodes, read_entries, read_features, read_header};

#[test]
fn parse_header_and_dims() {
    let text = "%%MatrixMarket matrix coordinate integer general\n% comment\n2 3 4\n1 1 1\n";
    let header = read_header(text.as_bytes()).expect("read header");
    assert_eq!(header.n_rows, 2);
    assert_eq!(header.n_cols, 3);
    assert_eq!(header.nnz, 4);
}

#[test]
fn banner_is_case_insensitive_and_crlf_tolerant() {
    let text = "%%matrixmarket MATRIX Coordinate Integer general\r\n\r\n7 5 2\r\n";
    let header = read_header(text.as_bytes()).expect("read header");
    assert_eq!((header.n_rows, header.n_cols, header.nnz), (7, 5, 2));
}

#[test]
fn banner_errors() {
    assert_eq!(read_header(b"").unwrap_err(), InputError::InvalidMtxHeader(HeaderIssue::EmptyFile));
    assert_eq!(
        read_header(b"%%MatrixMarket matrix\n1 1 1\n").unwrap_err(),
        InputError::InvalidMtxHeader(HeaderIssue::ExpectedBanner)
    );
    assert_eq!(
        read_header(b"%%MatrixMarket matrix array real general\n1 1 1\n").unwrap_err(),
        InputError::InvalidMtxHeader(HeaderIssue::UnsupportedFormat)
    );
}

#[test]
fn size_line_errors() {
    let banner = "%%MatrixMarket matrix coordinate integer general\n";
    let cases = [
        ("", DimsIssue::MissingDimensions),
        ("% only a comment\n", DimsIssue::MissingDimensions),
        ("1 2\n", DimsIssue::ExpectedThreeIntegers),
        ("x 2 3\n", DimsIssue::InvalidRows),
        ("1 -2 3\n", DimsIssue::InvalidCols),
        ("1 2 +\n", DimsIssue::InvalidNnz),
        ("0 2 3\n", DimsIssue::ZeroDimensions),
        ("1 0 3\n", DimsIssue::ZeroDimensions),
        ("1 1 0\n", DimsIssue::ZeroDimensions),
    ];
    for (rest, issue) in cases {
        let text = format!("{banner}{rest}");
        assert_eq!(read_header(text.as_bytes()).unwrap_err(), InputError::InvalidMtxDimensions(issue));
    }
}

#[test]
fn entries_are_zero_based_in_file_order() {
    let text = "%%MatrixMarket matrix coordinate integer general\n3 2 3\n2 1 5\n\n% c\n+1 2 7\n3\t1  9 extra\n";
    let (header, entries) = read_entries(text.as_bytes()).expect("entries");
    assert_eq!(header.nnz, 3);
    assert_eq!(entries, vec![(0, 1, 5), (1, 0, 7), (0, 2, 9)]);
}

#[test]
fn entry_errors() {
    let head = "%%MatrixMarket matrix coordinate integer general\n3 3 1\n";
    let cases = [
        ("1 1\n", InputError::InvalidTsvRow { line: 0, reason: RowIssue::InvalidMtxEntry }),
        ("a 1 1\n", InputError::InvalidMtxDimensions(DimsIssue::InvalidRow)),
        ("1 b 1\n", InputError::InvalidMtxDimensions(DimsIssue::InvalidCol)),
        ("1 1 4294967296\n", InputError::InvalidMtxDimensions(DimsIssue::InvalidValue)),
        ("0 1 1\n", InputError::InvalidMtxDimensions(DimsIssue::NotOneBased)),
    ];
    for (rest, err) in cases {
        let text = format!("{head}{rest}");
        assert_eq!(read_entries(text.as_bytes()).unwrap_err(), err);
    }
}

#[test]
fn counts_data_lines() {
    let text = "%%MatrixMarket matrix coordinate integer general\n3 3 2\n1 1 1\n% c\n\n2 2 2\n3 3 3";
    assert_eq!(count_nnz_lines(text.as_bytes()).expect("count"), 3);
    assert_eq!(count_nnz_lines(b"").unwrap_err(), InputError::InvalidMtxHeader(HeaderIssue::EmptyFile));
}

#[test]
fn reads_barcodes() {
    assert_eq!(read_barcodes(b"c1\nc2\r\nc3").expect("barcodes"), vec!["c1", "c2", "c3"]);
    assert_eq!(read_barcodes(b"c1\n\nc3\n").unwrap_err(), InputError::EmptyBarcode(2));
    assert_eq!(
        read_barcodes(b"").unwrap_err(),
        InputError::InvalidTsvRow { line: 0, reason: RowIssue::NoBarcodes }
    );
    assert_eq!(read_barcodes(b"ok\n\xff\n").unwrap_err(), InputError::InvalidUtf8(2));
}

#[test]
fn reads_feature_rows() {
    let rows = read_features(b"f1\tG1\nf2\tG1\tGene Expression\r\nf3\tG2").expect("features");
    let pairs: Vec<(String, String)> = rows.into_iter().map(|r| (r.id, r.symbol)).collect();
    assert_eq!(
        pairs,
        vec![
            ("f1".to_string(), "G1".to_string()),
            ("f2".to_string(), "G1".to_string()),
            ("f3".to_string(), "G2".to_string())
        ]
    );
    assert_eq!(
        read_features(b"f1\tG1\n\n").unwrap_err(),
        InputError::InvalidTsvRow { line: 2, reason: RowIssue::EmptyRow }
    );
    assert_eq!(
        read_features(b"f1\n").unwrap_err(),
        InputError::InvalidTsvRow { line: 1, reason: RowIssue::ExpectedTwoColumns }
    );
    assert_eq!(
        read_features(b"\tG1\n").unwrap_err(),
        InputError::InvalidTsvRow { line: 1, reason: RowIssue::ExpectedTwoColumns }
    );
    assert_eq!(
        read_features(b"").unwrap_err(),
        InputError::InvalidTsvRow { line: 0, reason: RowIssue::NoFeatureRows }
    );
}
