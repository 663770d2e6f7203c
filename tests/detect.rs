use kira_secretion::detect::{detect_10x_layout, detect_prefix_in, prefix_from_name, resolve_shared_cache_file_name, TenXFormat};
use kira_secretion::error::{InputError, RowIssue};

#[test]
fn resolves_cache_name() {
    assert_eq!(resolve_shared_cache_file_name(None), "kira-organelle.bin");
    assert_eq!(
        resolve_shared_cache_file_name(Some("XYZ")),
        "XYZ.kira-organelle.bin"
    );
}

#[test]
fn empty_prefix_gives_default_cache_name() {
    assert_eq!(resolve_shared_cache_file_name(Some("")), "kira-organelle.bin");
}

#[test]
fn tenx_format_names() {
    assert_eq!(TenXFormat::TenXv2.as_str(), "tenx_v2");
    assert_eq!(TenXFormat::TenXv3.as_str(), "tenx_v3");
    assert_eq!(TenXFormat::Unknown.as_str(), "unknown");
}

#[test]
fn prefix_of_file_names() {
    assert_eq!(prefix_from_name("ABC_matrix.mtx", "matrix.mtx"), Some("ABC".to_string()));
    assert_eq!(prefix_from_name("ABC_matrix.mtx.gz", "matrix.mtx"), Some("ABC".to_string()));
    assert_eq!(prefix_from_name("matrix.mtx", "matrix.mtx"), None);
    assert_eq!(prefix_from_name("_matrix.mtx", "matrix.mtx"), None);
    assert_eq!(prefix_from_name("A_matrix.mtx_matrix.mtx", "matrix.mtx"), Some("A".to_string()));
    assert_eq!(prefix_from_name("ABC_genes.tsv", "matrix.mtx"), None);
}

#[test]
fn prefix_detected_from_names() {
    let none = vec!["matrix.mtx".to_string(), "features.tsv".to_string()];
    assert_eq!(detect_prefix_in(&none), Ok(None));
    let one = vec![
        "ABC_matrix.mtx".to_string(),
        "notes.txt".to_string(),
        "ABC_barcodes.tsv.gz".to_string(),
    ];
    assert_eq!(detect_prefix_in(&one), Ok(Some("ABC".to_string())));
    let two = vec!["ABC_matrix.mtx".to_string(), "XYZ_genes.tsv".to_string()];
    assert_eq!(
        detect_prefix_in(&two),
        Err(InputError::InvalidTsvRow { line: 0, reason: RowIssue::MultiplePrefixes })
    );
}

#[test]
fn layout_from_found_files() {
    let s = |x: &str| Some(x.to_string());
    let v3 = detect_10x_layout(s("b.tsv"), s("m.mtx"), s("f.tsv"), None, None).expect("v3");
    assert_eq!(v3.format, TenXFormat::TenXv3);
    assert_eq!(v3.features_path, "f.tsv");
    let v2 = detect_10x_layout(s("b.tsv"), s("m.mtx"), None, s("g.tsv"), s("P")).expect("v2");
    assert_eq!(v2.format, TenXFormat::TenXv2);
    assert_eq!(v2.features_path, "g.tsv");
    assert_eq!(v2.prefix, s("P"));
    assert_eq!(
        detect_10x_layout(None, s("m.mtx"), s("f.tsv"), None, None).unwrap_err(),
        InputError::MissingFile("barcodes.tsv[.gz]".to_string())
    );
    assert_eq!(
        detect_10x_layout(s("b.tsv"), None, s("f.tsv"), None, None).unwrap_err(),
        InputError::MissingFile("matrix.mtx[.gz]".to_string())
    );
    assert_eq!(
        detect_10x_layout(s("b.tsv"), s("m.mtx"), s("f.tsv"), s("g.tsv"), None).unwrap_err(),
        InputError::InvalidTsvRow { line: 0, reason: RowIssue::BothFeatureFiles }
    );
    assert_eq!(
        detect_10x_layout(s("b.tsv"), s("m.mtx"), None, None, None).unwrap_err(),
        InputError::MissingFile("features.tsv/genes.tsv[.gz]".to_string())
    );
}
