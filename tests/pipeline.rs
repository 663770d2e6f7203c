use kira_secretion::cache::{CacheError, FormatIssue};
use kira_secretion::mtx::MatrixHeader;
use kira_secretion::pipeline::{
    check_dataset_shape, plan_dataset_source, shared_cache_outcome, DatasetSource, RunMode, Stage1Error,
};

#[test]
fn absent_cache_falls_back_to_fresh_parse() {
    let plan = plan_dataset_source(RunMode::Pipeline, None, None, "in/kira-organelle.bin".to_string(), None);
    assert_eq!(plan, DatasetSource::FreshParse { resolved_cache: Some("in/kira-organelle.bin".to_string()) });
}

#[test]
fn present_cache_is_used_and_its_errors_are_fatal() {
    let plan = plan_dataset_source(
        RunMode::Pipeline,
        None,
        Some("in/GSM1.kira-organelle.bin".to_string()),
        "in/kira-organelle.bin".to_string(),
        None,
    );
    assert_eq!(plan, DatasetSource::SharedCache("in/GSM1.kira-organelle.bin".to_string()));
    let err = shared_cache_outcome(Err(CacheError::InvalidMagic)).unwrap_err();
    assert_eq!(err, Stage1Error::Cache(CacheError::InvalidMagic));
    let err = shared_cache_outcome(Err(CacheError::InvalidFormat(FormatIssue::HeaderCrcMismatch))).unwrap_err();
    assert_eq!(err, Stage1Error::Cache(CacheError::InvalidFormat(FormatIssue::HeaderCrcMismatch)));
}

#[test]
fn override_and_standalone_plans() {
    let plan = plan_dataset_source(
        RunMode::Pipeline,
        Some("x.bin".to_string()),
        Some("y.bin".to_string()),
        "z.bin".to_string(),
        None,
    );
    assert_eq!(plan, DatasetSource::SharedCache("x.bin".to_string()));
    let plan = plan_dataset_source(RunMode::Standalone, None, Some("y.bin".to_string()), "z.bin".to_string(), None);
    assert_eq!(plan, DatasetSource::FreshParse { resolved_cache: None });
}

#[test]
fn dataset_shape_checks() {
    let h = MatrixHeader { n_rows: 2, n_cols: 4, nnz: 3 };
    assert_eq!(
        check_dataset_shape(2, 3, &h, None).unwrap_err(),
        Stage1Error::DimensionMismatch { expected_rows: 2, expected_cols: 3, found_rows: 2, found_cols: 4 }
    );
    let h = MatrixHeader { n_rows: 2, n_cols: 3, nnz: 3 };
    assert!(check_dataset_shape(2, 3, &h, None).is_ok());
    assert!(check_dataset_shape(2, 3, &h, Some(3)).is_ok());
    assert_eq!(
        check_dataset_shape(2, 3, &h, Some(2)).unwrap_err(),
        Stage1Error::NnzMismatch { expected: 3, found: 2 }
    );
}
