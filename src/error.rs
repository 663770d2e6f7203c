//! Errors raised while reading the text inputs.

use vstd::prelude::*;

verus! {

/// What is wrong with a MatrixMarket banner line.
#[derive(Debug, Clone, Copy, PartialEq, Eq, Structural)]
pub enum HeaderIssue {
    EmptyFile,
    ExpectedBanner,
    UnsupportedFormat,
}

/// What is wrong with a MatrixMarket size line, an entry, or the matrix
/// as a whole.
#[derive(Debug, Clone, Copy, PartialEq, Eq, Structural)]
pub enum DimsIssue {
    MissingDimensions,
    ExpectedThreeIntegers,
    InvalidRows,
    InvalidCols,
    InvalidNnz,
    ZeroDimensions,
    InvalidRow,
    InvalidCol,
    InvalidValue,
    NotOneBased,
    DimsMismatch,
    NnzMismatch,
    ColumnOutOfBounds,
    RowOutOfBounds,
    CounterOverflow,
}

/// What is wrong with a row of a tab-separated or line-oriented file.
#[derive(Debug, Clone, Copy, PartialEq, Eq, Structural)]
pub enum RowIssue {
    InvalidMtxEntry,
    EmptyRow,
    ExpectedTwoColumns,
    NoFeatureRows,
    NoBarcodes,
    BothFeatureFiles,
    MultiplePrefixes,
    EmptyMetaFile,
}

/// An input that cannot be read as the layout requires.
#[derive(Debug, Clone, PartialEq, Eq)]
pub enum InputError {
    MissingFile(String),
    InvalidMtxHeader(HeaderIssue),
    InvalidMtxDimensions(DimsIssue),
    InvalidTsvRow { line: usize, reason: RowIssue },
    EmptyBarcode(usize),
    MissingMetaColumn(String),
    MissingMetaCellId(usize),
    GzipNotEnabled(String),
    InvalidUtf8(usize),
}

impl HeaderIssue {
    pub fn message(&self) -> &'static str {
        match self {
            HeaderIssue::EmptyFile => "empty file",
            HeaderIssue::ExpectedBanner => "expected MatrixMarket banner",
            HeaderIssue::UnsupportedFormat => "unsupported MatrixMarket format",
        }
    }
}

impl DimsIssue {
    pub fn message(&self) -> &'static str {
        match self {
            DimsIssue::MissingDimensions => "missing dimensions",
            DimsIssue::ExpectedThreeIntegers => "expected three integers",
            DimsIssue::InvalidRows => "invalid rows",
            DimsIssue::InvalidCols => "invalid cols",
            DimsIssue::InvalidNnz => "invalid nnz",
            DimsIssue::ZeroDimensions => "zero dimensions",
            DimsIssue::InvalidRow => "invalid row",
            DimsIssue::InvalidCol => "invalid col",
            DimsIssue::InvalidValue => "invalid value",
            DimsIssue::NotOneBased => "matrix indices must be 1-based",
            DimsIssue::DimsMismatch => "matrix dims do not match stage1",
            DimsIssue::NnzMismatch => "nnz count does not match header",
            DimsIssue::ColumnOutOfBounds => "column index out of bounds",
            DimsIssue::RowOutOfBounds => "row index out of bounds",
            DimsIssue::CounterOverflow => "a cell's libsize or detected count exceeds its counter",
        }
    }
}

impl RowIssue {
    pub fn message(&self) -> &'static str {
        match self {
            RowIssue::InvalidMtxEntry => "invalid mtx entry",
            RowIssue::EmptyRow => "empty row",
            RowIssue::ExpectedTwoColumns => "expected at least 2 columns",
            RowIssue::NoFeatureRows => "no feature rows found",
            RowIssue::NoBarcodes => "no barcodes found",
            RowIssue::BothFeatureFiles => "both features.tsv and genes.tsv present",
            RowIssue::MultiplePrefixes => "multiple dataset prefixes detected",
            RowIssue::EmptyMetaFile => "empty meta file",
        }
    }
}

} // verus!
