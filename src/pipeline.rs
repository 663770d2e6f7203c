//! Run-level decisions: where a dataset is loaded from, the checks on its
//! shape, and the uniform per-cell access over both matrix backends.

use vstd::prelude::*;

use crate::cache::CacheError;
use crate::csc::ExprCsc;
use crate::error::InputError;
use crate::mapped::{SharedCacheMapped, SharedCacheMetadata};
use crate::mtx::MatrixHeader;
use crate::panels::{accumulate_cell, contribs_upto, hits_upto, rev_view, CellPanelHits};

verus! {

/// Whether the run stands alone or is one step of a pipeline that may
/// have left a shared cache behind.
#[derive(Debug, Clone, Copy, PartialEq, Eq, Structural)]
pub enum RunMode {
    Standalone,
    Pipeline,
}

/// Why loading a dataset failed.
#[derive(Debug, Clone, PartialEq, Eq)]
pub enum Stage1Error {
    Input(InputError),
    Cache(CacheError),
    DimensionMismatch { expected_rows: usize, expected_cols: usize, found_rows: usize, found_cols: usize },
    NnzMismatch { expected: usize, found: usize },
}

/// Why preparing the expression matrix failed.
#[derive(Debug, Clone, PartialEq, Eq)]
pub enum Stage2Error {
    Input(InputError),
    Cache(CacheError),
}

/// Why the panel stage failed: its report could not be written, or an
/// input was invalid.
#[derive(Debug, Clone, PartialEq, Eq)]
pub enum Stage3Error {
    Io(String),
    Input(InputError),
}

/// A row of a features file: feature id and gene symbol.
#[derive(Debug, Clone, PartialEq, Eq)]
pub struct FeatureRow {
    pub id: String,
    pub symbol: String,
}

/// A gene symbol seen again at a later row (rows are 1-based).
#[derive(Debug, Clone, PartialEq, Eq)]
pub struct DuplicateGene {
    pub symbol: String,
    pub first_row: usize,
    pub dup_row: usize,
}

/// Where a dataset comes from.
#[derive(Debug, Clone, PartialEq, Eq)]
pub enum DatasetSource {
    /// Read the shared cache at this path; its failures are fatal.
    SharedCache(String),
    /// Parse the text inputs, recording where a shared cache would be.
    FreshParse { resolved_cache: Option<String> },
}

/// Chooses the source. In pipeline mode an explicit cache path wins, then
/// a cache found in the input directory; without either the text inputs
/// are parsed and the expected cache path is recorded. A standalone run
/// always parses the text inputs.
pub fn plan_dataset_source(
    run_mode: RunMode,
    cache_override: Option<String>,
    found_cache: Option<String>,
    expected_cache: String,
    standalone_cache: Option<String>,
) -> (r: DatasetSource)
    ensures
        run_mode == RunMode::Standalone ==> r == (DatasetSource::FreshParse { resolved_cache: standalone_cache }),
        run_mode == RunMode::Pipeline ==> r == plan_spec(run_mode, cache_override, found_cache, expected_cache, standalone_cache),
{
    match run_mode {
        RunMode::Standalone => DatasetSource::FreshParse { resolved_cache: standalone_cache },
        RunMode::Pipeline => match cache_override {
            Some(p) => DatasetSource::SharedCache(p),
            None => match found_cache {
                Some(p) => DatasetSource::SharedCache(p),
                None => DatasetSource::FreshParse { resolved_cache: Some(expected_cache) },
            },
        },
    }
}

/// The outcome of reading the shared cache that was planned: its metadata,
/// or its error as a load failure. A cache that is present but invalid is
/// never taken for a missing one.
pub fn shared_cache_outcome(read: Result<SharedCacheMetadata, CacheError>) -> (r: Result<SharedCacheMetadata, Stage1Error>)
    ensures
        match read {
            Ok(m) => r == Ok::<SharedCacheMetadata, Stage1Error>(m),
            Err(e) => r == Err::<SharedCacheMetadata, Stage1Error>(Stage1Error::Cache(e)),
        },
{
    match read {
        Ok(m) => Ok(m),
        Err(e) => Err(Stage1Error::Cache(e)),
    }
}

/// In pipeline mode without an explicit path, a missing cache leads to a
/// fresh parse that records the expected cache path, and a present cache
/// is always read, so that reading it decides the outcome: a corrupt cache
/// fails the load and never falls back to parsing.
pub proof fn lemma_cache_fallback_policy(found: Option<String>, expected: String, sc: Option<String>, read: Result<SharedCacheMetadata, CacheError>)
    ensures
        found is None ==> plan_spec(RunMode::Pipeline, None, found, expected, sc)
            == (DatasetSource::FreshParse { resolved_cache: Some(expected) }),
        found matches Some(p) ==> plan_spec(RunMode::Pipeline, None, found, expected, sc) == DatasetSource::SharedCache(p),
        read matches Err(e) ==> outcome_spec(read) == Err::<SharedCacheMetadata, Stage1Error>(Stage1Error::Cache(e)),
{
}

/// What `plan_dataset_source` returns.
pub open spec fn plan_spec(
    run_mode: RunMode,
    cache_override: Option<String>,
    found_cache: Option<String>,
    expected_cache: String,
    standalone_cache: Option<String>,
) -> DatasetSource {
    match run_mode {
        RunMode::Standalone => DatasetSource::FreshParse { resolved_cache: standalone_cache },
        RunMode::Pipeline => match cache_override {
            Some(p) => DatasetSource::SharedCache(p),
            None => match found_cache {
                Some(p) => DatasetSource::SharedCache(p),
                None => DatasetSource::FreshParse { resolved_cache: Some(expected_cache) },
            },
        },
    }
}

/// What `shared_cache_outcome` returns.
pub open spec fn outcome_spec(read: Result<SharedCacheMetadata, CacheError>) -> Result<SharedCacheMetadata, Stage1Error> {
    match read {
        Ok(m) => Ok(m),
        Err(e) => Err(Stage1Error::Cache(e)),
    }
}

/// Checks a parsed header against the feature and barcode counts, then,
/// when a count of data lines is given, the declared number of entries.
pub fn check_dataset_shape(n_genes: usize, n_cells: usize, header: &MatrixHeader, counted_nnz: Option<usize>) -> (r: Result<(), Stage1Error>)
    ensures
        header.n_rows != n_genes || header.n_cols != n_cells ==> r == Err::<(), Stage1Error>(
            Stage1Error::DimensionMismatch {
                expected_rows: n_genes,
                expected_cols: n_cells,
                found_rows: header.n_rows,
                found_cols: header.n_cols,
            },
        ),
        header.n_rows == n_genes && header.n_cols == n_cells ==> r == match counted_nnz {
            Some(c) => if c != header.nnz {
                Err::<(), Stage1Error>(Stage1Error::NnzMismatch { expected: header.nnz, found: c })
            } else {
                Ok(())
            },
            None => Ok(()),
        },
{
    if header.n_rows != n_genes || header.n_cols != n_cells {
        return Err(Stage1Error::DimensionMismatch {
            expected_rows: n_genes,
            expected_cols: n_cells,
            found_rows: header.n_rows,
            found_cols: header.n_cols,
        });
    }
    match counted_nnz {
        Some(c) => {
            if c != header.nnz {
                return Err(Stage1Error::NnzMismatch { expected: header.nnz, found: c });
            }
            Ok(())
        },
        None => Ok(()),
    }
}

/// An expression matrix held either as built arrays or as a mapped shared
/// container, read through one per-cell contract.
pub enum ExprMatrix {
    Owned(ExprCsc),
    Shared(SharedCacheMapped),
}

impl ExprMatrix {
    pub open spec fn wf(&self) -> bool {
        match self {
            ExprMatrix::Owned(e) => e.wf(),
            ExprMatrix::Shared(m) => m.wf(),
        }
    }

    pub open spec fn spec_n_genes(&self) -> usize {
        match self {
            ExprMatrix::Owned(e) => e.n_genes,
            ExprMatrix::Shared(m) => m.n_genes,
        }
    }

    pub open spec fn spec_n_cells(&self) -> usize {
        match self {
            ExprMatrix::Owned(e) => e.n_cells,
            ExprMatrix::Shared(m) => m.n_cells,
        }
    }

    pub open spec fn spec_nnz(&self) -> usize {
        match self {
            ExprMatrix::Owned(e) => e.nnz,
            ExprMatrix::Shared(m) => m.nnz,
        }
    }

    /// The `(row, count)` pairs of cell `c`, in stored order.
    pub open spec fn cell_view(&self, c: int) -> Seq<(u32, u32)> {
        match self {
            ExprMatrix::Owned(e) => e.cell_view(c),
            ExprMatrix::Shared(m) => m.cell_view(c),
        }
    }

    pub fn n_genes(&self) -> (r: usize)
        ensures
            r == self.spec_n_genes(),
    {
        match self {
            ExprMatrix::Owned(e) => e.n_genes,
            ExprMatrix::Shared(m) => m.n_genes,
        }
    }

    pub fn n_cells(&self) -> (r: usize)
        ensures
            r == self.spec_n_cells(),
    {
        match self {
            ExprMatrix::Owned(e) => e.n_cells,
            ExprMatrix::Shared(m) => m.n_cells,
        }
    }

    pub fn nnz(&self) -> (r: usize)
        ensures
            r == self.spec_nnz(),
    {
        match self {
            ExprMatrix::Owned(e) => e.nnz,
            ExprMatrix::Shared(m) => m.nnz,
        }
    }

    /// The `(row, count)` pairs of cell `cell_idx`, in stored order, from
    /// either backend.
    pub fn cell_raw(&self, cell_idx: usize) -> (r: Vec<(u32, u32)>)
        requires
            self.wf(),
            cell_idx < self.spec_n_cells(),
        ensures
            r@ == self.cell_view(cell_idx as int),
    {
        match self {
            ExprMatrix::Owned(e) => e.iter_cell_raw(cell_idx),
            ExprMatrix::Shared(m) => m.cell_raw(cell_idx),
        }
    }

    /// The panel scatter of one cell: hit counts per panel and the
    /// contributions to sum, whichever backend holds the matrix.
    pub fn panel_hits(&self, cell_idx: usize, rev: &Vec<Vec<(usize, usize)>>, n_panels: usize) -> (r: CellPanelHits)
        requires
            self.wf(),
            cell_idx < self.spec_n_cells(),
            self.cell_view(cell_idx as int).len() <= u32::MAX,
            forall|row: int, i: int|
                0 <= row < rev@.len() && 0 <= i < rev@[row]@.len() ==> (#[trigger] rev@[row]@[i]).0 < n_panels,
        ensures
            r.hits@.len() == n_panels,
            forall|p: int|
                0 <= p < n_panels ==> #[trigger] r.hits@[p] == hits_upto(
                    self.cell_view(cell_idx as int),
                    rev_view(rev@),
                    p,
                    self.cell_view(cell_idx as int).len() as int,
                ),
            r.contributions@ == contribs_upto(
                self.cell_view(cell_idx as int),
                rev_view(rev@),
                self.cell_view(cell_idx as int).len() as int,
            ),
    {
        let cell = self.cell_raw(cell_idx);
        accumulate_cell(&cell, rev, n_panels)
    }
}

} // verus!
