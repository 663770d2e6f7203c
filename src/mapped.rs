//! Read-only view over a validated shared container held in a memory map.

use std::sync::Arc;

use vstd::prelude::*;

use crate::cache::{
    FormatIssue,
    cp_at, row_at, shared_issue, lemma_valid_cache_is_csc, hdr_col_ptr_offset, hdr_row_idx_offset,
    hdr_n_cells, hdr_n_genes, table_decoded, u32_at, validate_shared_cache, CacheError,
    SharedLayout, hdr_genes_offset, hdr_barcodes_offset,
};
use crate::csc::CellStats;
use crate::simd::{seq_sum, sum_u32};

verus! {

#[verifier::external_type_specification]
#[verifier::external_body]
pub struct ExMmap(memmap2::Mmap);

/// The bytes that a read-only mapping shows. They stay fixed while the
/// mapping lives: `memmap2::Mmap::map` makes it the caller's duty that the
/// file is not modified meanwhile.
pub uninterp spec fn mapped_bytes(m: memmap2::Mmap) -> Seq<u8>;

/// Relies on `<memmap2::Mmap as Deref>::deref`: the slice over the mapped
/// bytes. The mapping is read-only and never written through.
#[verifier::external_body]
fn mmap_slice(m: &memmap2::Mmap) -> (r: &[u8])
    ensures
        r@ == mapped_bytes(*m),
{
    &m[..]
}

/// Value `i` of the array at `vo`.
pub open spec fn value_at(b: Seq<u8>, vo: int, i: int) -> u32 {
    u32_at(b, vo + 4 * i)
}

pub open spec fn min_int(a: int, b: int) -> int {
    if a <= b { a } else { b }
}

pub open spec fn max_int(a: int, b: int) -> int {
    if a >= b { a } else { b }
}

/// A validated shared container, kept mapped. Gene and barcode tables are
/// decoded once; the CSC arrays are read in place.
pub struct SharedCacheMapped {
    pub mmap: Arc<memmap2::Mmap>,
    pub n_genes: usize,
    pub n_cells: usize,
    pub nnz: usize,
    pub genes: Vec<String>,
    pub barcodes: Vec<String>,
    pub col_ptr_offset: usize,
    pub row_idx_offset: usize,
    pub values_offset: usize,
}

/// Shape and string tables of a shared container.
#[derive(Debug, Clone)]
pub struct SharedCacheMetadata {
    pub n_genes: usize,
    pub n_cells: usize,
    pub nnz: usize,
    pub genes: Vec<String>,
    pub barcodes: Vec<String>,
}

impl SharedCacheMapped {
    pub open spec fn bytes(&self) -> Seq<u8> {
        mapped_bytes(*self.mmap)
    }

    pub open spec fn layout(&self) -> SharedLayout {
        SharedLayout {
            n_genes: self.n_genes,
            n_cells: self.n_cells,
            nnz: self.nnz,
            col_ptr_offset: self.col_ptr_offset,
            row_idx_offset: self.row_idx_offset,
            values_offset: self.values_offset,
        }
    }

    /// The mapping passed validation (structural checks aside) and the
    /// fields are what its header says.
    pub open spec fn wf(&self) -> bool {
        &&& shared_issue(self.bytes(), false) is None
        &&& self.layout().of_header(self.bytes())
        &&& self.layout().fits(self.bytes().len() as int)
        &&& table_decoded(self.genes@, self.bytes(), hdr_genes_offset(self.bytes()) as int, self.n_genes as int)
        &&& table_decoded(self.barcodes@, self.bytes(), hdr_barcodes_offset(self.bytes()) as int, self.n_cells as int)
    }

    /// The mapping also passed the structural CSC checks.
    pub open spec fn strict_wf(&self) -> bool {
        self.wf() && shared_issue(self.bytes(), true) is None
    }

    pub open spec fn spec_col_ptr(&self, i: int) -> u64 {
        cp_at(self.bytes(), self.layout().col_ptr_offset as int, i)
    }

    pub open spec fn spec_row_idx(&self, i: int) -> u32 {
        row_at(self.bytes(), self.layout().row_idx_offset as int, i)
    }

    pub open spec fn spec_value(&self, i: int) -> u32 {
        value_at(self.bytes(), self.layout().values_offset as int, i)
    }

    /// The entries of cell `c`: its pointer pair, kept inside `0 ..= nnz`
    /// and in order, so that reading a cell never leaves the arrays. On a
    /// structurally valid mapping it is the pointer pair itself.
    pub open spec fn cell_range(&self, c: int) -> (int, int) {
        let start = min_int(self.spec_col_ptr(c) as int, self.nnz as int);
        let end = min_int(max_int(self.spec_col_ptr(c + 1) as int, start), self.nnz as int);
        (start, end)
    }

    /// The `(row, count)` pairs of cell `c`, in stored order.
    pub open spec fn cell_view(&self, c: int) -> Seq<(u32, u32)> {
        let (start, end) = self.cell_range(c);
        Seq::new((end - start) as nat, |k: int| (self.spec_row_idx(start + k), self.spec_value(start + k)))
    }

    /// The raw counts of cell `c`, in stored order.
    pub open spec fn cell_values(&self, c: int) -> Seq<u32> {
        self.cell_view(c).map_values(|p: (u32, u32)| p.1)
    }

    /// Validates the mapped bytes and keeps the mapping. Structural checks
    /// of the CSC arrays run only when `validate_csc_strict`.
    pub fn parse_shared_cache(mmap: Arc<memmap2::Mmap>, validate_csc_strict: bool) -> (r: Result<Self, CacheError>)
        ensures
            match shared_issue(mapped_bytes(*mmap), validate_csc_strict) {
                Some(e) => r == Err::<Self, CacheError>(e),
                None => r matches Ok(m) && m.wf() && m.bytes() == mapped_bytes(*mmap)
                    && (validate_csc_strict ==> m.strict_wf()),
            },
    {
        let content = {
            let b = mmap_slice(&*mmap);
            proof {
                lemma_strict_extends(b@);
            }
            validate_shared_cache(b, validate_csc_strict)
        };
        match content {
            Ok(c) => {
                let m = SharedCacheMapped {
                    mmap,
                    n_genes: c.layout.n_genes,
                    n_cells: c.layout.n_cells,
                    nnz: c.layout.nnz,
                    genes: c.genes,
                    barcodes: c.barcodes,
                    col_ptr_offset: c.layout.col_ptr_offset,
                    row_idx_offset: c.layout.row_idx_offset,
                    values_offset: c.layout.values_offset,
                };
                assert(m.layout() == c.layout);
                Ok(m)
            },
            Err(e) => Err(e),
        }
    }

    /// Maps without the structural pass, for bytes a producer already
    /// checked; if that parse fails for any reason, the strict parse runs
    /// and its result is returned, so a corrupt file is never accepted.
    pub fn parse_shared_cache_unchecked(mmap: Arc<memmap2::Mmap>) -> (r: Result<Self, CacheError>)
        ensures
            match shared_issue(mapped_bytes(*mmap), false) {
                Some(e) => r == Err::<Self, CacheError>(e) && shared_issue(mapped_bytes(*mmap), true) == Some(e),
                None => r matches Ok(m) && m.wf() && m.bytes() == mapped_bytes(*mmap),
            },
    {
        {
            let b = mmap_slice(&*mmap);
            proof {
                lemma_strict_extends(b@);
            }
        }
        let again = mmap.clone();
        match Self::parse_shared_cache(mmap, false) {
            Ok(m) => Ok(m),
            Err(_) => Self::parse_shared_cache(again, true),
        }
    }

    pub fn metadata(&self) -> (r: SharedCacheMetadata)
        ensures
            r.n_genes == self.n_genes,
            r.n_cells == self.n_cells,
            r.nnz == self.nnz,
            r.genes@.len() == self.genes@.len(),
            forall|i: int| 0 <= i < self.genes@.len() ==> (#[trigger] r.genes@[i])@ == self.genes@[i]@,
            r.barcodes@.len() == self.barcodes@.len(),
            forall|i: int| 0 <= i < self.barcodes@.len() ==> (#[trigger] r.barcodes@[i])@ == self.barcodes@[i]@,
    {
        SharedCacheMetadata {
            n_genes: self.n_genes,
            n_cells: self.n_cells,
            nnz: self.nnz,
            genes: self.genes.clone(),
            barcodes: self.barcodes.clone(),
        }
    }

    /// Column pointer `i`.
    pub fn col_ptr_at(&self, i: usize) -> (r: u64)
        requires
            self.wf(),
            i <= self.n_cells,
        ensures
            r == self.spec_col_ptr(i as int),
    {
        let b = mmap_slice(&*self.mmap);
        let len = b.len();
        assert(self.col_ptr_offset + i * 8 + 8 <= len);
        read_u64_at(b, self.col_ptr_offset + i * 8)
    }

    /// Row index `i`.
    pub fn row_idx_at(&self, i: usize) -> (r: u32)
        requires
            self.wf(),
            i < self.nnz,
        ensures
            r == self.spec_row_idx(i as int),
    {
        let b = mmap_slice(&*self.mmap);
        let len = b.len();
        assert(self.row_idx_offset + i * 4 + 4 <= len);
        read_u32_at(b, self.row_idx_offset + i * 4)
    }

    /// Raw count `i`.
    pub fn value_at(&self, i: usize) -> (r: u32)
        requires
            self.wf(),
            i < self.nnz,
        ensures
            r == self.spec_value(i as int),
    {
        let b = mmap_slice(&*self.mmap);
        let len = b.len();
        assert(self.values_offset + i * 4 + 4 <= len);
        read_u32_at(b, self.values_offset + i * 4)
    }

    fn cell_bounds(&self, c: usize) -> (r: (usize, usize))
        requires
            self.wf(),
            c < self.n_cells,
        ensures
            r.0 == self.cell_range(c as int).0,
            r.1 == self.cell_range(c as int).1,
            r.0 <= r.1 <= self.nnz,
    {
        let a = self.col_ptr_at(c);
        let z = self.col_ptr_at(c + 1);
        let nnz = self.nnz as u64;
        let start = if a <= nnz { a } else { nnz };
        let hi = if z >= start { z } else { start };
        let end = if hi <= nnz { hi } else { nnz };
        (start as usize, end as usize)
    }

    /// The `(row, count)` pairs of cell `c`, in stored order.
    pub fn cell_raw(&self, c: usize) -> (r: Vec<(u32, u32)>)
        requires
            self.wf(),
            c < self.n_cells,
        ensures
            r@ == self.cell_view(c as int),
    {
        let (start, end) = self.cell_bounds(c);
        let mut out: Vec<(u32, u32)> = Vec::with_capacity(end - start);
        let mut i: usize = start;
        while i < end
            invariant
                self.wf(),
                start <= i <= end <= self.nnz,
                start == self.cell_range(c as int).0,
                end == self.cell_range(c as int).1,
                out@ =~= self.cell_view(c as int).take(i - start),
            decreases end - i,
        {
            out.push((self.row_idx_at(i), self.value_at(i)));
            i = i + 1;
        }
        out
    }

    /// Some cell among the first `k` holds more entries than a 32-bit
    /// `detected` counter can count.
    pub open spec fn oversized_cell_upto(&self, k: int) -> bool {
        exists|c: int| 0 <= c < k && (#[trigger] self.cell_view(c)).len() > u32::MAX
    }

    /// Per-cell aggregates recomputed from the mapped arrays: `libsize` is
    /// the widened sum of the cell's counts, `detected` its number of
    /// entries (rows rise strictly within a validated column, so each entry
    /// is a distinct row). Works on mappings made without the structural
    /// pass too; a cell too large for its counter is an error, which a
    /// structurally valid mapping never has.
    pub fn compute_cell_stats(&self) -> (r: Result<Vec<CellStats>, CacheError>)
        requires
            self.wf(),
        ensures
            self.strict_wf() ==> r is Ok,
            self.oversized_cell_upto(self.n_cells as int) ==> r == Err::<Vec<CellStats>, CacheError>(
                CacheError::InvalidFormat(FormatIssue::CellTooLarge),
            ),
            !self.oversized_cell_upto(self.n_cells as int) ==> (r matches Ok(st) && st@.len() == self.n_cells
                && forall|c: int|
                0 <= c < self.n_cells ==> {
                    &&& (#[trigger] st@[c]).libsize == seq_sum(self.cell_values(c))
                    &&& st@[c].detected == self.cell_view(c).len()
                }),
    {
        let mut stats: Vec<CellStats> = Vec::with_capacity(self.n_cells);
        let mut c: usize = 0;
        while c < self.n_cells
            invariant
                self.wf(),
                c <= self.n_cells,
                stats@.len() == c,
                !self.oversized_cell_upto(c as int),
                forall|k: int| 0 <= k < c ==> {
                    &&& (#[trigger] stats@[k]).libsize == seq_sum(self.cell_values(k))
                    &&& stats@[k].detected == self.cell_view(k).len()
                },
            decreases self.n_cells - c,
        {
            let (start, end) = self.cell_bounds(c);
            if end - start > 0xFFFF_FFFF {
                proof {
                    assert(self.cell_view(c as int).len() > u32::MAX);
                    if self.strict_wf() {
                        lemma_cell_span(self, c as int);
                    }
                }
                return Err(CacheError::InvalidFormat(FormatIssue::CellTooLarge));
            }
            let mut vals: Vec<u32> = Vec::with_capacity(end - start);
            let mut i: usize = start;
            while i < end
                invariant
                    self.wf(),
                    start <= i <= end <= self.nnz,
                    start == self.cell_range(c as int).0,
                    end == self.cell_range(c as int).1,
                    vals@ =~= self.cell_values(c as int).take(i - start),
                decreases end - i,
            {
                vals.push(self.value_at(i));
                i = i + 1;
            }
            assert(vals@ =~= self.cell_values(c as int));
            let libsize = sum_u32(vals.as_slice());
            stats.push(CellStats { libsize, detected: (end - start) as u32 });
            proof {
                assert forall|k: int| 0 <= k < c + 1 implies (#[trigger] self.cell_view(k)).len() <= u32::MAX by {
                    if k < c {
                        assert(!(0 <= k < c && self.cell_view(k).len() > u32::MAX));
                    }
                }
            }
            c = c + 1;
        }
        Ok(stats)
    }
}

/// Validates a mapped shared container, strictly, and returns its shape and
/// string tables.
pub fn read_shared_cache_metadata(mmap: Arc<memmap2::Mmap>) -> (r: Result<SharedCacheMetadata, CacheError>)
    ensures
        match shared_issue(mapped_bytes(*mmap), true) {
            Some(e) => r == Err::<SharedCacheMetadata, CacheError>(e),
            None => r matches Ok(m) && m.n_genes == hdr_n_genes(mapped_bytes(*mmap))
                && m.n_cells == hdr_n_cells(mapped_bytes(*mmap)) && m.nnz == crate::cache::hdr_nnz(
                mapped_bytes(*mmap),
            ) && table_decoded(
                m.genes@,
                mapped_bytes(*mmap),
                hdr_genes_offset(mapped_bytes(*mmap)) as int,
                m.n_genes as int,
            ) && table_decoded(
                m.barcodes@,
                mapped_bytes(*mmap),
                hdr_barcodes_offset(mapped_bytes(*mmap)) as int,
                m.n_cells as int,
            ),
        },
{
    match SharedCacheMapped::parse_shared_cache(mmap, true) {
        Ok(m) => Ok(m.metadata()),
        Err(e) => Err(e),
    }
}

proof fn lemma_rows_climb(b: Seq<u8>, rio: int, start: int, k: int, end: int)
    requires
        start <= start + k < end,
        forall|i: int, j: int| start <= i < j < end ==> #[trigger] row_at(b, rio, i) < #[trigger] row_at(b, rio, j),
    ensures
        row_at(b, rio, start + k) >= k,
    decreases k,
{
    if k > 0 {
        lemma_rows_climb(b, rio, start, k - 1, end);
        assert(row_at(b, rio, start + k - 1) < row_at(b, rio, start + k));
    }
}

/// In a structurally valid mapping each cell spans its pointer pair, and
/// holds at most `n_genes` entries, since its rows rise strictly below
/// `n_genes`.
pub proof fn lemma_cell_span(m: &SharedCacheMapped, c: int)
    requires
        m.strict_wf(),
        0 <= c < m.n_cells,
    ensures
        m.cell_range(c) == (m.spec_col_ptr(c) as int, m.spec_col_ptr(c + 1) as int),
        m.spec_col_ptr(c + 1) - m.spec_col_ptr(c) <= m.n_genes,
        m.n_genes <= 0xFFFF_FFFF,
{
    let b = m.bytes();
    lemma_valid_cache_is_csc(b);
    let cpo = hdr_col_ptr_offset(b) as int;
    let rio = hdr_row_idx_offset(b) as int;
    let n = hdr_n_cells(b) as int;
    assert(cp_at(b, cpo, c) <= cp_at(b, cpo, c + 1));
    assert(cp_at(b, cpo, c + 1) <= cp_at(b, cpo, n));
    let start = cp_at(b, cpo, c) as int;
    let end = cp_at(b, cpo, c + 1) as int;
    if start < end {
        assert forall|i: int, j: int| start <= i < j < end implies #[trigger] row_at(b, rio, i) < #[trigger] row_at(b, rio, j) by {
            assert(cp_at(b, cpo, c) <= i < j < cp_at(b, cpo, c + 1));
        }
        lemma_rows_climb(b, rio, start, end - start - 1, end);
        assert(row_at(b, rio, end - 1) < hdr_n_genes(b));
    }
    assert(u32_at(b, hdr_genes_offset(b) as int) as int == hdr_n_genes(b) as int);
}

proof fn lemma_strict_extends(b: Seq<u8>)
    ensures
        shared_issue(b, false) is Some ==> shared_issue(b, true) == shared_issue(b, false),
        shared_issue(b, true) is None ==> shared_issue(b, false) is None,
{
}

fn read_u64_at(b: &[u8], o: usize) -> (r: u64)
    requires
        o + 8 <= b@.len(),
    ensures
        r == crate::cache::u64_at(b@, o as int),
{
    crate::cache::read_u64_slice(b, o)
}

fn read_u32_at(b: &[u8], o: usize) -> (r: u32)
    requires
        o + 4 <= b@.len(),
    ensures
        r == u32_at(b@, o as int),
{
    crate::cache::read_u32_slice(b, o)
}

} // verus!
