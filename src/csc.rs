//! Compressed sparse column matrices built from coordinate entries.

use vstd::prelude::*;

use crate::error::{DimsIssue, InputError};
use crate::mtx::{entries_from, entries_start, header_of, read_entries, MatrixHeader};

verus! {

/// One coordinate entry, 0-based: `(col, row, value)`.
pub type Entry = (u32, u32, u32);

/// `a` sorts no later than `b`: by column, then by row.
pub open spec fn key_le(a: Entry, b: Entry) -> bool {
    a.0 < b.0 || (a.0 == b.0 && a.1 <= b.1)
}

pub open spec fn sorted_by_key(s: Seq<Entry>) -> bool {
    forall|a: int, b: int| 0 <= a < b < s.len() ==> key_le(#[trigger] s[a], #[trigger] s[b])
}

/// How many entries of `s` sort no later than `x`.
pub open spec fn count_key_le(s: Seq<Entry>, x: Entry) -> nat
    decreases s.len(),
{
    if s.len() == 0 {
        0
    } else {
        count_key_le(s.drop_last(), x) + if key_le(s.last(), x) { 1nat } else { 0nat }
    }
}

/// Stable insertion of `x` into the sorted `s`: after every entry with an
/// equal or smaller key.
pub open spec fn insert_sorted(s: Seq<Entry>, x: Entry) -> Seq<Entry> {
    s.insert(count_key_le(s, x) as int, x)
}

/// The entries stably sorted by `(col, row)`; entries with equal keys keep
/// their input order.
pub open spec fn sort_entries(e: Seq<Entry>) -> Seq<Entry>
    decreases e.len(),
{
    if e.len() == 0 {
        Seq::empty()
    } else {
        insert_sorted(sort_entries(e.drop_last()), e.last())
    }
}

/// Number of entries whose column is below `c`.
pub open spec fn count_col_lt(s: Seq<Entry>, c: int) -> nat
    decreases s.len(),
{
    if s.len() == 0 {
        0
    } else {
        count_col_lt(s.drop_last(), c) + if (s.last().0 as int) < c { 1nat } else { 0nat }
    }
}

/// Number of entries in column `c`.
pub open spec fn count_col_eq(s: Seq<Entry>, c: int) -> nat
    decreases s.len(),
{
    if s.len() == 0 {
        0
    } else {
        count_col_eq(s.drop_last(), c) + if s.last().0 as int == c { 1nat } else { 0nat }
    }
}

/// Sum of the values in column `c`.
pub open spec fn col_sum(s: Seq<Entry>, c: int) -> nat
    decreases s.len(),
{
    if s.len() == 0 {
        0
    } else {
        col_sum(s.drop_last(), c) + if s.last().0 as int == c { s.last().2 as nat } else { 0nat }
    }
}

/// Entry `p` of `s` opens a new row of its column: it is the first entry, or
/// its predecessor lies in another column or another row.
pub open spec fn opens_row(s: Seq<Entry>, p: int) -> bool {
    p == 0 || s[p - 1].0 != s[p].0 || s[p - 1].1 != s[p].1
}

/// Distinct rows of column `c` in a sequence sorted by key: the entries of
/// column `c` that open a new row.
pub open spec fn col_detected(s: Seq<Entry>, c: int) -> nat
    decreases s.len(),
{
    if s.len() == 0 {
        0
    } else {
        col_detected(s.drop_last(), c) + if s.last().0 as int == c && opens_row(s, s.len() - 1) {
            1nat
        } else {
            0nat
        }
    }
}

/// Whether some entry lies in a column at or past `n_cells`.
pub open spec fn has_col_out_of_bounds(e: Seq<Entry>, n_cells: int) -> bool {
    exists|i: int| 0 <= i < e.len() && e[i].0 >= n_cells
}

/// Whether some entry lies in a row at or past `n_genes`.
pub open spec fn has_row_out_of_bounds(e: Seq<Entry>, n_genes: int) -> bool {
    exists|i: int| 0 <= i < e.len() && e[i].1 >= n_genes
}

/// The aggregates of column `c` do not fit their counters: `libsize` in
/// 64 bits, `detected` in 32.
pub open spec fn col_overflows(e: Seq<Entry>, c: int) -> bool {
    col_sum(e, c) > u64::MAX || col_detected(sort_entries(e), c) > u32::MAX
}

/// Whether some column's aggregates do not fit their counters.
pub open spec fn has_counter_overflow(e: Seq<Entry>, n_cells: int) -> bool {
    exists|c: int| 0 <= c < n_cells && #[trigger] col_overflows(e, c)
}

/// The first check that building a matrix from `e` fails, if any.
pub open spec fn build_issue(
    h: MatrixHeader,
    e: Seq<Entry>,
    n_genes: usize,
    n_cells: usize,
    fast: bool,
) -> Option<DimsIssue> {
    if !fast && (h.n_rows != n_genes || h.n_cols != n_cells) {
        Some(DimsIssue::DimsMismatch)
    } else if !fast && h.nnz != e.len() {
        Some(DimsIssue::NnzMismatch)
    } else if has_col_out_of_bounds(e, n_cells as int) {
        Some(DimsIssue::ColumnOutOfBounds)
    } else if !fast && has_row_out_of_bounds(e, n_genes as int) {
        Some(DimsIssue::RowOutOfBounds)
    } else if has_counter_overflow(e, n_cells as int) {
        Some(DimsIssue::CounterOverflow)
    } else {
        None
    }
}

/// A compressed sparse column matrix: column `c` holds the entries
/// `col_ptr[c] .. col_ptr[c + 1]` of `row_idx` and `values`.
#[derive(Debug, Clone)]
pub struct ExprCsc {
    pub n_genes: usize,
    pub n_cells: usize,
    pub nnz: usize,
    pub col_ptr: Vec<u64>,
    pub row_idx: Vec<u32>,
    pub values: Vec<u32>,
}

/// Per-cell aggregates: the sum of raw counts, and the number of distinct
/// rows with an entry.
#[derive(Debug, Clone, Copy, PartialEq, Eq, Structural)]
pub struct CellStats {
    pub libsize: u64,
    pub detected: u32,
}

impl Default for CellStats {
    fn default() -> (r: Self)
        ensures
            r.libsize == 0 && r.detected == 0,
    {
        CellStats { libsize: 0, detected: 0 }
    }
}

impl ExprCsc {
    /// The shape of a compressed sparse column matrix: pointer array of
    /// `n_cells + 1` entries from 0 to `nnz`, never decreasing, and two flat
    /// arrays of `nnz` entries.
    pub open spec fn wf(&self) -> bool {
        &&& self.col_ptr@.len() == self.n_cells + 1
        &&& self.row_idx@.len() == self.nnz
        &&& self.values@.len() == self.nnz
        &&& self.col_ptr@[0] == 0
        &&& self.col_ptr@[self.n_cells as int] == self.nnz
        &&& forall|a: int, b: int|
            0 <= a <= b <= self.n_cells ==> #[trigger] self.col_ptr@[a] <= #[trigger] self.col_ptr@[b]
    }

    /// `self` and `stats` are what building from `e` yields.
    pub open spec fn built_from(
        &self,
        stats: Seq<CellStats>,
        e: Seq<Entry>,
        n_genes: usize,
        n_cells: usize,
    ) -> bool {
        let s = sort_entries(e);
        &&& self.n_genes == n_genes
        &&& self.n_cells == n_cells
        &&& self.nnz == e.len()
        &&& self.col_ptr@.len() == n_cells + 1
        &&& forall|c: int| 0 <= c <= n_cells ==> #[trigger] self.col_ptr@[c] == count_col_lt(e, c)
        &&& self.row_idx@ == s.map_values(|x: Entry| x.1)
        &&& self.values@ == s.map_values(|x: Entry| x.2)
        &&& stats.len() == n_cells
        &&& forall|c: int|
            0 <= c < n_cells ==> {
                &&& (#[trigger] stats[c]).libsize == col_sum(e, c)
                &&& stats[c].detected == col_detected(s, c)
            }
    }
}


proof fn lemma_count_key_le_split(s: Seq<Entry>, x: Entry, j: int)
    requires
        0 <= j <= s.len(),
        forall|k: int| 0 <= k < j ==> key_le(#[trigger] s[k], x),
        forall|k: int| j <= k < s.len() ==> !key_le(#[trigger] s[k], x),
    ensures
        count_key_le(s, x) == j,
    decreases s.len(),
{
    if s.len() > 0 {
        if j == s.len() {
            lemma_count_key_le_split(s.drop_last(), x, j - 1);
        } else {
            lemma_count_key_le_split(s.drop_last(), x, j);
        }
    }
}

proof fn lemma_insert_counts(s: Seq<Entry>, j: int, x: Entry, c: int)
    requires
        0 <= j <= s.len(),
    ensures
        count_col_lt(s.insert(j, x), c) == count_col_lt(s, c) + if (x.0 as int) < c { 1nat } else { 0nat },
        count_col_eq(s.insert(j, x), c) == count_col_eq(s, c) + if x.0 as int == c { 1nat } else { 0nat },
        col_sum(s.insert(j, x), c) == col_sum(s, c) + if x.0 as int == c { x.2 as nat } else { 0nat },
    decreases s.len(),
{
    let t = s.insert(j, x);
    if j == s.len() {
        assert(t.drop_last() =~= s);
    } else {
        lemma_insert_counts(s.drop_last(), j, x, c);
        assert(t.drop_last() =~= s.drop_last().insert(j, x));
    }
}

/// Sorting keeps, column by column, how many entries there are and what
/// they sum to.
pub proof fn lemma_sort_keeps_columns(e: Seq<Entry>, c: int)
    ensures
        sort_entries(e).len() == e.len(),
        count_col_lt(sort_entries(e), c) == count_col_lt(e, c),
        count_col_eq(sort_entries(e), c) == count_col_eq(e, c),
        col_sum(sort_entries(e), c) == col_sum(e, c),
    decreases e.len(),
{
    if e.len() > 0 {
        let p = sort_entries(e.drop_last());
        lemma_sort_keeps_columns(e.drop_last(), c);
        lemma_count_key_le_bound(p, e.last());
        lemma_insert_counts(p, count_key_le(p, e.last()) as int, e.last(), c);
    }
}

proof fn lemma_count_key_le_bound(s: Seq<Entry>, x: Entry)
    ensures
        count_key_le(s, x) <= s.len(),
    decreases s.len(),
{
    if s.len() > 0 {
        lemma_count_key_le_bound(s.drop_last(), x);
    }
}

proof fn lemma_count_col_step(s: Seq<Entry>, c: int)
    ensures
        count_col_lt(s, c + 1) == count_col_lt(s, c) + count_col_eq(s, c),
        count_col_lt(s, c) <= s.len(),
    decreases s.len(),
{
    if s.len() > 0 {
        lemma_count_col_step(s.drop_last(), c);
    }
}

proof fn lemma_take_last<A>(s: Seq<A>, i: int)
    requires
        0 <= i < s.len(),
    ensures
        s.take(i + 1).drop_last() == s.take(i),
        s.take(i + 1).last() == s[i],
{
    assert(s.take(i + 1).drop_last() =~= s.take(i));
}

proof fn lemma_col_bounds(s: Seq<Entry>, c: int)
    ensures
        col_sum(s, c) <= s.len() * 0xFFFF_FFFF,
        col_detected(s, c) <= s.len(),
        count_col_eq(s, c) <= s.len(),
    decreases s.len(),
{
    if s.len() > 0 {
        lemma_col_bounds(s.drop_last(), c);
    }
}

proof fn lemma_col_prefix(s: Seq<Entry>, i: int, c: int)
    requires
        0 <= i <= s.len(),
    ensures
        col_sum(s.take(i), c) <= col_sum(s, c),
        col_detected(s.take(i), c) <= col_detected(s, c),
    decreases s.len() - i,
{
    if i == s.len() {
        assert(s.take(i) =~= s);
    } else {
        lemma_col_prefix(s, i + 1, c);
        lemma_take_last(s, i);
        lemma_col_detected_take(s, i, c);
    }
}

proof fn lemma_col_detected_take(s: Seq<Entry>, i: int, c: int)
    requires
        0 <= i < s.len(),
    ensures
        col_detected(s.take(i + 1), c) == col_detected(s.take(i), c) + if s[i].0 as int == c
            && opens_row(s, i) {
            1nat
        } else {
            0nat
        },
{
    lemma_take_last(s, i);
    let t = s.take(i + 1);
    assert(opens_row(t, i) == opens_row(s, i));
}

impl ExprCsc {
    /// Builds the matrix and its per-cell aggregates from coordinate entries.
    ///
    /// Unless `fast`, the header must match the expected shape, the declared
    /// entry count must match, and every row must lie below `n_genes`. Every
    /// column must lie below `n_cells` in any mode. Entries are stably sorted
    /// by `(col, row)`; entries that repeat a `(row, col)` pair are kept as
    /// they are, add to `libsize`, and count once towards `detected`. A cell
    /// whose `libsize` does not fit 64 bits, or whose `detected` does not fit
    /// 32 bits, is an error.
    pub fn from_entries(
        header: &MatrixHeader,
        entries: &Vec<Entry>,
        n_genes: usize,
        n_cells: usize,
        fast: bool,
    ) -> (r: Result<(ExprCsc, Vec<CellStats>), InputError>)
        requires
            n_cells < usize::MAX,
        ensures
            match build_issue(*header, entries@, n_genes, n_cells, fast) {
                Some(issue) => r == Err::<(ExprCsc, Vec<CellStats>), InputError>(
                    InputError::InvalidMtxDimensions(issue),
                ),
                None => r is Ok && r->Ok_0.0.built_from(r->Ok_0.1@, entries@, n_genes, n_cells),
            },
    {
        let ghost e = entries@;
        let n = entries.len();
        if !fast {
            if header.n_rows != n_genes || header.n_cols != n_cells {
                return Err(InputError::InvalidMtxDimensions(DimsIssue::DimsMismatch));
            }
            if header.nnz != n {
                return Err(InputError::InvalidMtxDimensions(DimsIssue::NnzMismatch));
            }
        }
        let mut i: usize = 0;
        while i < n
            invariant
                n == e.len(),
                e == entries@,
                i <= n,
                forall|k: int| 0 <= k < i ==> (#[trigger] e[k]).0 < n_cells,
                !fast ==> header.n_rows == n_genes && header.n_cols == n_cells && header.nnz == n,
            decreases n - i,
        {
            if entries[i].0 as usize >= n_cells {
                assert(e[i as int].0 >= n_cells);
                return Err(InputError::InvalidMtxDimensions(DimsIssue::ColumnOutOfBounds));
            }
            i = i + 1;
        }
        if !fast {
            let mut i: usize = 0;
            while i < n
                invariant
                    n == e.len(),
                    e == entries@,
                    i <= n,
                    forall|k: int| 0 <= k < i ==> (#[trigger] e[k]).1 < n_genes,
                    forall|k: int| 0 <= k < n ==> (#[trigger] e[k]).0 < n_cells,
                    header.n_rows == n_genes && header.n_cols == n_cells && header.nnz == n,
                    !fast,
                decreases n - i,
            {
                if entries[i].1 as usize >= n_genes {
                    assert(e[i as int].1 >= n_genes);
                    return Err(InputError::InvalidMtxDimensions(DimsIssue::RowOutOfBounds));
                }
                i = i + 1;
            }
        }
        let sorted = sort_by_key(entries, n_cells);
        let ghost s = sorted@;
        assert(!has_col_out_of_bounds(e, n_cells as int));
        assert(build_issue(*header, e, n_genes, n_cells, fast) == if has_counter_overflow(e, n_cells as int) {
            Some(DimsIssue::CounterOverflow)
        } else {
            None::<DimsIssue>
        });
        proof {
            assert forall|c: int| 0 <= c <= n_cells implies count_col_lt(s, c) == count_col_lt(e, c)
                && col_sum(s, c) == col_sum(e, c) by {
                lemma_sort_keeps_columns(e, c);
            }
            lemma_sort_keeps_columns(e, 0);
        }

        let mut col_counts: Vec<u64> = vec![0u64; n_cells];
        let mut i: usize = 0;
        while i < n
            invariant
                s == sorted@,
                s.len() == n,
                i <= n,
                col_counts@.len() == n_cells,
                forall|k: int| 0 <= k < n ==> (#[trigger] s[k]).0 < n_cells,
                forall|c: int| 0 <= c < n_cells ==> #[trigger] col_counts@[c] == count_col_eq(s.take(i as int), c),
            decreases n - i,
        {
            let col = sorted[i].0 as usize;
            proof {
                lemma_take_last(s, i as int);
                lemma_col_bounds(s.take(i as int), col as int);
                assert forall|c: int| 0 <= c < n_cells && c != col implies count_col_eq(s.take(i + 1), c) == count_col_eq(s.take(i as int), c) by {
                    lemma_take_last(s, i as int);
                }
            }
            let cur = col_counts[col];
            col_counts.set(col, cur + 1);
            i = i + 1;
        }
        assert(s.take(n as int) =~= s);

        let mut col_ptr: Vec<u64> = vec![0u64; n_cells + 1];
        let mut c: usize = 0;
        proof {
            assert(count_col_lt(s, 0) == 0) by {
                lemma_count_col_zero(s);
            }
        }
        while c < n_cells
            invariant
                s == sorted@,
                s.len() == n,
                c <= n_cells,
                col_counts@.len() == n_cells,
                col_ptr@.len() == n_cells + 1,
                forall|k: int| 0 <= k < n_cells ==> #[trigger] col_counts@[k] == count_col_eq(s, k),
                forall|k: int| 0 <= k <= c ==> #[trigger] col_ptr@[k] == count_col_lt(s, k),
            decreases n_cells - c,
        {
            proof {
                lemma_count_col_step(s, c as int);
                lemma_count_col_step(s, c as int + 1);
            }
            let next = col_ptr[c] + col_counts[c];
            col_ptr.set(c + 1, next);
            c = c + 1;
        }

        let mut row_idx: Vec<u32> = Vec::with_capacity(n);
        let mut values: Vec<u32> = Vec::with_capacity(n);
        let mut stats: Vec<CellStats> = vec![CellStats { libsize: 0, detected: 0 }; n_cells];
        let mut i: usize = 0;
        while i < n
            invariant
                s == sorted@,
                s.len() == n,
                e == entries@,
                s == sort_entries(e),
                forall|c: int| 0 <= c <= n_cells ==> col_sum(s, c) == col_sum(e, c),
                build_issue(*header, e, n_genes, n_cells, fast) == if has_counter_overflow(e, n_cells as int) {
                    Some(DimsIssue::CounterOverflow)
                } else {
                    None::<DimsIssue>
                },
                i <= n,
                stats@.len() == n_cells,
                forall|k: int| 0 <= k < n ==> (#[trigger] s[k]).0 < n_cells,
                row_idx@ == s.take(i as int).map_values(|x: Entry| x.1),
                values@ == s.take(i as int).map_values(|x: Entry| x.2),
                forall|c: int|
                    0 <= c < n_cells ==> {
                        &&& (#[trigger] stats@[c]).libsize == col_sum(s.take(i as int), c)
                        &&& stats@[c].detected == col_detected(s.take(i as int), c)
                    },
            decreases n - i,
        {
            let (col, row, val) = sorted[i];
            let opens = i == 0 || sorted[i - 1].0 != col || sorted[i - 1].1 != row;
            let ghost t = s.take(i as int);
            proof {
                lemma_take_last(s, i as int);
                lemma_col_detected_take(s, i as int, col as int);
                lemma_col_prefix(s, i + 1, col as int);
                assert(opens == opens_row(s, i as int));
                assert forall|c: int| 0 <= c < n_cells && c != col implies col_sum(s.take(i + 1), c) == col_sum(t, c)
                    && col_detected(s.take(i + 1), c) == col_detected(t, c) by {
                    lemma_col_detected_take(s, i as int, c);
                }
            }
            let cur = stats[col as usize];
            let libsize = match cur.libsize.checked_add(val as u64) {
                Some(v) => v,
                None => {
                    assert(col_overflows(e, col as int));
                    return Err(InputError::InvalidMtxDimensions(DimsIssue::CounterOverflow));
                },
            };
            let detected = if opens {
                match cur.detected.checked_add(1) {
                    Some(v) => v,
                    None => {
                        assert(col_overflows(e, col as int));
                        return Err(InputError::InvalidMtxDimensions(DimsIssue::CounterOverflow));
                    },
                }
            } else {
                cur.detected
            };
            stats.set(col as usize, CellStats { libsize, detected });
            row_idx.push(row);
            values.push(val);
            proof {
                assert(row_idx@ =~= s.take(i + 1).map_values(|x: Entry| x.1));
                assert(values@ =~= s.take(i + 1).map_values(|x: Entry| x.2));
            }
            i = i + 1;
        }
        proof {
            assert(s.take(n as int) =~= s);
            assert forall|c: int| 0 <= c < n_cells implies !#[trigger] col_overflows(e, c) by {
                assert(stats@[c].libsize == col_sum(s, c));
            }
        }
        let csc = ExprCsc { n_genes, n_cells, nnz: n, col_ptr, row_idx, values };
        Ok((csc, stats))
    }
}

impl ExprCsc {
    /// Builds the matrix from MatrixMarket text: reads the header and the
    /// entries, then builds as `from_entries` does.
    pub fn from_mtx(text: &[u8], n_genes: usize, n_cells: usize, fast: bool) -> (r: Result<(ExprCsc, Vec<CellStats>), InputError>)
        requires
            n_cells < usize::MAX,
        ensures
            match header_of(text@) {
                Err(e) => r == Err::<(ExprCsc, Vec<CellStats>), InputError>(e),
                Ok(h) => match entries_from(text@, entries_start(text@)) {
                    Err(e) => r == Err::<(ExprCsc, Vec<CellStats>), InputError>(e),
                    Ok(es) => match build_issue(h, es, n_genes, n_cells, fast) {
                        Some(issue) => r == Err::<(ExprCsc, Vec<CellStats>), InputError>(
                            InputError::InvalidMtxDimensions(issue),
                        ),
                        None => r is Ok && r->Ok_0.0.built_from(r->Ok_0.1@, es, n_genes, n_cells),
                    },
                },
            },
    {
        let (header, entries) = match read_entries(text) {
            Ok(x) => x,
            Err(e) => return Err(e),
        };
        Self::from_entries(&header, &entries, n_genes, n_cells, fast)
    }

    /// The `(row, count)` pairs of cell `c` in a well-formed matrix.
    pub open spec fn cell_view(&self, c: int) -> Seq<(u32, u32)> {
        let start = self.col_ptr@[c] as int;
        let end = self.col_ptr@[c + 1] as int;
        Seq::new((end - start) as nat, |k: int| (self.row_idx@[start + k], self.values@[start + k]))
    }

    /// The `(row, count)` pairs of cell `cell_idx`, in stored order.
    pub fn iter_cell_raw(&self, cell_idx: usize) -> (r: Vec<(u32, u32)>)
        requires
            self.wf(),
            cell_idx < self.n_cells,
        ensures
            r@ == self.cell_view(cell_idx as int),
    {
        let start = self.col_ptr[cell_idx] as usize;
        let end = self.col_ptr[cell_idx + 1] as usize;
        let mut out: Vec<(u32, u32)> = Vec::with_capacity(end - start);
        let mut i: usize = start;
        while i < end
            invariant
                self.wf(),
                cell_idx < self.n_cells,
                start == self.col_ptr@[cell_idx as int],
                end == self.col_ptr@[cell_idx + 1],
                start <= i <= end <= self.nnz,
                out@ =~= self.cell_view(cell_idx as int).take(i - start),
            decreases end - i,
        {
            out.push((self.row_idx[i], self.values[i]));
            i = i + 1;
        }
        out
    }
}

proof fn lemma_count_col_mono(s: Seq<Entry>, a: int, b: int)
    requires
        a <= b,
    ensures
        count_col_lt(s, a) <= count_col_lt(s, b),
    decreases s.len(),
{
    if s.len() > 0 {
        lemma_count_col_mono(s.drop_last(), a, b);
    }
}

proof fn lemma_count_col_all(s: Seq<Entry>, n: int)
    requires
        forall|k: int| 0 <= k < s.len() ==> (#[trigger] s[k]).0 < n,
    ensures
        count_col_lt(s, n) == s.len(),
    decreases s.len(),
{
    if s.len() > 0 {
        lemma_count_col_all(s.drop_last(), n);
    }
}

/// A matrix built from entries, all of whose columns are in range, is a
/// well-formed compressed sparse column matrix.
pub proof fn lemma_built_is_wf(x: ExprCsc, st: Seq<CellStats>, e: Seq<Entry>, n_genes: usize, n_cells: usize)
    requires
        x.built_from(st, e, n_genes, n_cells),
        !has_col_out_of_bounds(e, n_cells as int),
    ensures
        x.wf(),
{
    lemma_count_col_zero(e);
    lemma_count_col_all(e, n_cells as int);
    lemma_sort_keeps_columns(e, 0);
    assert forall|a: int, b: int| 0 <= a <= b <= x.n_cells implies #[trigger] x.col_ptr@[a] <= #[trigger] x.col_ptr@[b] by {
        lemma_count_col_mono(e, a, b);
    }
}

/// Building twice from the same entries and expectations gives the same
/// arrays and the same per-cell aggregates.
pub proof fn lemma_build_deterministic(
    x1: ExprCsc,
    st1: Seq<CellStats>,
    x2: ExprCsc,
    st2: Seq<CellStats>,
    e: Seq<Entry>,
    n_genes: usize,
    n_cells: usize,
)
    requires
        x1.built_from(st1, e, n_genes, n_cells),
        x2.built_from(st2, e, n_genes, n_cells),
    ensures
        x1.col_ptr@ == x2.col_ptr@,
        x1.row_idx@ == x2.row_idx@,
        x1.values@ == x2.values@,
        st1 == st2,
        x1.n_genes == x2.n_genes && x1.n_cells == x2.n_cells && x1.nnz == x2.nnz,
{
    assert(x1.col_ptr@ =~= x2.col_ptr@);
    assert(st1 =~= st2);
}

/// Building twice from the same MatrixMarket bytes gives the same arrays
/// and the same per-cell aggregates.
pub proof fn lemma_from_mtx_deterministic(
    text: Seq<u8>,
    x1: ExprCsc,
    st1: Seq<CellStats>,
    x2: ExprCsc,
    st2: Seq<CellStats>,
    n_genes: usize,
    n_cells: usize,
)
    requires
        entries_from(text, entries_start(text)) is Ok,
        x1.built_from(st1, entries_from(text, entries_start(text))->Ok_0, n_genes, n_cells),
        x2.built_from(st2, entries_from(text, entries_start(text))->Ok_0, n_genes, n_cells),
    ensures
        x1.col_ptr@ == x2.col_ptr@,
        x1.row_idx@ == x2.row_idx@,
        x1.values@ == x2.values@,
        st1 == st2,
{
    lemma_build_deterministic(x1, st1, x2, st2, entries_from(text, entries_start(text))->Ok_0, n_genes, n_cells);
}

proof fn lemma_count_col_zero(s: Seq<Entry>)
    ensures
        count_col_lt(s, 0) == 0,
    decreases s.len(),
{
    if s.len() > 0 {
        lemma_count_col_zero(s.drop_last());
    }
}

/// Stable insertion sort by `(col, row)`. Already sorted input, as
/// coordinate files usually are, costs one comparison per entry.
fn sort_by_key(entries: &Vec<Entry>, n_cells: usize) -> (r: Vec<Entry>)
    requires
        forall|k: int| 0 <= k < entries@.len() ==> (#[trigger] entries@[k]).0 < n_cells,
    ensures
        r@ == sort_entries(entries@),
        sorted_by_key(r@),
        forall|k: int| 0 <= k < r@.len() ==> (#[trigger] r@[k]).0 < n_cells,
{
    let ghost e = entries@;
    let n = entries.len();
    let mut out: Vec<Entry> = Vec::with_capacity(n);
    let mut i: usize = 0;
    while i < n
        invariant
            e == entries@,
            n == e.len(),
            i <= n,
            forall|k: int| 0 <= k < n ==> (#[trigger] e[k]).0 < n_cells,
            out@ == sort_entries(e.take(i as int)),
            sorted_by_key(out@),
            out@.len() == i,
            forall|k: int| 0 <= k < out@.len() ==> (#[trigger] out@[k]).0 < n_cells,
        decreases n - i,
    {
        let x = entries[i];
        let ghost before = out@;
        out.push(x);
        let mut j: usize = out.len() - 1;
        while j > 0 && !(out[j - 1].0 < x.0 || (out[j - 1].0 == x.0 && out[j - 1].1 <= x.1))
            invariant
                out@.len() == before.len() + 1,
                j <= before.len(),
                forall|k: int| 0 <= k < j ==> out@[k] == before[k],
                forall|k: int| j < k < out@.len() ==> out@[k] == before[k - 1],
                forall|k: int| j <= k < before.len() ==> !key_le(#[trigger] before[k], x),
            decreases j,
        {
            let prev = out[j - 1];
            out.set(j, prev);
            j = j - 1;
        }
        out.set(j, x);
        proof {
            assert forall|k: int| 0 <= k < j implies key_le(#[trigger] before[k], x) by {
                if j > 0 {
                    assert(key_le(before[j - 1], x));
                    assert(key_le(before[k], before[j - 1]) || k == j - 1);
                }
            }
            lemma_count_key_le_split(before, x, j as int);
            assert(out@ =~= before.insert(j as int, x));
            lemma_take_last(e, i as int);
            lemma_sort_keeps_columns(e.take(i as int), 0);
        }
        i = i + 1;
    }
    assert(e.take(n as int) =~= e);
    out
}

} // verus!
