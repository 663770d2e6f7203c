//! The private round-trip cache of a built matrix: a magic, a version,
//! seven length fields, then the flat little-endian arrays and the
//! per-cell aggregates.

use vstd::bytes::*;
use vstd::prelude::*;

use crate::cache::{u32_at, u64_at, CacheError, FormatIssue};
use crate::csc::{CellStats, ExprCsc};

verus! {

/// Version written and accepted by this format.
pub const VERSION_EXPR: u32 = 1;

/// The private cache's magic: `KIRAEXPR`.
pub open spec fn expr_magic() -> Seq<u8> {
    seq![0x4Bu8, 0x49u8, 0x52u8, 0x41u8, 0x45u8, 0x58u8, 0x50u8, 0x52u8]
}

/// Bytes of the header: magic, version, then the seven lengths.
pub const EXPR_HEADER_BYTES: usize = 68;

pub open spec fn le64s(s: Seq<u64>) -> Seq<u8>
    decreases s.len(),
{
    if s.len() == 0 {
        Seq::empty()
    } else {
        le64s(s.drop_last()) + spec_u64_to_le_bytes(s.last())
    }
}

pub open spec fn le32s(s: Seq<u32>) -> Seq<u8>
    decreases s.len(),
{
    if s.len() == 0 {
        Seq::empty()
    } else {
        le32s(s.drop_last()) + spec_u32_to_le_bytes(s.last())
    }
}

/// One cell's record: `libsize`, `detected`, and four bytes of padding.
pub open spec fn stat_bytes(c: CellStats) -> Seq<u8> {
    spec_u64_to_le_bytes(c.libsize) + spec_u32_to_le_bytes(c.detected) + spec_u32_to_le_bytes(0)
}

pub open spec fn stats_bytes(s: Seq<CellStats>) -> Seq<u8>
    decreases s.len(),
{
    if s.len() == 0 {
        Seq::empty()
    } else {
        stats_bytes(s.drop_last()) + stat_bytes(s.last())
    }
}

pub open spec fn expr_header(x: ExprCsc, st: Seq<CellStats>) -> Seq<u8> {
    expr_magic() + spec_u32_to_le_bytes(VERSION_EXPR) + spec_u64_to_le_bytes(x.n_genes as u64)
        + spec_u64_to_le_bytes(x.n_cells as u64) + spec_u64_to_le_bytes(x.nnz as u64)
        + spec_u64_to_le_bytes(x.col_ptr@.len() as u64) + spec_u64_to_le_bytes(x.row_idx@.len() as u64)
        + spec_u64_to_le_bytes(x.values@.len() as u64) + spec_u64_to_le_bytes(st.len() as u64)
}

/// The bytes written for a matrix and its per-cell aggregates.
pub open spec fn expr_cache_bytes(x: ExprCsc, st: Seq<CellStats>) -> Seq<u8> {
    expr_header(x, st) + le64s(x.col_ptr@) + le32s(x.row_idx@) + le32s(x.values@) + stats_bytes(st)
}

/// The lengths that a reader insists on: `n_cells + 1` pointers, `nnz`
/// row indices and values, `n_cells` aggregate records.
pub open spec fn lengths_consistent(x: ExprCsc, st: Seq<CellStats>) -> bool {
    &&& x.col_ptr@.len() == x.n_cells + 1
    &&& x.row_idx@.len() == x.nnz
    &&& x.values@.len() == x.nnz
    &&& st.len() == x.n_cells
}

/// Bytes of the body that a header with these lengths announces.
pub open spec fn body_len(n_cells: int, nnz: int) -> int {
    8 * (n_cells + 1) + 8 * nnz + 16 * n_cells
}

/// Why the bytes `b` cannot be read back, if they cannot.
pub open spec fn expr_cache_issue(b: Seq<u8>) -> Option<CacheError> {
    let n_genes = u64_at(b, 12) as int;
    let n_cells = u64_at(b, 20) as int;
    let nnz = u64_at(b, 28) as int;
    if b.len() < 8 {
        Some(CacheError::InvalidFormat(FormatIssue::Truncated))
    } else if b.subrange(0, 8) != expr_magic() {
        Some(CacheError::InvalidMagic)
    } else if b.len() < 12 {
        Some(CacheError::InvalidFormat(FormatIssue::Truncated))
    } else if u32_at(b, 8) != VERSION_EXPR {
        Some(CacheError::UnsupportedVersion(u32_at(b, 8)))
    } else if b.len() < 68 {
        Some(CacheError::InvalidFormat(FormatIssue::Truncated))
    } else if u64_at(b, 36) != n_cells + 1 || u64_at(b, 44) != nnz || u64_at(b, 52) != nnz
        || u64_at(b, 60) != n_cells || n_genes > usize::MAX {
        Some(CacheError::InvalidFormat(FormatIssue::LengthsMismatch))
    } else if b.len() < 68 + body_len(n_cells, nnz) {
        Some(CacheError::InvalidFormat(FormatIssue::Truncated))
    } else {
        None
    }
}

fn push_u64(out: &mut Vec<u8>, v: u64)
    ensures
        final(out)@ == old(out)@ + spec_u64_to_le_bytes(v),
{
    let bytes = u64_to_le_bytes(v);
    let ghost start = out@;
    let mut i: usize = 0;
    while i < 8
        invariant
            bytes@ == spec_u64_to_le_bytes(v),
            bytes@.len() == 8,
            i <= 8,
            out@ == start + bytes@.take(i as int),
        decreases 8 - i,
    {
        out.push(bytes[i]);
        proof {
            assert(bytes@.take(i + 1) =~= bytes@.take(i as int).push(bytes@[i as int]));
        }
        i = i + 1;
    }
    assert(bytes@.take(8) =~= bytes@);
}

fn push_u32(out: &mut Vec<u8>, v: u32)
    ensures
        final(out)@ == old(out)@ + spec_u32_to_le_bytes(v),
{
    let bytes = u32_to_le_bytes(v);
    let ghost start = out@;
    let mut i: usize = 0;
    while i < 4
        invariant
            bytes@ == spec_u32_to_le_bytes(v),
            bytes@.len() == 4,
            i <= 4,
            out@ == start + bytes@.take(i as int),
        decreases 4 - i,
    {
        out.push(bytes[i]);
        proof {
            assert(bytes@.take(i + 1) =~= bytes@.take(i as int).push(bytes@[i as int]));
        }
        i = i + 1;
    }
    assert(bytes@.take(4) =~= bytes@);
}

/// The bytes of the private cache for `expr` and `stats`. The result
/// depends on its inputs alone: writing the same matrix twice gives the
/// same bytes.
pub fn encode_expr_cache(expr: &ExprCsc, stats: &[CellStats]) -> (r: Vec<u8>)
    ensures
        r@ == expr_cache_bytes(*expr, stats@),
{
    let mut out: Vec<u8> = Vec::new();
    out.push(0x4B);
    out.push(0x49);
    out.push(0x52);
    out.push(0x41);
    out.push(0x45);
    out.push(0x58);
    out.push(0x50);
    out.push(0x52);
    assert(out@ =~= expr_magic());
    push_u32(&mut out, VERSION_EXPR);
    push_u64(&mut out, expr.n_genes as u64);
    push_u64(&mut out, expr.n_cells as u64);
    push_u64(&mut out, expr.nnz as u64);
    push_u64(&mut out, expr.col_ptr.len() as u64);
    push_u64(&mut out, expr.row_idx.len() as u64);
    push_u64(&mut out, expr.values.len() as u64);
    push_u64(&mut out, stats.len() as u64);
    let ghost head = out@;
    assert(head =~= expr_header(*expr, stats@));
    let mut i: usize = 0;
    while i < expr.col_ptr.len()
        invariant
            i <= expr.col_ptr@.len(),
            out@ == head + le64s(expr.col_ptr@.take(i as int)),
        decreases expr.col_ptr@.len() - i,
    {
        push_u64(&mut out, expr.col_ptr[i]);
        proof {
            assert(expr.col_ptr@.take(i + 1).drop_last() =~= expr.col_ptr@.take(i as int));
        }
        i = i + 1;
    }
    assert(expr.col_ptr@.take(i as int) =~= expr.col_ptr@);
    let ghost h2 = out@;
    let mut i: usize = 0;
    while i < expr.row_idx.len()
        invariant
            i <= expr.row_idx@.len(),
            out@ == h2 + le32s(expr.row_idx@.take(i as int)),
        decreases expr.row_idx@.len() - i,
    {
        push_u32(&mut out, expr.row_idx[i]);
        proof {
            assert(expr.row_idx@.take(i + 1).drop_last() =~= expr.row_idx@.take(i as int));
        }
        i = i + 1;
    }
    assert(expr.row_idx@.take(i as int) =~= expr.row_idx@);
    let ghost h3 = out@;
    let mut i: usize = 0;
    while i < expr.values.len()
        invariant
            i <= expr.values@.len(),
            out@ == h3 + le32s(expr.values@.take(i as int)),
        decreases expr.values@.len() - i,
    {
        push_u32(&mut out, expr.values[i]);
        proof {
            assert(expr.values@.take(i + 1).drop_last() =~= expr.values@.take(i as int));
        }
        i = i + 1;
    }
    assert(expr.values@.take(i as int) =~= expr.values@);
    let ghost h4 = out@;
    let mut i: usize = 0;
    while i < stats.len()
        invariant
            i <= stats@.len(),
            out@ == h4 + stats_bytes(stats@.take(i as int)),
        decreases stats@.len() - i,
    {
        let c = stats[i];
        push_u64(&mut out, c.libsize);
        push_u32(&mut out, c.detected);
        push_u32(&mut out, 0);
        proof {
            assert(stats@.take(i + 1).drop_last() =~= stats@.take(i as int));
        }
        i = i + 1;
    }
    assert(stats@.take(i as int) =~= stats@);
    out
}


/// Offsets of the arrays that a header with these lengths announces.
pub open spec fn row_idx_start(n_cells: int) -> int {
    68 + 8 * (n_cells + 1)
}

pub open spec fn values_start(n_cells: int, nnz: int) -> int {
    row_idx_start(n_cells) + 4 * nnz
}

pub open spec fn stats_start(n_cells: int, nnz: int) -> int {
    values_start(n_cells, nnz) + 4 * nnz
}

pub open spec fn read_n_cells(b: Seq<u8>) -> int {
    u64_at(b, 20) as int
}

pub open spec fn read_nnz(b: Seq<u8>) -> int {
    u64_at(b, 28) as int
}

/// The arrays as a reader finds them in `b`.
pub open spec fn read_col_ptr(b: Seq<u8>) -> Seq<u64> {
    Seq::new((read_n_cells(b) + 1) as nat, |i: int| u64_at(b, 68 + 8 * i))
}

pub open spec fn read_row_idx(b: Seq<u8>) -> Seq<u32> {
    Seq::new(read_nnz(b) as nat, |i: int| u32_at(b, row_idx_start(read_n_cells(b)) + 4 * i))
}

pub open spec fn read_values(b: Seq<u8>) -> Seq<u32> {
    Seq::new(
        read_nnz(b) as nat,
        |i: int| u32_at(b, values_start(read_n_cells(b), read_nnz(b)) + 4 * i),
    )
}

pub open spec fn read_stats(b: Seq<u8>) -> Seq<CellStats> {
    Seq::new(
        read_n_cells(b) as nat,
        |i: int|
            CellStats {
                libsize: u64_at(b, stats_start(read_n_cells(b), read_nnz(b)) + 16 * i),
                detected: u32_at(b, stats_start(read_n_cells(b), read_nnz(b)) + 16 * i + 8),
            },
    )
}

/// `x` and `st` are what a reader finds in `b`.
pub open spec fn read_back(b: Seq<u8>, x: ExprCsc, st: Seq<CellStats>) -> bool {
    &&& x.n_genes == u64_at(b, 12)
    &&& x.n_cells == read_n_cells(b)
    &&& x.nnz == read_nnz(b)
    &&& x.col_ptr@ == read_col_ptr(b)
    &&& x.row_idx@ == read_row_idx(b)
    &&& x.values@ == read_values(b)
    &&& st == read_stats(b)
}

/// Reads a private cache back. The magic, the version and the seven
/// lengths are checked, and the bytes must hold every array that the
/// lengths announce; trailing bytes are ignored.
pub fn decode_expr_cache(b: &[u8]) -> (r: Result<(ExprCsc, Vec<CellStats>), CacheError>)
    ensures
        match expr_cache_issue(b@) {
            Some(e) => r == Err::<(ExprCsc, Vec<CellStats>), CacheError>(e),
            None => r matches Ok((x, st)) && read_back(b@, x, st@),
        },
{
    let ghost bs = b@;
    let len = b.len();
    if len < 8 {
        return Err(CacheError::InvalidFormat(FormatIssue::Truncated));
    }
    if !(b[0] == 0x4B && b[1] == 0x49 && b[2] == 0x52 && b[3] == 0x41 && b[4] == 0x45 && b[5]
        == 0x58 && b[6] == 0x50 && b[7] == 0x52) {
        proof {
            if bs.subrange(0, 8) == expr_magic() {
                assert(bs.subrange(0, 8)[0] == bs[0] && bs.subrange(0, 8)[1] == bs[1]);
                assert(bs.subrange(0, 8)[2] == bs[2] && bs.subrange(0, 8)[3] == bs[3]);
                assert(bs.subrange(0, 8)[4] == bs[4] && bs.subrange(0, 8)[5] == bs[5]);
                assert(bs.subrange(0, 8)[6] == bs[6] && bs.subrange(0, 8)[7] == bs[7]);
            }
        }
        return Err(CacheError::InvalidMagic);
    }
    assert(bs.subrange(0, 8) =~= expr_magic());
    if len < 12 {
        return Err(CacheError::InvalidFormat(FormatIssue::Truncated));
    }
    let version = crate::cache::read_u32_slice(b, 8);
    if version != VERSION_EXPR {
        return Err(CacheError::UnsupportedVersion(version));
    }
    if len < EXPR_HEADER_BYTES {
        return Err(CacheError::InvalidFormat(FormatIssue::Truncated));
    }
    let n_genes = crate::cache::read_u64_slice(b, 12);
    let n_cells = crate::cache::read_u64_slice(b, 20);
    let nnz = crate::cache::read_u64_slice(b, 28);
    let col_len = crate::cache::read_u64_slice(b, 36);
    let row_len = crate::cache::read_u64_slice(b, 44);
    let val_len = crate::cache::read_u64_slice(b, 52);
    let stats_len = crate::cache::read_u64_slice(b, 60);
    if n_cells == u64::MAX || col_len != n_cells + 1 || row_len != nnz || val_len != nnz
        || stats_len != n_cells || n_genes > usize::MAX as u64 {
        return Err(CacheError::InvalidFormat(FormatIssue::LengthsMismatch));
    }
    let avail: u64 = (len - EXPR_HEADER_BYTES) as u64;
    if n_cells >= avail / 8 || nnz > avail / 8 || avail - 8 * (n_cells + 1) < 8 * nnz
        || (avail - 8 * (n_cells + 1) - 8 * nnz) / 16 < n_cells {
        return Err(CacheError::InvalidFormat(FormatIssue::Truncated));
    }
    let nc = n_cells as usize;
    let nz = nnz as usize;
    let mut col_ptr: Vec<u64> = Vec::with_capacity(nc + 1);
    let mut i: usize = 0;
    while i <= nc
        invariant
            bs == b@,
            len == bs.len(),
            nc == read_n_cells(bs),
            nz == read_nnz(bs),
            68 + body_len(nc as int, nz as int) <= len,
            i <= nc + 1,
            col_ptr@ =~= read_col_ptr(bs).take(i as int),
        decreases nc + 1 - i,
    {
        col_ptr.push(crate::cache::read_u64_slice(b, 68 + 8 * i));
        i = i + 1;
    }
    let ro: usize = 68 + 8 * (nc + 1);
    let mut row_idx: Vec<u32> = Vec::with_capacity(nz);
    let mut i: usize = 0;
    while i < nz
        invariant
            bs == b@,
            len == bs.len(),
            nc == read_n_cells(bs),
            nz == read_nnz(bs),
            68 + body_len(nc as int, nz as int) <= len,
            ro == row_idx_start(nc as int),
            i <= nz,
            row_idx@ =~= read_row_idx(bs).take(i as int),
        decreases nz - i,
    {
        row_idx.push(crate::cache::read_u32_slice(b, ro + 4 * i));
        i = i + 1;
    }
    let vo: usize = ro + 4 * nz;
    let mut values: Vec<u32> = Vec::with_capacity(nz);
    let mut i: usize = 0;
    while i < nz
        invariant
            bs == b@,
            len == bs.len(),
            nc == read_n_cells(bs),
            nz == read_nnz(bs),
            68 + body_len(nc as int, nz as int) <= len,
            vo == values_start(nc as int, nz as int),
            i <= nz,
            values@ =~= read_values(bs).take(i as int),
        decreases nz - i,
    {
        values.push(crate::cache::read_u32_slice(b, vo + 4 * i));
        i = i + 1;
    }
    let so: usize = vo + 4 * nz;
    let mut stats: Vec<CellStats> = Vec::with_capacity(nc);
    let mut i: usize = 0;
    while i < nc
        invariant
            bs == b@,
            len == bs.len(),
            nc == read_n_cells(bs),
            nz == read_nnz(bs),
            68 + body_len(nc as int, nz as int) <= len,
            so == stats_start(nc as int, nz as int),
            i <= nc,
            stats@ =~= read_stats(bs).take(i as int),
        decreases nc - i,
    {
        let libsize = crate::cache::read_u64_slice(b, so + 16 * i);
        let detected = crate::cache::read_u32_slice(b, so + 16 * i + 8);
        stats.push(CellStats { libsize, detected });
        i = i + 1;
    }
    assert(col_ptr@ =~= read_col_ptr(bs));
    assert(row_idx@ =~= read_row_idx(bs));
    assert(values@ =~= read_values(bs));
    assert(stats@ =~= read_stats(bs));
    let x = ExprCsc { n_genes: n_genes as usize, n_cells: nc, nnz: nz, col_ptr, row_idx, values };
    Ok((x, stats))
}


proof fn lemma_le64s(s: Seq<u64>, i: int)
    requires
        0 <= i < s.len(),
    ensures
        le64s(s).len() == 8 * s.len(),
        le64s(s).subrange(8 * i, 8 * i + 8) == spec_u64_to_le_bytes(s[i]),
    decreases s.len(),
{
    lemma_auto_spec_u64_to_from_le_bytes();
    lemma_le64s_len(s);
    lemma_le64s_len(s.drop_last());
    if i == s.len() - 1 {
        assert(le64s(s).subrange(8 * i, 8 * i + 8) =~= spec_u64_to_le_bytes(s[i]));
    } else {
        lemma_le64s(s.drop_last(), i);
        assert(le64s(s).subrange(8 * i, 8 * i + 8) =~= le64s(s.drop_last()).subrange(8 * i, 8 * i + 8));
    }
}

proof fn lemma_le64s_len(s: Seq<u64>)
    ensures
        le64s(s).len() == 8 * s.len(),
    decreases s.len(),
{
    lemma_auto_spec_u64_to_from_le_bytes();
    if s.len() > 0 {
        lemma_le64s_len(s.drop_last());
    }
}

proof fn lemma_le32s_len(s: Seq<u32>)
    ensures
        le32s(s).len() == 4 * s.len(),
    decreases s.len(),
{
    lemma_auto_spec_u32_to_from_le_bytes();
    if s.len() > 0 {
        lemma_le32s_len(s.drop_last());
    }
}

proof fn lemma_le32s(s: Seq<u32>, i: int)
    requires
        0 <= i < s.len(),
    ensures
        le32s(s).subrange(4 * i, 4 * i + 4) == spec_u32_to_le_bytes(s[i]),
    decreases s.len(),
{
    lemma_auto_spec_u32_to_from_le_bytes();
    lemma_le32s_len(s);
    lemma_le32s_len(s.drop_last());
    if i == s.len() - 1 {
        assert(le32s(s).subrange(4 * i, 4 * i + 4) =~= spec_u32_to_le_bytes(s[i]));
    } else {
        lemma_le32s(s.drop_last(), i);
        assert(le32s(s).subrange(4 * i, 4 * i + 4) =~= le32s(s.drop_last()).subrange(4 * i, 4 * i + 4));
    }
}

proof fn lemma_stats_bytes_len(s: Seq<CellStats>)
    ensures
        stats_bytes(s).len() == 16 * s.len(),
    decreases s.len(),
{
    lemma_auto_spec_u64_to_from_le_bytes();
    lemma_auto_spec_u32_to_from_le_bytes();
    if s.len() > 0 {
        lemma_stats_bytes_len(s.drop_last());
    }
}

proof fn lemma_stats_bytes(s: Seq<CellStats>, i: int)
    requires
        0 <= i < s.len(),
    ensures
        stats_bytes(s).subrange(16 * i, 16 * i + 8) == spec_u64_to_le_bytes(s[i].libsize),
        stats_bytes(s).subrange(16 * i + 8, 16 * i + 12) == spec_u32_to_le_bytes(s[i].detected),
    decreases s.len(),
{
    lemma_auto_spec_u64_to_from_le_bytes();
    lemma_auto_spec_u32_to_from_le_bytes();
    lemma_stats_bytes_len(s);
    lemma_stats_bytes_len(s.drop_last());
    let t = stats_bytes(s);
    if i == s.len() - 1 {
        assert(t.subrange(16 * i, 16 * i + 8) =~= spec_u64_to_le_bytes(s[i].libsize));
        assert(t.subrange(16 * i + 8, 16 * i + 12) =~= spec_u32_to_le_bytes(s[i].detected));
    } else {
        lemma_stats_bytes(s.drop_last(), i);
        let u = stats_bytes(s.drop_last());
        assert(t.subrange(16 * i, 16 * i + 8) =~= u.subrange(16 * i, 16 * i + 8));
        assert(t.subrange(16 * i + 8, 16 * i + 12) =~= u.subrange(16 * i + 8, 16 * i + 12));
    }
}

/// Writing a matrix and its aggregates, then reading the bytes back, gives
/// the same matrix and aggregates.
pub proof fn lemma_expr_cache_round_trip(x: ExprCsc, st: Seq<CellStats>)
    requires
        lengths_consistent(x, st),
        x.col_ptr@.len() <= usize::MAX,
    ensures
        expr_cache_issue(expr_cache_bytes(x, st)) is None,
        u64_at(expr_cache_bytes(x, st), 12) == x.n_genes,
        read_n_cells(expr_cache_bytes(x, st)) == x.n_cells,
        read_nnz(expr_cache_bytes(x, st)) == x.nnz,
        read_col_ptr(expr_cache_bytes(x, st)) == x.col_ptr@,
        read_row_idx(expr_cache_bytes(x, st)) == x.row_idx@,
        read_values(expr_cache_bytes(x, st)) == x.values@,
        read_stats(expr_cache_bytes(x, st)) == st,
{
    lemma_auto_spec_u64_to_from_le_bytes();
    lemma_auto_spec_u32_to_from_le_bytes();
    let h = expr_header(x, st);
    let c = le64s(x.col_ptr@);
    let r = le32s(x.row_idx@);
    let v = le32s(x.values@);
    let sb = stats_bytes(st);
    let b = expr_cache_bytes(x, st);
    lemma_le64s_len(x.col_ptr@);
    lemma_le32s_len(x.row_idx@);
    lemma_le32s_len(x.values@);
    lemma_stats_bytes_len(st);
    assert(h.len() == 68);
    assert(b.subrange(0, 8) =~= expr_magic());
    assert(b.subrange(8, 12) =~= spec_u32_to_le_bytes(VERSION_EXPR));
    assert(b.subrange(12, 20) =~= spec_u64_to_le_bytes(x.n_genes as u64));
    assert(b.subrange(20, 28) =~= spec_u64_to_le_bytes(x.n_cells as u64));
    assert(b.subrange(28, 36) =~= spec_u64_to_le_bytes(x.nnz as u64));
    assert(b.subrange(36, 44) =~= spec_u64_to_le_bytes(x.col_ptr@.len() as u64));
    assert(b.subrange(44, 52) =~= spec_u64_to_le_bytes(x.row_idx@.len() as u64));
    assert(b.subrange(52, 60) =~= spec_u64_to_le_bytes(x.values@.len() as u64));
    assert(b.subrange(60, 68) =~= spec_u64_to_le_bytes(st.len() as u64));
    let nc = x.n_cells as int;
    let nz = x.nnz as int;
    assert(b.len() == 68 + body_len(nc, nz));
    assert(u64_at(b, 36) == nc + 1);
    assert(u64_at(b, 44) == nz && u64_at(b, 52) == nz && u64_at(b, 60) == nc);
    assert(u32_at(b, 8) == VERSION_EXPR);
    assert forall|i: int| 0 <= i <= nc implies #[trigger] u64_at(b, 68 + 8 * i) == x.col_ptr@[i] by {
        lemma_le64s(x.col_ptr@, i);
        assert(b.subrange(68 + 8 * i, 68 + 8 * i + 8) =~= c.subrange(8 * i, 8 * i + 8));
    }
    assert(read_col_ptr(b) =~= x.col_ptr@);
    let ro = row_idx_start(nc);
    assert forall|i: int| 0 <= i < nz implies #[trigger] u32_at(b, ro + 4 * i) == x.row_idx@[i] by {
        lemma_le32s(x.row_idx@, i);
        assert(b.subrange(ro + 4 * i, ro + 4 * i + 4) =~= r.subrange(4 * i, 4 * i + 4));
    }
    assert(read_row_idx(b) =~= x.row_idx@);
    let vo = values_start(nc, nz);
    assert forall|i: int| 0 <= i < nz implies #[trigger] u32_at(b, vo + 4 * i) == x.values@[i] by {
        lemma_le32s(x.values@, i);
        assert(b.subrange(vo + 4 * i, vo + 4 * i + 4) =~= v.subrange(4 * i, 4 * i + 4));
    }
    assert(read_values(b) =~= x.values@);
    let so = stats_start(nc, nz);
    assert forall|i: int| 0 <= i < nc implies #[trigger] read_stats(b)[i] == st[i] by {
        lemma_stats_bytes(st, i);
        assert(b.subrange(so + 16 * i, so + 16 * i + 8) =~= sb.subrange(16 * i, 16 * i + 8));
        assert(b.subrange(so + 16 * i + 8, so + 16 * i + 12) =~= sb.subrange(16 * i + 8, 16 * i + 12));
    }
    assert(read_stats(b) =~= st);
}


/// Writing the same matrix and aggregates twice gives the same bytes: the
/// encoding is a function of the values alone.
pub proof fn lemma_expr_cache_deterministic(x1: ExprCsc, st1: Seq<CellStats>, x2: ExprCsc, st2: Seq<CellStats>)
    requires
        x1.n_genes == x2.n_genes,
        x1.n_cells == x2.n_cells,
        x1.nnz == x2.nnz,
        x1.col_ptr@ == x2.col_ptr@,
        x1.row_idx@ == x2.row_idx@,
        x1.values@ == x2.values@,
        st1 == st2,
    ensures
        expr_cache_bytes(x1, st1) == expr_cache_bytes(x2, st2),
{
}

} // verus!
