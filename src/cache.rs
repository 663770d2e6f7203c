//! Binary caches: a private round-trip format for a built matrix, and a
//! shared, mappable container with a checksummed header and structural
//! validation.

use vstd::bytes::*;
use vstd::prelude::*;
use vstd::slice::slice_subrange;
use vstd::utf8::valid_utf8;
use vstd::utf8::decode_utf8;

verus! {

/// Size of the shared container's fixed header, in bytes.
pub const SHARED_HEADER_SIZE: usize = 256;

/// Sentinel stored in the header; a byte-swapped file reads it differently.
pub const SHARED_ENDIAN_TAG: u32 = 0x1234_5678;

/// The shared container's magic: `KORG`.
pub open spec fn shared_magic() -> Seq<u8> {
    seq![0x4Bu8, 0x4Fu8, 0x52u8, 0x47u8]
}

/// A region of the shared container that the header locates.
#[derive(Debug, Clone, Copy, PartialEq, Eq, Structural)]
pub enum Region {
    GenesTable,
    BarcodesTable,
    ColPtr,
    RowIdx,
    Values,
}

/// What is wrong with a cache file's layout or content.
#[derive(Debug, Clone, Copy, PartialEq, Eq, Structural)]
pub enum FormatIssue {
    FileSmallerThanHeader,
    UnsupportedMinorVersion,
    InvalidEndianTag,
    InvalidHeaderSize,
    UnsupportedBlocks,
    FileBytesMismatch,
    HeaderCrcMismatch,
    OffsetBeforeHeader(Region),
    BoundsOverflow(Region),
    OutOfBounds(Region),
    SizeOverflow(Region),
    TableTooSmall(Region),
    TableCountMismatch(Region),
    MissingOffsets(Region),
    OffsetsNotMonotonic(Region),
    TerminalOffsetMismatch(Region),
    InvalidUtf8(Region),
    ColPtrStart,
    ColPtrNotMonotonic,
    ColPtrEndMismatch,
    RowOutOfBounds,
    RowsNotIncreasing,
    LengthsMismatch,
    Truncated,
    CellTooLarge,
}

/// A cache file that cannot be used. Distinct from I/O failures, so that a
/// caller can tell a corrupt file from a missing one.
#[derive(Debug, Clone, Copy, PartialEq, Eq, Structural)]
pub enum CacheError {
    InvalidMagic,
    UnsupportedVersion(u32),
    InvalidFormat(FormatIssue),
}

impl CacheError {
    /// A short description of the error.
    pub fn message(&self) -> &'static str {
        match self {
            CacheError::InvalidMagic => "invalid cache magic",
            CacheError::UnsupportedVersion(_) => "unsupported cache version",
            CacheError::InvalidFormat(issue) => issue.message(),
        }
    }
}

impl FormatIssue {
    /// A short description of the problem.
    pub fn message(&self) -> &'static str {
        match self {
            FormatIssue::FileSmallerThanHeader => "file smaller than header",
            FormatIssue::UnsupportedMinorVersion => "unsupported minor version",
            FormatIssue::InvalidEndianTag => "invalid endian tag",
            FormatIssue::InvalidHeaderSize => "invalid header size",
            FormatIssue::UnsupportedBlocks => "unsupported optional blocks in v1",
            FormatIssue::FileBytesMismatch => "file_bytes does not match file length",
            FormatIssue::HeaderCrcMismatch => "header CRC64 mismatch",
            FormatIssue::OffsetBeforeHeader(_) => "region offset before header",
            FormatIssue::BoundsOverflow(_) => "region bounds overflow",
            FormatIssue::OutOfBounds(_) => "region out of file bounds",
            FormatIssue::SizeOverflow(_) => "region size overflow",
            FormatIssue::TableTooSmall(_) => "string table too small",
            FormatIssue::TableCountMismatch(_) => "string table count mismatch",
            FormatIssue::MissingOffsets(_) => "string table missing offsets",
            FormatIssue::OffsetsNotMonotonic(_) => "string table offsets not monotonic",
            FormatIssue::TerminalOffsetMismatch(_) => "string table terminal offset mismatch",
            FormatIssue::InvalidUtf8(_) => "string table contains invalid UTF-8 string",
            FormatIssue::ColPtrStart => "col_ptr[0] must be 0",
            FormatIssue::ColPtrNotMonotonic => "col_ptr must be monotonic",
            FormatIssue::ColPtrEndMismatch => "col_ptr[n_cells] must equal nnz",
            FormatIssue::RowOutOfBounds => "row_idx out of bounds",
            FormatIssue::RowsNotIncreasing => "row_idx must be strictly increasing per column",
            FormatIssue::LengthsMismatch => "lengths do not match header",
            FormatIssue::Truncated => "unexpected end of cache data",
            FormatIssue::CellTooLarge => "a cell holds more entries than its counter can count",
        }
    }
}

pub open spec fn u16_at(b: Seq<u8>, o: int) -> u16 {
    spec_u16_from_le_bytes(b.subrange(o, o + 2))
}

pub open spec fn u32_at(b: Seq<u8>, o: int) -> u32 {
    spec_u32_from_le_bytes(b.subrange(o, o + 4))
}

pub open spec fn u64_at(b: Seq<u8>, o: int) -> u64 {
    spec_u64_from_le_bytes(b.subrange(o, o + 8))
}

pub(crate) fn read_u16_slice(b: &[u8], o: usize) -> (r: u16)
    requires
        o + 2 <= b@.len(),
    ensures
        r == u16_at(b@, o as int),
{
    let n = b.len();
    assert(o + 2 <= n);
    u16_from_le_bytes(slice_subrange(b, o, o + 2))
}

pub(crate) fn read_u32_slice(b: &[u8], o: usize) -> (r: u32)
    requires
        o + 4 <= b@.len(),
    ensures
        r == u32_at(b@, o as int),
{
    let n = b.len();
    assert(o + 4 <= n);
    u32_from_le_bytes(slice_subrange(b, o, o + 4))
}

pub(crate) fn read_u64_slice(b: &[u8], o: usize) -> (r: u64)
    requires
        o + 8 <= b@.len(),
    ensures
        r == u64_at(b@, o as int),
{
    let n = b.len();
    assert(o + 8 <= n);
    u64_from_le_bytes(slice_subrange(b, o, o + 8))
}

/// CRC-64/ECMA-182 of a byte string.
pub uninterp spec fn crc64_ecma(b: Seq<u8>) -> u64;

/// Relies on `crc::Crc::<u64>::checksum` with the `CRC_64_ECMA_182`
/// parameters: the checksum depends on the bytes alone.
#[verifier::external_body]
fn crc64_checksum(b: &[u8]) -> (r: u64)
    ensures
        r == crc64_ecma(b@),
{
    crc::Crc::<u64>::new(&crc::CRC_64_ECMA_182).checksum(b)
}

/// The header as it is checksummed: its first 256 bytes, with the checksum
/// field (bytes 120 to 128) zeroed.
pub open spec fn zeroed_header(b: Seq<u8>) -> Seq<u8> {
    Seq::new(256, |i: int| if 120 <= i < 128 { 0u8 } else { b[i] })
}

/// Checks that `bytes` at `offset` lie after the header and inside a file of
/// `len` bytes.
pub open spec fn region_issue(len: int, offset: int, bytes: int, r: Region) -> Option<FormatIssue> {
    if offset < 256 {
        Some(FormatIssue::OffsetBeforeHeader(r))
    } else if offset + bytes > u64::MAX {
        Some(FormatIssue::BoundsOverflow(r))
    } else if offset + bytes > len {
        Some(FormatIssue::OutOfBounds(r))
    } else {
        None
    }
}

fn check_bounds(file_len: u64, offset: u64, bytes: u64, r: Region) -> (res: Result<(), CacheError>)
    ensures
        match region_issue(file_len as int, offset as int, bytes as int, r) {
            Some(i) => res == Err::<(), CacheError>(CacheError::InvalidFormat(i)),
            None => res is Ok,
        },
{
    if offset < 256 {
        return Err(CacheError::InvalidFormat(FormatIssue::OffsetBeforeHeader(r)));
    }
    let end = match offset.checked_add(bytes) {
        Some(e) => e,
        None => return Err(CacheError::InvalidFormat(FormatIssue::BoundsOverflow(r))),
    };
    if end > file_len {
        return Err(CacheError::InvalidFormat(FormatIssue::OutOfBounds(r)));
    }
    Ok(())
}


/// Offset `i` of the string table at `off`, relative to its blob.
pub open spec fn table_offset(b: Seq<u8>, off: int, i: int) -> int {
    u32_at(b, off + 4 + 4 * i) as int
}

/// Where the blob of the string table at `off` with `count` strings starts.
pub open spec fn table_blob_start(off: int, count: int) -> int {
    off + 4 + (count + 1) * 4
}

/// The bytes of string `i` of the table at `off`.
pub open spec fn table_entry_bytes(b: Seq<u8>, off: int, i: int) -> Seq<u8> {
    let start = table_blob_start(off, u32_at(b, off) as int);
    b.subrange(start + table_offset(b, off, i), start + table_offset(b, off, i + 1))
}

/// The first problem of the string table of `bytes` bytes at `off`, which
/// must hold `expected` strings.
pub open spec fn table_issue(b: Seq<u8>, off: int, bytes: int, expected: int, r: Region) -> Option<
    FormatIssue,
> {
    let count = u32_at(b, off) as int;
    if bytes < 4 {
        Some(FormatIssue::TableTooSmall(r))
    } else if count != expected {
        Some(FormatIssue::TableCountMismatch(r))
    } else if bytes < 4 + (count + 1) * 4 {
        Some(FormatIssue::MissingOffsets(r))
    } else if exists|i: int|
        0 <= i < count && table_offset(b, off, i + 1) < #[trigger] table_offset(b, off, i) {
        Some(FormatIssue::OffsetsNotMonotonic(r))
    } else if table_offset(b, off, count) != bytes - 4 - (count + 1) * 4 {
        Some(FormatIssue::TerminalOffsetMismatch(r))
    } else if exists|i: int| 0 <= i < count && !valid_utf8(#[trigger] table_entry_bytes(b, off, i)) {
        Some(FormatIssue::InvalidUtf8(r))
    } else {
        None
    }
}

/// Relies on `std::str::from_utf8`: it succeeds exactly on valid UTF-8, and
/// the owned copy holds the decoded characters.
#[verifier::external_body]
pub(crate) fn utf8_to_string(b: &[u8]) -> (r: Option<String>)
    ensures
        r is Some <==> valid_utf8(b@),
        r matches Some(s) ==> s@ == decode_utf8(b@),
{
    std::str::from_utf8(b).ok().map(|s| s.to_string())
}

/// Decodes the string table of `bytes` bytes at `offset`: a count, then
/// `count + 1` cumulative offsets, then the UTF-8 blob they index.
fn parse_string_table(b: &[u8], offset: u64, bytes: u64, expected: u64, r: Region) -> (res: Result<
    Vec<String>,
    CacheError,
>)
    requires
        offset + bytes <= b@.len(),
    ensures
        match table_issue(b@, offset as int, bytes as int, expected as int, r) {
            Some(i) => res == Err::<Vec<String>, CacheError>(CacheError::InvalidFormat(i)),
            None => res matches Ok(v) && v@.len() == expected && forall|i: int|
                0 <= i < expected ==> (#[trigger] v@[i])@ == decode_utf8(
                    table_entry_bytes(b@, offset as int, i),
                ),
        },
{
    let ghost bs = b@;
    let len = b.len();
    let off = offset as usize;
    let nbytes = bytes as usize;
    if nbytes < 4 {
        return Err(CacheError::InvalidFormat(FormatIssue::TableTooSmall(r)));
    }
    let count = read_u32_slice(b, off);
    if count as u64 != expected {
        return Err(CacheError::InvalidFormat(FormatIssue::TableCountMismatch(r)));
    }
    let cnt = count as usize;
    let wide_offsets_bytes: u64 = (count as u64 + 1) * 4;
    if bytes < 4 + wide_offsets_bytes {
        return Err(CacheError::InvalidFormat(FormatIssue::MissingOffsets(r)));
    }
    let offsets_bytes = wide_offsets_bytes as usize;
    let mut offsets: Vec<usize> = Vec::with_capacity(cnt + 1);
    let mut i: usize = 0;
    while i <= cnt
        invariant
            bs == b@,
            len == bs.len(),
            off + nbytes <= len,
            4 + (cnt + 1) * 4 <= nbytes,
            cnt == u32_at(bs, off as int),
            off == offset,
            i <= cnt + 1,
            offsets@.len() == i,
            forall|k: int| 0 <= k < i ==> #[trigger] offsets@[k] == table_offset(bs, off as int, k),
        decreases cnt + 1 - i,
    {
        let v = read_u32_slice(b, off + 4 + i * 4);
        offsets.push(v as usize);
        i = i + 1;
    }
    let mut i: usize = 0;
    while i < cnt
        invariant
            bs == b@,
            off == offset,
            nbytes == bytes,
            nbytes >= 4,
            cnt == expected,
            cnt == u32_at(bs, off as int),
            4 + (cnt + 1) * 4 <= nbytes,
            offsets@.len() == cnt + 1,
            i <= cnt,
            forall|k: int| 0 <= k <= cnt ==> #[trigger] offsets@[k] == table_offset(bs, off as int, k),
            forall|k: int|
                0 <= k < i ==> table_offset(bs, off as int, k) <= #[trigger] table_offset(
                    bs,
                    off as int,
                    k + 1,
                ),
        decreases cnt - i,
    {
        if offsets[i + 1] < offsets[i] {
            assert(table_offset(bs, off as int, i + 1) < table_offset(bs, off as int, i as int));
            return Err(CacheError::InvalidFormat(FormatIssue::OffsetsNotMonotonic(r)));
        }
        i = i + 1;
    }
    let blob_start = off + 4 + offsets_bytes;
    let blob_len = nbytes - 4 - offsets_bytes;
    if offsets[cnt] != blob_len {
        return Err(CacheError::InvalidFormat(FormatIssue::TerminalOffsetMismatch(r)));
    }
    proof {
        lemma_offsets_bounded(bs, off as int, cnt as int);
    }
    let mut out: Vec<String> = Vec::with_capacity(cnt);
    let mut i: usize = 0;
    while i < cnt
        invariant
            bs == b@,
            len == bs.len(),
            off + nbytes <= len,
            off == offset,
            nbytes == bytes,
            nbytes >= 4,
            cnt == expected,
            4 + (cnt + 1) * 4 <= nbytes,
            blob_len == nbytes - 4 - (cnt + 1) * 4,
            table_offset(bs, off as int, cnt as int) == blob_len,
            blob_start == table_blob_start(off as int, cnt as int),
            blob_start + blob_len == off + nbytes,
            cnt == u32_at(bs, off as int),
            offsets@.len() == cnt + 1,
            forall|k: int| 0 <= k <= cnt ==> #[trigger] offsets@[k] == table_offset(bs, off as int, k),
            forall|k: int| 0 <= k <= cnt ==> #[trigger] table_offset(bs, off as int, k) <= blob_len,
            forall|k: int|
                0 <= k < cnt ==> table_offset(bs, off as int, k) <= #[trigger] table_offset(
                    bs,
                    off as int,
                    k + 1,
                ),
            i <= cnt,
            out@.len() == i,
            forall|k: int|
                0 <= k < i ==> (#[trigger] out@[k])@ == decode_utf8(
                    table_entry_bytes(bs, off as int, k),
                ),
            forall|k: int| 0 <= k < i ==> valid_utf8(#[trigger] table_entry_bytes(bs, off as int, k)),
        decreases cnt - i,
    {
        let start = offsets[i];
        let end = offsets[i + 1];
        let piece = slice_subrange(b, blob_start + start, blob_start + end);
        assert(piece@ == table_entry_bytes(bs, off as int, i as int));
        match utf8_to_string(piece) {
            Some(st) => out.push(st),
            None => {
                assert(!valid_utf8(table_entry_bytes(bs, off as int, i as int)));
                return Err(CacheError::InvalidFormat(FormatIssue::InvalidUtf8(r)));
            },
        }
        i = i + 1;
    }
    Ok(out)
}

proof fn lemma_offsets_bounded(b: Seq<u8>, off: int, cnt: int)
    requires
        cnt >= 0,
        forall|k: int| 0 <= k < cnt ==> table_offset(b, off, k) <= #[trigger] table_offset(b, off, k + 1),
    ensures
        forall|k: int| 0 <= k <= cnt ==> #[trigger] table_offset(b, off, k) <= table_offset(b, off, cnt),
{
    assert forall|k: int| 0 <= k <= cnt implies #[trigger] table_offset(b, off, k) <= table_offset(b, off, cnt) by {
        lemma_offsets_step(b, off, k, cnt);
    }
}

proof fn lemma_offsets_step(b: Seq<u8>, off: int, k: int, cnt: int)
    requires
        0 <= k <= cnt,
        forall|j: int| 0 <= j < cnt ==> table_offset(b, off, j) <= #[trigger] table_offset(b, off, j + 1),
    ensures
        table_offset(b, off, k) <= table_offset(b, off, cnt),
    decreases cnt - k,
{
    if k < cnt {
        lemma_offsets_step(b, off, k + 1, cnt);
        assert(table_offset(b, off, k) <= table_offset(b, off, k + 1));
    }
}


/// Column pointer `i` of the array at `cp_off`.
pub open spec fn cp_at(b: Seq<u8>, cp_off: int, i: int) -> u64 {
    u64_at(b, cp_off + 8 * i)
}

/// Row index `i` of the array at `ri_off`.
pub open spec fn row_at(b: Seq<u8>, ri_off: int, i: int) -> u32 {
    u32_at(b, ri_off + 4 * i)
}

/// Column pointer `i` is no smaller than pointer `i - 1`.
pub open spec fn cp_rises(b: Seq<u8>, cp_off: int, i: int) -> bool {
    cp_at(b, cp_off, i) >= cp_at(b, cp_off, i - 1)
}

/// Row index `i` is larger than row index `i - 1`.
pub open spec fn row_rises(b: Seq<u8>, ri_off: int, i: int) -> bool {
    row_at(b, ri_off, i) > row_at(b, ri_off, i - 1)
}

/// The first structural problem of the mapped CSC arrays. Column pointers
/// are checked first; then every row index against `n_genes`; then the
/// strict row order within each column.
pub open spec fn csc_issue(
    b: Seq<u8>,
    n_genes: int,
    n_cells: int,
    nnz: int,
    cp_off: int,
    ri_off: int,
) -> Option<FormatIssue> {
    if cp_at(b, cp_off, 0) != 0 {
        Some(FormatIssue::ColPtrStart)
    } else if exists|i: int| 1 <= i <= n_cells && !#[trigger] cp_rises(b, cp_off, i) {
        Some(FormatIssue::ColPtrNotMonotonic)
    } else if cp_at(b, cp_off, n_cells) != nnz {
        Some(FormatIssue::ColPtrEndMismatch)
    } else if exists|i: int| 0 <= i < nnz && #[trigger] row_at(b, ri_off, i) >= n_genes {
        Some(FormatIssue::RowOutOfBounds)
    } else if exists|c: int, i: int|
        #![trigger cp_at(b, cp_off, c), row_rises(b, ri_off, i)]
        0 <= c < n_cells && cp_at(b, cp_off, c) < i < cp_at(b, cp_off, c + 1) && !row_rises(
            b,
            ri_off,
            i,
        ) {
        Some(FormatIssue::RowsNotIncreasing)
    } else {
        None
    }
}

proof fn lemma_cp_below_last(b: Seq<u8>, cp_off: int, n_cells: int, k: int)
    requires
        0 <= k <= n_cells,
        forall|i: int| 1 <= i <= n_cells ==> #[trigger] cp_rises(b, cp_off, i),
    ensures
        cp_at(b, cp_off, k) <= cp_at(b, cp_off, n_cells),
    decreases n_cells - k,
{
    if k < n_cells {
        lemma_cp_below_last(b, cp_off, n_cells, k + 1);
        assert(cp_rises(b, cp_off, k + 1));
    }
}

/// Pointer order of a monotone column pointer array: any earlier pointer is
/// no larger than any later one.
pub proof fn lemma_cp_ordered(b: Seq<u8>, cp_off: int, n_cells: int, a: int, k: int)
    requires
        0 <= a <= k <= n_cells,
        forall|i: int| 1 <= i <= n_cells ==> #[trigger] cp_rises(b, cp_off, i),
    ensures
        cp_at(b, cp_off, a) <= cp_at(b, cp_off, k),
    decreases k - a,
{
    if a < k {
        lemma_cp_ordered(b, cp_off, n_cells, a, k - 1);
        assert(cp_rises(b, cp_off, k));
    }
}

fn validate_csc(
    b: &[u8],
    n_genes: usize,
    n_cells: usize,
    nnz: usize,
    col_ptr_offset: usize,
    row_idx_offset: usize,
) -> (res: Result<(), CacheError>)
    requires
        col_ptr_offset + 8 * (n_cells + 1) <= b@.len(),
        row_idx_offset + 4 * nnz <= b@.len(),
    ensures
        match csc_issue(
            b@,
            n_genes as int,
            n_cells as int,
            nnz as int,
            col_ptr_offset as int,
            row_idx_offset as int,
        ) {
            Some(i) => res == Err::<(), CacheError>(CacheError::InvalidFormat(i)),
            None => res is Ok,
        },
{
    let ghost bs = b@;
    let ghost cpo = col_ptr_offset as int;
    let ghost rio = row_idx_offset as int;
    let len = b.len();
    let first = read_u64_slice(b, col_ptr_offset);
    if first != 0 {
        return Err(CacheError::InvalidFormat(FormatIssue::ColPtrStart));
    }
    let mut prev: u64 = 0;
    let mut i: usize = 1;
    while i <= n_cells
        invariant
            bs == b@,
            len == bs.len(),
            col_ptr_offset + 8 * (n_cells + 1) <= len,
            1 <= i <= n_cells + 1,
            prev == cp_at(bs, cpo, i - 1),
            cpo == col_ptr_offset,
            forall|k: int| 1 <= k < i ==> #[trigger] cp_rises(bs, cpo, k),
            cp_at(bs, cpo, 0) == 0,
        decreases n_cells + 1 - i,
    {
        let v = read_u64_slice(b, col_ptr_offset + i * 8);
        if v < prev {
            assert(!cp_rises(bs, cpo, i as int));
            return Err(CacheError::InvalidFormat(FormatIssue::ColPtrNotMonotonic));
        }
        prev = v;
        i = i + 1;
    }
    if prev != nnz as u64 {
        return Err(CacheError::InvalidFormat(FormatIssue::ColPtrEndMismatch));
    }
    let mut p: usize = 0;
    while p < nnz
        invariant
            bs == b@,
            len == bs.len(),
            row_idx_offset + 4 * nnz <= len,
            rio == row_idx_offset,
            cpo == col_ptr_offset,
            p <= nnz,
            forall|k: int| 0 <= k < p ==> #[trigger] row_at(bs, rio, k) < n_genes,
            cp_at(bs, cpo, 0) == 0,
            cp_at(bs, cpo, n_cells as int) == nnz,
            forall|k: int| 1 <= k <= n_cells ==> #[trigger] cp_rises(bs, cpo, k),
        decreases nnz - p,
    {
        let row = read_u32_slice(b, row_idx_offset + p * 4);
        if row as usize >= n_genes {
            assert(row_at(bs, rio, p as int) >= n_genes);
            return Err(CacheError::InvalidFormat(FormatIssue::RowOutOfBounds));
        }
        p = p + 1;
    }
    let mut c: usize = 0;
    while c < n_cells
        invariant
            bs == b@,
            len == bs.len(),
            col_ptr_offset + 8 * (n_cells + 1) <= len,
            row_idx_offset + 4 * nnz <= len,
            cpo == col_ptr_offset,
            rio == row_idx_offset,
            c <= n_cells,
            cp_at(bs, cpo, n_cells as int) == nnz,
            forall|k: int| 1 <= k <= n_cells ==> #[trigger] cp_rises(bs, cpo, k),
            cp_at(bs, cpo, 0) == 0,
            forall|k: int| 0 <= k < nnz ==> #[trigger] row_at(bs, rio, k) < n_genes,
            forall|cc: int, k: int|
                #![trigger cp_at(bs, cpo, cc), row_rises(bs, rio, k)]
                0 <= cc < c && cp_at(bs, cpo, cc) < k < cp_at(bs, cpo, cc + 1) ==> row_rises(bs, rio, k),
        decreases n_cells - c,
    {
        let start = read_u64_slice(b, col_ptr_offset + c * 8);
        let end = read_u64_slice(b, col_ptr_offset + (c + 1) * 8);
        proof {
            lemma_cp_below_last(bs, cpo, n_cells as int, c + 1);
            assert(cp_rises(bs, cpo, c + 1));
        }
        let mut k: usize = start as usize + 1;
        while k < end as usize
            invariant
                bs == b@,
                len == bs.len(),
                row_idx_offset + 4 * nnz <= len,
                rio == row_idx_offset,
                start == cp_at(bs, cpo, c as int),
                end == cp_at(bs, cpo, c + 1),
                start <= end <= nnz,
                start + 1 <= k,
                k <= end || k == start + 1,
                forall|j: int| start < j < k && j < end ==> #[trigger] row_rises(bs, rio, j),
                cpo == col_ptr_offset,
                c < n_cells,
                cp_at(bs, cpo, 0) == 0,
                cp_at(bs, cpo, n_cells as int) == nnz,
                forall|kk: int| 1 <= kk <= n_cells ==> #[trigger] cp_rises(bs, cpo, kk),
                forall|kk: int| 0 <= kk < nnz ==> #[trigger] row_at(bs, rio, kk) < n_genes,
            decreases end - k,
        {
            let cur = read_u32_slice(b, row_idx_offset + k * 4);
            let before = read_u32_slice(b, row_idx_offset + (k - 1) * 4);
            if cur <= before {
                assert(cp_at(bs, cpo, c as int) < k < cp_at(bs, cpo, c + 1));
                assert(!row_rises(bs, rio, k as int));
                return Err(CacheError::InvalidFormat(FormatIssue::RowsNotIncreasing));
            }
            k = k + 1;
        }
        c = c + 1;
    }
    Ok(())
}


pub open spec fn as_format(o: Option<FormatIssue>) -> Option<CacheError> {
    match o {
        Some(i) => Some(CacheError::InvalidFormat(i)),
        None => None,
    }
}

/// Header fields of the shared container, by byte offset.
pub open spec fn hdr_n_genes(b: Seq<u8>) -> u64 { u64_at(b, 16) }
pub open spec fn hdr_n_cells(b: Seq<u8>) -> u64 { u64_at(b, 24) }
pub open spec fn hdr_nnz(b: Seq<u8>) -> u64 { u64_at(b, 32) }
pub open spec fn hdr_genes_offset(b: Seq<u8>) -> u64 { u64_at(b, 40) }
pub open spec fn hdr_genes_bytes(b: Seq<u8>) -> u64 { u64_at(b, 48) }
pub open spec fn hdr_barcodes_offset(b: Seq<u8>) -> u64 { u64_at(b, 56) }
pub open spec fn hdr_barcodes_bytes(b: Seq<u8>) -> u64 { u64_at(b, 64) }
pub open spec fn hdr_col_ptr_offset(b: Seq<u8>) -> u64 { u64_at(b, 72) }
pub open spec fn hdr_row_idx_offset(b: Seq<u8>) -> u64 { u64_at(b, 80) }
pub open spec fn hdr_values_offset(b: Seq<u8>) -> u64 { u64_at(b, 88) }
pub open spec fn hdr_crc(b: Seq<u8>) -> u64 { u64_at(b, 120) }

/// The header checks that come before the checksum: size, magic, version,
/// endian tag, header size, extension blocks and file length.
pub open spec fn header_fields_issue(b: Seq<u8>) -> Option<CacheError> {
    if b.len() < 256 {
        Some(CacheError::InvalidFormat(FormatIssue::FileSmallerThanHeader))
    } else if b.subrange(0, 4) != shared_magic() {
        Some(CacheError::InvalidMagic)
    } else if u16_at(b, 4) != 1 {
        Some(CacheError::UnsupportedVersion(u16_at(b, 4) as u32))
    } else if u16_at(b, 6) != 0 {
        Some(CacheError::InvalidFormat(FormatIssue::UnsupportedMinorVersion))
    } else if u32_at(b, 8) != 0x1234_5678 {
        Some(CacheError::InvalidFormat(FormatIssue::InvalidEndianTag))
    } else if u32_at(b, 12) != 256 {
        Some(CacheError::InvalidFormat(FormatIssue::InvalidHeaderSize))
    } else if u64_at(b, 96) != 0 || u64_at(b, 104) != 0 {
        Some(CacheError::InvalidFormat(FormatIssue::UnsupportedBlocks))
    } else if u64_at(b, 112) != b.len() {
        Some(CacheError::InvalidFormat(FormatIssue::FileBytesMismatch))
    } else {
        None
    }
}

/// Bounds of every region the header locates, with the CSC region sizes
/// computed without overflow.
pub open spec fn regions_issue(b: Seq<u8>) -> Option<FormatIssue> {
    let len = b.len() as int;
    let cp_bytes = (hdr_n_cells(b) + 1) * 8;
    let idx_bytes = hdr_nnz(b) * 4;
    if region_issue(len, hdr_genes_offset(b) as int, hdr_genes_bytes(b) as int, Region::GenesTable) is Some {
        region_issue(len, hdr_genes_offset(b) as int, hdr_genes_bytes(b) as int, Region::GenesTable)
    } else if region_issue(len, hdr_barcodes_offset(b) as int, hdr_barcodes_bytes(b) as int, Region::BarcodesTable) is Some {
        region_issue(len, hdr_barcodes_offset(b) as int, hdr_barcodes_bytes(b) as int, Region::BarcodesTable)
    } else if cp_bytes > u64::MAX {
        Some(FormatIssue::SizeOverflow(Region::ColPtr))
    } else if idx_bytes > u64::MAX {
        Some(FormatIssue::SizeOverflow(Region::RowIdx))
    } else if region_issue(len, hdr_col_ptr_offset(b) as int, cp_bytes, Region::ColPtr) is Some {
        region_issue(len, hdr_col_ptr_offset(b) as int, cp_bytes, Region::ColPtr)
    } else if region_issue(len, hdr_row_idx_offset(b) as int, idx_bytes, Region::RowIdx) is Some {
        region_issue(len, hdr_row_idx_offset(b) as int, idx_bytes, Region::RowIdx)
    } else {
        region_issue(len, hdr_values_offset(b) as int, idx_bytes, Region::Values)
    }
}

/// The first reason why `b` is not a usable shared container, if any.
/// Structural CSC checks run only when `strict`.
pub open spec fn shared_issue(b: Seq<u8>, strict: bool) -> Option<CacheError> {
    if header_fields_issue(b) is Some {
        header_fields_issue(b)
    } else if crc64_ecma(zeroed_header(b)) != hdr_crc(b) {
        Some(CacheError::InvalidFormat(FormatIssue::HeaderCrcMismatch))
    } else if regions_issue(b) is Some {
        as_format(regions_issue(b))
    } else if table_issue(b, hdr_genes_offset(b) as int, hdr_genes_bytes(b) as int, hdr_n_genes(b) as int, Region::GenesTable) is Some {
        as_format(table_issue(b, hdr_genes_offset(b) as int, hdr_genes_bytes(b) as int, hdr_n_genes(b) as int, Region::GenesTable))
    } else if table_issue(b, hdr_barcodes_offset(b) as int, hdr_barcodes_bytes(b) as int, hdr_n_cells(b) as int, Region::BarcodesTable) is Some {
        as_format(table_issue(b, hdr_barcodes_offset(b) as int, hdr_barcodes_bytes(b) as int, hdr_n_cells(b) as int, Region::BarcodesTable))
    } else if strict && csc_issue(b, hdr_n_genes(b) as int, hdr_n_cells(b) as int, hdr_nnz(b) as int, hdr_col_ptr_offset(b) as int, hdr_row_idx_offset(b) as int) is Some {
        as_format(csc_issue(b, hdr_n_genes(b) as int, hdr_n_cells(b) as int, hdr_nnz(b) as int, hdr_col_ptr_offset(b) as int, hdr_row_idx_offset(b) as int))
    } else {
        None
    }
}

/// Where the CSC arrays of a validated shared container lie, and its shape.
#[derive(Debug, Clone, Copy, PartialEq, Eq, Structural)]
pub struct SharedLayout {
    pub n_genes: usize,
    pub n_cells: usize,
    pub nnz: usize,
    pub col_ptr_offset: usize,
    pub row_idx_offset: usize,
    pub values_offset: usize,
}

impl SharedLayout {
    /// The layout that the header of `b` describes.
    pub open spec fn of_header(self, b: Seq<u8>) -> bool {
        &&& self.n_genes == hdr_n_genes(b)
        &&& self.n_cells == hdr_n_cells(b)
        &&& self.nnz == hdr_nnz(b)
        &&& self.col_ptr_offset == hdr_col_ptr_offset(b)
        &&& self.row_idx_offset == hdr_row_idx_offset(b)
        &&& self.values_offset == hdr_values_offset(b)
    }

    /// The CSC arrays lie inside a buffer of `len` bytes.
    pub open spec fn fits(self, len: int) -> bool {
        &&& self.col_ptr_offset + 8 * (self.n_cells + 1) <= len
        &&& self.row_idx_offset + 4 * self.nnz <= len
        &&& self.values_offset + 4 * self.nnz <= len
    }
}

/// The validated content of a shared container: its layout and its two
/// string tables.
pub struct SharedContent {
    pub layout: SharedLayout,
    pub genes: Vec<String>,
    pub barcodes: Vec<String>,
}

/// Decoded strings of the table at `off`, which holds `count` strings.
pub open spec fn table_decoded(v: Seq<String>, b: Seq<u8>, off: int, count: int) -> bool {
    &&& v.len() == count
    &&& forall|i: int| 0 <= i < count ==> (#[trigger] v[i])@ == decode_utf8(table_entry_bytes(b, off, i))
}

fn build_zeroed_header(b: &[u8]) -> (r: Vec<u8>)
    requires
        b@.len() >= 256,
    ensures
        r@ == zeroed_header(b@),
{
    let mut h: Vec<u8> = Vec::with_capacity(256);
    let mut i: usize = 0;
    while i < 256
        invariant
            b@.len() >= 256,
            i <= 256,
            h@ =~= zeroed_header(b@).take(i as int),
        decreases 256 - i,
    {
        if 120 <= i && i < 128 {
            h.push(0u8);
        } else {
            h.push(b[i]);
        }
        i = i + 1;
    }
    assert(h@ =~= zeroed_header(b@));
    h
}

/// Validates a shared container held in `b`: header fields, header
/// checksum, region bounds, both string tables and, when `strict`, the
/// structure of the CSC arrays. The first failing check decides the error.
pub fn validate_shared_cache(b: &[u8], strict: bool) -> (r: Result<SharedContent, CacheError>)
    ensures
        match shared_issue(b@, strict) {
            Some(e) => r == Err::<SharedContent, CacheError>(e),
            None => r matches Ok(c) && c.layout.of_header(b@) && c.layout.fits(b@.len() as int)
                && table_decoded(c.genes@, b@, hdr_genes_offset(b@) as int, c.layout.n_genes as int)
                && table_decoded(c.barcodes@, b@, hdr_barcodes_offset(b@) as int, c.layout.n_cells as int),
        },
{
    let ghost bs = b@;
    let len = b.len();
    if len < SHARED_HEADER_SIZE {
        return Err(CacheError::InvalidFormat(FormatIssue::FileSmallerThanHeader));
    }
    if !(b[0] == 0x4B && b[1] == 0x4F && b[2] == 0x52 && b[3] == 0x47) {
        proof {
            if bs.subrange(0, 4) == shared_magic() {
                assert(bs.subrange(0, 4)[0] == 0x4B && bs.subrange(0, 4)[1] == 0x4F);
                assert(bs.subrange(0, 4)[2] == 0x52 && bs.subrange(0, 4)[3] == 0x47);
            }
        }
        return Err(CacheError::InvalidMagic);
    }
    assert(bs.subrange(0, 4) =~= shared_magic());
    let major = read_u16_slice(b, 4);
    let minor = read_u16_slice(b, 6);
    if major != 1 {
        return Err(CacheError::UnsupportedVersion(major as u32));
    }
    if minor != 0 {
        return Err(CacheError::InvalidFormat(FormatIssue::UnsupportedMinorVersion));
    }
    if read_u32_slice(b, 8) != SHARED_ENDIAN_TAG {
        return Err(CacheError::InvalidFormat(FormatIssue::InvalidEndianTag));
    }
    if read_u32_slice(b, 12) != 256 {
        return Err(CacheError::InvalidFormat(FormatIssue::InvalidHeaderSize));
    }
    let n_genes = read_u64_slice(b, 16);
    let n_cells = read_u64_slice(b, 24);
    let nnz = read_u64_slice(b, 32);
    let genes_off = read_u64_slice(b, 40);
    let genes_bytes = read_u64_slice(b, 48);
    let barcodes_off = read_u64_slice(b, 56);
    let barcodes_bytes = read_u64_slice(b, 64);
    let col_ptr_off = read_u64_slice(b, 72);
    let row_idx_off = read_u64_slice(b, 80);
    let values_off = read_u64_slice(b, 88);
    let n_blocks = read_u64_slice(b, 96);
    let blocks_off = read_u64_slice(b, 104);
    let file_bytes = read_u64_slice(b, 112);
    let stored_crc = read_u64_slice(b, 120);
    if n_blocks != 0 || blocks_off != 0 {
        return Err(CacheError::InvalidFormat(FormatIssue::UnsupportedBlocks));
    }
    if file_bytes != len as u64 {
        return Err(CacheError::InvalidFormat(FormatIssue::FileBytesMismatch));
    }
    let zeroed = build_zeroed_header(b);
    let crc = crc64_checksum(zeroed.as_slice());
    if crc != stored_crc {
        return Err(CacheError::InvalidFormat(FormatIssue::HeaderCrcMismatch));
    }
    let file_len = len as u64;
    match check_bounds(file_len, genes_off, genes_bytes, Region::GenesTable) {
        Ok(()) => {},
        Err(e) => return Err(e),
    }
    match check_bounds(file_len, barcodes_off, barcodes_bytes, Region::BarcodesTable) {
        Ok(()) => {},
        Err(e) => return Err(e),
    }
    if n_cells >= u64::MAX / 8 {
        return Err(CacheError::InvalidFormat(FormatIssue::SizeOverflow(Region::ColPtr)));
    }
    let col_ptr_bytes = (n_cells + 1) * 8;
    if nnz > u64::MAX / 4 {
        return Err(CacheError::InvalidFormat(FormatIssue::SizeOverflow(Region::RowIdx)));
    }
    let idx_bytes = nnz * 4;
    match check_bounds(file_len, col_ptr_off, col_ptr_bytes, Region::ColPtr) {
        Ok(()) => {},
        Err(e) => return Err(e),
    }
    match check_bounds(file_len, row_idx_off, idx_bytes, Region::RowIdx) {
        Ok(()) => {},
        Err(e) => return Err(e),
    }
    match check_bounds(file_len, values_off, idx_bytes, Region::Values) {
        Ok(()) => {},
        Err(e) => return Err(e),
    }
    let genes = match parse_string_table(b, genes_off, genes_bytes, n_genes, Region::GenesTable) {
        Ok(v) => v,
        Err(e) => return Err(e),
    };
    let barcodes = match parse_string_table(b, barcodes_off, barcodes_bytes, n_cells, Region::BarcodesTable) {
        Ok(v) => v,
        Err(e) => return Err(e),
    };
    let layout = SharedLayout {
        n_genes: n_genes as usize,
        n_cells: n_cells as usize,
        nnz: nnz as usize,
        col_ptr_offset: col_ptr_off as usize,
        row_idx_offset: row_idx_off as usize,
        values_offset: values_off as usize,
    };
    if strict {
        match validate_csc(b, layout.n_genes, layout.n_cells, layout.nnz, layout.col_ptr_offset, layout.row_idx_offset) {
            Ok(()) => {},
            Err(e) => return Err(e),
        }
    }
    Ok(SharedContent { layout, genes, barcodes })
}


/// Once a file has validated, corrupting one header byte outside the
/// checksum field makes strict validation fail with a checksum mismatch,
/// provided the checksum tells the two headers apart (CRC-64 does for any
/// change of a single byte). Bytes 0 to 16 and 96 to 120 are left out: the
/// magic, versions, endian tag, header size, extension fields and file
/// length are checked before the checksum and fail on their own.
pub proof fn lemma_header_corruption_detected(b: Seq<u8>, i: int, v: u8)
    requires
        shared_issue(b, true) is None,
        16 <= i < 96 || 128 <= i < 256,
        crc64_ecma(zeroed_header(b.update(i, v))) != crc64_ecma(zeroed_header(b)),
    ensures
        shared_issue(b.update(i, v), true) == Some(CacheError::InvalidFormat(FormatIssue::HeaderCrcMismatch)),
{
    let c = b.update(i, v);
    assert(c.subrange(0, 4) =~= b.subrange(0, 4));
    assert(c.subrange(4, 6) =~= b.subrange(4, 6));
    assert(c.subrange(6, 8) =~= b.subrange(6, 8));
    assert(c.subrange(8, 12) =~= b.subrange(8, 12));
    assert(c.subrange(12, 16) =~= b.subrange(12, 16));
    assert(c.subrange(96, 104) =~= b.subrange(96, 104));
    assert(c.subrange(104, 112) =~= b.subrange(104, 112));
    assert(c.subrange(112, 120) =~= b.subrange(112, 120));
    assert(c.subrange(120, 128) =~= b.subrange(120, 128));
}

proof fn lemma_rows_rise(b: Seq<u8>, rio: int, lo: int, i: int, j: int)
    requires
        lo <= i < j,
        forall|k: int| lo < k <= j ==> #[trigger] row_rises(b, rio, k),
    ensures
        row_at(b, rio, i) < row_at(b, rio, j),
    decreases j - i,
{
    assert(row_rises(b, rio, j));
    if i < j - 1 {
        lemma_rows_rise(b, rio, lo, i, j - 1);
    }
}

/// Every container that strict validation accepts holds a CSC matrix: the
/// column pointers start at 0, never decrease and end at `nnz`; row indices
/// stay below `n_genes` and rise strictly within each column.
pub proof fn lemma_valid_cache_is_csc(b: Seq<u8>)
    requires
        shared_issue(b, true) is None,
    ensures
        ({
            let cpo = hdr_col_ptr_offset(b) as int;
            let rio = hdr_row_idx_offset(b) as int;
            let n_cells = hdr_n_cells(b) as int;
            &&& cp_at(b, cpo, 0) == 0
            &&& cp_at(b, cpo, n_cells) == hdr_nnz(b)
            &&& forall|a: int, c: int| 0 <= a <= c <= n_cells ==> #[trigger] cp_at(b, cpo, a) <= #[trigger] cp_at(b, cpo, c)
            &&& forall|i: int| 0 <= i < hdr_nnz(b) ==> #[trigger] row_at(b, rio, i) < hdr_n_genes(b)
            &&& forall|c: int, i: int, j: int|
                #![trigger cp_at(b, cpo, c), row_at(b, rio, i), row_at(b, rio, j)]
                0 <= c < n_cells && cp_at(b, cpo, c) <= i < j < cp_at(b, cpo, c + 1) ==> row_at(b, rio, i) < row_at(b, rio, j)
        }),
{
    let cpo = hdr_col_ptr_offset(b) as int;
    let rio = hdr_row_idx_offset(b) as int;
    let n_cells = hdr_n_cells(b) as int;
    assert forall|a: int, c: int| 0 <= a <= c <= n_cells implies #[trigger] cp_at(b, cpo, a) <= #[trigger] cp_at(b, cpo, c) by {
        lemma_cp_ordered(b, cpo, n_cells, a, c);
    }
    assert forall|c: int, i: int, j: int|
        #![trigger cp_at(b, cpo, c), row_at(b, rio, i), row_at(b, rio, j)]
        0 <= c < n_cells && cp_at(b, cpo, c) <= i < j < cp_at(b, cpo, c + 1) implies row_at(b, rio, i) < row_at(b, rio, j) by {
        assert forall|k: int| cp_at(b, cpo, c) < k <= j implies #[trigger] row_rises(b, rio, k) by {
            assert(cp_at(b, cpo, c) < k < cp_at(b, cpo, c + 1));
        }
        lemma_rows_rise(b, rio, cp_at(b, cpo, c) as int, i, j);
    }
}

} // verus!
