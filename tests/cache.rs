use std::sync::Arc;

use kira_secretion::cache::{validate_shared_cache, CacheError, FormatIssue, Region};
use kira_secretion::csc::ExprCsc;
use kira_secretion::mapped::SharedCacheMapped;
use kira_secretion::mtx::MatrixHeader;
use kira_secretion::panels::build_reverse_index;
use kira_secretion::pipeline::ExprMatrix;

const HEADER: usize = 256;

fn align64(x: usize) -> usize {
    (x + 63) & !63
}

fn encode_string_table(values: &[&str]) -> Vec<u8> {
    let mut blob = Vec::new();
    let mut offsets = vec![0u32];
    for s in values {
        blob.extend_from_slice(s.as_bytes());
        offsets.push(blob.len() as u32);
    }
    let mut out = Vec::new();
    out.extend_from_slice(&(values.len() as u32).to_le_bytes());
    for off in offsets {
        out.extend_from_slice(&off.to_le_bytes());
    }
    out.extend_from_slice(&blob);
    out
}

fn crc64(bytes: &[u8]) -> u64 {
    crc::Crc::<u64>::new(&crc::CRC_64_ECMA_182).checksum(bytes)
}

fn seal(out: &mut [u8]) {
    let mut header = out[0..HEADER].to_vec();
    header[120..128].fill(0);
    let crc = crc64(&header);
    out[120..128].copy_from_slice(&crc.to_le_bytes());
}

fn build_shared(col_ptr: &[u64], row_idx: &[u32], values: &[u32], tamper_crc: bool) -> Vec<u8> {
    let genes = ["G1", "G2", "G3"];
    let barcodes = ["C1", "C2"];
    let genes_table = encode_string_table(&genes);
    let barcodes_table = encode_string_table(&barcodes);
    let genes_off = align64(HEADER);
    let barcodes_off = align64(genes_off + genes_table.len());
    let col_ptr_off = align64(barcodes_off + barcodes_table.len());
    let row_idx_off = align64(col_ptr_off + col_ptr.len() * 8);
    let values_off = align64(row_idx_off + row_idx.len() * 4);
    let file_bytes = values_off + values.len() * 4;
    let mut out = vec![0u8; file_bytes];
    out[0..4].copy_from_slice(b"KORG");
    out[4..6].copy_from_slice(&1u16.to_le_bytes());
    out[6..8].copy_from_slice(&0u16.to_le_bytes());
    out[8..12].copy_from_slice(&0x1234_5678u32.to_le_bytes());
    out[12..16].copy_from_slice(&(HEADER as u32).to_le_bytes());
    out[16..24].copy_from_slice(&(genes.len() as u64).to_le_bytes());
    out[24..32].copy_from_slice(&(barcodes.len() as u64).to_le_bytes());
    out[32..40].copy_from_slice(&(values.len() as u64).to_le_bytes());
    out[40..48].copy_from_slice(&(genes_off as u64).to_le_bytes());
    out[48..56].copy_from_slice(&(genes_table.len() as u64).to_le_bytes());
    out[56..64].copy_from_slice(&(barcodes_off as u64).to_le_bytes());
    out[64..72].copy_from_slice(&(barcodes_table.len() as u64).to_le_bytes());
    out[72..80].copy_from_slice(&(col_ptr_off as u64).to_le_bytes());
    out[80..88].copy_from_slice(&(row_idx_off as u64).to_le_bytes());
    out[88..96].copy_from_slice(&(values_off as u64).to_le_bytes());
    out[112..120].copy_from_slice(&(file_bytes as u64).to_le_bytes());
    out[genes_off..genes_off + genes_table.len()].copy_from_slice(&genes_table);
    out[barcodes_off..barcodes_off + barcodes_table.len()].copy_from_slice(&barcodes_table);
    for (i, v) in col_ptr.iter().enumerate() {
        out[col_ptr_off + i * 8..col_ptr_off + i * 8 + 8].copy_from_slice(&v.to_le_bytes());
    }
    for (i, v) in row_idx.iter().enumerate() {
        out[row_idx_off + i * 4..row_idx_off + i * 4 + 4].copy_from_slice(&v.to_le_bytes());
    }
    for (i, v) in values.iter().enumerate() {
        out[values_off + i * 4..values_off + i * 4 + 4].copy_from_slice(&v.to_le_bytes());
    }
    seal(&mut out);
    if tamper_crc {
        out[120] ^= 0xFF;
        out[121] ^= 0xFF;
    }
    out
}

fn valid_bytes() -> Vec<u8> {
    build_shared(&[0, 2, 3], &[0, 2, 1], &[5, 1, 7], false)
}

fn map(bytes: &[u8]) -> Arc<memmap2::Mmap> {
    let mut m = memmap2::MmapMut::map_anon(bytes.len()).expect("anonymous map");
    m.copy_from_slice(bytes);
    Arc::new(m.make_read_only().expect("read-only"))
}

#[test]
fn shared_cache_valid() {
    let mapped = SharedCacheMapped::parse_shared_cache(map(&valid_bytes()), true).expect("shared cache");
    assert_eq!(mapped.n_genes, 3);
    assert_eq!(mapped.n_cells, 2);
    assert_eq!(mapped.nnz, 3);
    assert_eq!(mapped.genes, vec!["G1", "G2", "G3"]);
    assert_eq!(mapped.barcodes, vec!["C1", "C2"]);
    assert_eq!(mapped.col_ptr_at(2), 3);
    assert_eq!(mapped.row_idx_at(2), 1);
    assert_eq!(mapped.value_at(2), 7);
}

#[test]
fn shared_cache_bad_crc_rejected() {
    let bytes = build_shared(&[0, 2, 3], &[0, 2, 1], &[5, 1, 7], true);
    let err = SharedCacheMapped::parse_shared_cache(map(&bytes), true).err().expect("expected error");
    assert_eq!(err, CacheError::InvalidFormat(FormatIssue::HeaderCrcMismatch));
    assert!(err.message().contains("CRC64"));
}

#[test]
fn mapped_cells_and_stats() {
    let mapped = SharedCacheMapped::parse_shared_cache(map(&valid_bytes()), true).expect("shared cache");
    assert_eq!(mapped.cell_raw(0), vec![(0, 5), (2, 1)]);
    assert_eq!(mapped.cell_raw(1), vec![(1, 7)]);
    let stats = mapped.compute_cell_stats().expect("stats");
    assert_eq!((stats[0].libsize, stats[0].detected), (6, 2));
    assert_eq!((stats[1].libsize, stats[1].detected), (7, 1));
    let meta = mapped.metadata();
    assert_eq!(meta.barcodes, vec!["C1", "C2"]);
}

#[test]
fn corrupting_any_checked_header_byte_fails_the_checksum() {
    let good = valid_bytes();
    for i in (16..96).chain(128..256) {
        let mut bad = good.clone();
        bad[i] ^= 0x5A;
        let err = validate_shared_cache(&bad, true).err().expect("corrupt header");
        assert_eq!(err, CacheError::InvalidFormat(FormatIssue::HeaderCrcMismatch), "byte {i}");
    }
}

#[test]
fn early_header_fields_fail_on_their_own() {
    let good = valid_bytes();
    let mut b = good.clone();
    b[0] = b'X';
    assert_eq!(validate_shared_cache(&b, true).err(), Some(CacheError::InvalidMagic));
    let mut b = good.clone();
    b[4] = 2;
    assert_eq!(validate_shared_cache(&b, true).err(), Some(CacheError::UnsupportedVersion(2)));
    let mut b = good.clone();
    b[6] = 1;
    assert_eq!(validate_shared_cache(&b, true).err(), Some(CacheError::InvalidFormat(FormatIssue::UnsupportedMinorVersion)));
    let mut b = good.clone();
    b[8] = 0;
    assert_eq!(validate_shared_cache(&b, true).err(), Some(CacheError::InvalidFormat(FormatIssue::InvalidEndianTag)));
    let mut b = good.clone();
    b[96] = 1;
    assert_eq!(validate_shared_cache(&b, true).err(), Some(CacheError::InvalidFormat(FormatIssue::UnsupportedBlocks)));
    let mut b = good.clone();
    b.push(0);
    assert_eq!(validate_shared_cache(&b, true).err(), Some(CacheError::InvalidFormat(FormatIssue::FileBytesMismatch)));
    assert_eq!(
        validate_shared_cache(&good[..100], true).err(),
        Some(CacheError::InvalidFormat(FormatIssue::FileSmallerThanHeader))
    );
}

#[test]
fn region_out_of_file_rejected() {
    let mut b = valid_bytes();
    let len = b.len() as u64;
    b[88..96].copy_from_slice(&len.to_le_bytes());
    seal(&mut b);
    assert_eq!(
        validate_shared_cache(&b, true).err(),
        Some(CacheError::InvalidFormat(FormatIssue::OutOfBounds(Region::Values)))
    );
}

#[test]
fn structural_checks_only_when_strict() {
    let bytes = build_shared(&[0, 2, 3], &[2, 0, 1], &[5, 1, 7], false);
    assert_eq!(
        validate_shared_cache(&bytes, true).err(),
        Some(CacheError::InvalidFormat(FormatIssue::RowsNotIncreasing))
    );
    assert!(validate_shared_cache(&bytes, false).is_ok());
    let unchecked = SharedCacheMapped::parse_shared_cache_unchecked(map(&bytes)).expect("unchecked");
    assert_eq!(unchecked.nnz, 3);
    let stats = unchecked.compute_cell_stats().expect("stats on unchecked mapping");
    assert_eq!((stats[0].libsize, stats[0].detected), (6, 2));
    let bad_ptr = build_shared(&[0, 3, 2], &[0, 2, 1], &[5, 1, 7], false);
    assert_eq!(
        validate_shared_cache(&bad_ptr, true).err(),
        Some(CacheError::InvalidFormat(FormatIssue::ColPtrNotMonotonic))
    );
    let bad_row = build_shared(&[0, 2, 3], &[0, 3, 1], &[5, 1, 7], false);
    assert_eq!(
        validate_shared_cache(&bad_row, true).err(),
        Some(CacheError::InvalidFormat(FormatIssue::RowOutOfBounds))
    );
    let bad_start = build_shared(&[1, 2, 3], &[0, 2, 1], &[5, 1, 7], false);
    assert_eq!(
        validate_shared_cache(&bad_start, true).err(),
        Some(CacheError::InvalidFormat(FormatIssue::ColPtrStart))
    );
}

#[test]
fn unchecked_falls_back_to_strict_error() {
    let bytes = build_shared(&[0, 2, 3], &[0, 2, 1], &[5, 1, 7], true);
    let err = SharedCacheMapped::parse_shared_cache_unchecked(map(&bytes)).err().expect("corrupt");
    assert_eq!(err, CacheError::InvalidFormat(FormatIssue::HeaderCrcMismatch));
}

#[test]
fn owned_and_shared_backends_yield_same_cells() {
    let header = MatrixHeader { n_rows: 3, n_cols: 2, nnz: 3 };
    let entries = vec![(0u32, 2u32, 1u32), (1, 1, 7), (0, 0, 5)];
    let (owned, owned_stats) = ExprCsc::from_entries(&header, &entries, 3, 2, false).expect("owned");
    let shared = SharedCacheMapped::parse_shared_cache(map(&valid_bytes()), true).expect("shared");
    let shared_stats = shared.compute_cell_stats().expect("stats");
    assert_eq!(owned_stats, shared_stats);
    let owned = ExprMatrix::Owned(owned);
    let shared = ExprMatrix::Shared(shared);
    let rev = build_reverse_index(&vec![vec![Some(0u32), Some(2)], vec![Some(1u32)]], 3);
    for cell in 0..2 {
        assert_eq!(owned.cell_raw(cell), shared.cell_raw(cell));
        let a = owned.panel_hits(cell, &rev, 2);
        let b = shared.panel_hits(cell, &rev, 2);
        assert_eq!(a.hits, b.hits);
        assert_eq!(a.contributions, b.contributions);
    }
    assert_eq!(owned.panel_hits(0, &rev, 2).hits, vec![2, 0]);
    assert_eq!((owned.n_genes(), owned.n_cells(), owned.nnz()), (shared.n_genes(), shared.n_cells(), shared.nnz()));
}

#[test]
fn metadata_of_mapped_cache() {
    let meta = kira_secretion::mapped::read_shared_cache_metadata(map(&valid_bytes())).expect("metadata");
    assert_eq!((meta.n_genes, meta.n_cells, meta.nnz), (3, 2, 3));
    assert_eq!(meta.genes, vec!["G1", "G2", "G3"]);
    let bad = build_shared(&[0, 2, 3], &[2, 0, 1], &[5, 1, 7], false);
    assert_eq!(
        kira_secretion::mapped::read_shared_cache_metadata(map(&bad)).err(),
        Some(CacheError::InvalidFormat(FormatIssue::RowsNotIncreasing))
    );
}

#[test]
fn string_table_with_invalid_utf8_rejected() {
    let mut b = valid_bytes();
    let genes_off = u64::from_le_bytes(b[40..48].try_into().unwrap()) as usize;
    let blob = genes_off + 4 + 4 * 4;
    b[blob] = 0xFF;
    assert_eq!(
        validate_shared_cache(&b, true).err(),
        Some(CacheError::InvalidFormat(FormatIssue::InvalidUtf8(Region::GenesTable)))
    );
    let mut b = valid_bytes();
    b[genes_off] = 4;
    assert_eq!(
        validate_shared_cache(&b, true).err(),
        Some(CacheError::InvalidFormat(FormatIssue::TableCountMismatch(Region::GenesTable)))
    );
}
