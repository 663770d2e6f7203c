use kira_secretion::cache::{CacheError, FormatIssue};
use kira_secretion::csc::{CellStats, ExprCsc};
use kira_secretion::expr_cache::{decode_expr_cache, encode_expr_cache};

fn sample() -> (ExprCsc, Vec<CellStats>) {
    let expr = ExprCsc {
        n_genes: 3,
        n_cells: 2,
        nnz: 3,
        col_ptr: vec![0, 2, 3],
        row_idx: vec![0, 2, 1],
        values: vec![1, 2, 3],
    };
    let stats = vec![
        CellStats { libsize: 3, detected: 2 },
        CellStats { libsize: 3, detected: 1 },
    ];
    (expr, stats)
}

#[test]
fn cache_roundtrip_deterministic() {
    let (expr, stats) = sample();
    let bytes_first = encode_expr_cache(&expr, &stats);
    let bytes_second = encode_expr_cache(&expr, &stats);
    assert_eq!(bytes_first, bytes_second);

    let (expr2, stats2) = decode_expr_cache(&bytes_first).expect("read back");
    assert_eq!(expr2.col_ptr, expr.col_ptr);
    assert_eq!(expr2.row_idx, expr.row_idx);
    assert_eq!(expr2.values, expr.values);
    assert_eq!(stats2.len(), stats.len());
    assert_eq!(stats2[0].libsize, stats[0].libsize);
    assert_eq!(stats2[0].detected, stats[0].detected);
}

#[test]
fn private_cache_layout() {
    let (expr, stats) = sample();
    let bytes = encode_expr_cache(&expr, &stats);
    assert_eq!(bytes.len(), 68 + 3 * 8 + 3 * 4 + 3 * 4 + 2 * 16);
    assert_eq!(&bytes[0..8], b"KIRAEXPR");
    assert_eq!(&bytes[8..12], &1u32.to_le_bytes());
    assert_eq!(&bytes[36..44], &3u64.to_le_bytes());
}

#[test]
fn private_cache_errors() {
    let (expr, stats) = sample();
    let good = encode_expr_cache(&expr, &stats);
    let mut b = good.clone();
    b[0] = b'X';
    assert_eq!(decode_expr_cache(&b).err(), Some(CacheError::InvalidMagic));
    let mut b = good.clone();
    b[8] = 9;
    assert_eq!(decode_expr_cache(&b).err(), Some(CacheError::UnsupportedVersion(9)));
    let mut b = good.clone();
    b[36] = 4;
    assert_eq!(decode_expr_cache(&b).err(), Some(CacheError::InvalidFormat(FormatIssue::LengthsMismatch)));
    assert_eq!(
        decode_expr_cache(&good[..good.len() - 1]).err(),
        Some(CacheError::InvalidFormat(FormatIssue::Truncated))
    );
    assert_eq!(decode_expr_cache(b"KIRA").err(), Some(CacheError::InvalidFormat(FormatIssue::Truncated)));
}
