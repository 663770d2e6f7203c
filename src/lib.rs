//! Sparse single-cell expression matrices: MatrixMarket ingestion, compressed
//! sparse column construction, binary caches and per-panel accumulation.

pub mod error;
pub mod simd;
pub mod avx2;
pub mod neon;
pub mod mtx;
pub mod csc;
pub mod cache;
pub mod mapped;
pub mod expr_cache;
pub mod panels;
pub mod model;
pub mod detect;
pub mod pipeline;
