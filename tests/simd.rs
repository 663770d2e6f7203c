use kira_secretion::avx2;
use kira_secretion::neon;
use kira_secretion::simd::{backend_name, sum_u32, sum_u32_lanes, sum_u32_scalar};

#[test]
fn backend_name_is_supported() {
    assert!(matches!(backend_name(), "scalar" | "avx2" | "neon"));
}

#[test]
fn sum_u32_matches_scalar() {
    let data = vec![1u32, 3, 7, 11, 13, 17, 23, 31, 37, 41, 43];
    let expected: u64 = data.iter().map(|v| *v as u64).sum();
    assert_eq!(sum_u32(&data), expected);
}

fn pseudo_random(n: usize, seed: u64) -> Vec<u32> {
    let mut x = seed;
    let mut out = Vec::with_capacity(n);
    for _ in 0..n {
        x = x.wrapping_mul(6364136223846793005).wrapping_add(1442695040888963407);
        out.push((x >> 32) as u32);
    }
    out
}

#[test]
fn backends_agree_on_ragged_lengths() {
    for (n, seed) in [(13usize, 1u64), (27, 2), (31, 3), (1, 4), (0, 5), (1003, 6)] {
        let data = pseudo_random(n, seed);
        let expected: u64 = data.iter().map(|v| *v as u64).sum();
        assert_eq!(sum_u32_scalar(&data), expected);
        assert_eq!(avx2::sum_u32(&data), expected);
        assert_eq!(neon::sum_u32(&data), expected);
        assert_eq!(sum_u32_lanes(&data, 3), expected);
    }
}

#[test]
fn widening_sum_does_not_wrap() {
    let data = vec![u32::MAX; 19];
    assert_eq!(sum_u32(&data), 19 * u32::MAX as u64);
    assert_eq!(avx2::sum_u32(&data), 19 * u32::MAX as u64);
    assert_eq!(neon::sum_u32(&data), 19 * u32::MAX as u64);
}
