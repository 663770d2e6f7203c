//! Eight-lane widening reduction.

use vstd::prelude::*;

use crate::simd::{seq_sum, sum_len_ok, sum_u32_lanes, vector_sum};

verus! {

/// Widening sum with eight 64-bit lanes, as a 256-bit vector unit runs it.
pub fn sum_u32(values: &[u32]) -> (r: u64)
    requires
        sum_len_ok(values@),
    ensures
        r == vector_sum(values@, 8),
        r == seq_sum(values@),
{
    sum_u32_lanes(values, 8)
}

} // verus!
