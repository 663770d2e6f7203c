//! Widening `u32` reduction with interchangeable accumulation backends.

use vstd::prelude::*;

verus! {

/// The sum of a sequence of `u32`, taken as a mathematical integer.
pub open spec fn seq_sum(s: Seq<u32>) -> int
    decreases s.len(),
{
    if s.len() == 0 {
        0
    } else {
        seq_sum(s.drop_last()) + s.last() as int
    }
}

/// Sum of the first `m` chunks of width `w` (each chunk summed on its own).
pub open spec fn chunks_sum(s: Seq<u32>, w: nat, m: nat) -> int
    decreases m,
{
    if m == 0 {
        0
    } else {
        chunks_sum(s, w, (m - 1) as nat) + seq_sum(s.subrange(((m - 1) * w) as int, (m * w) as int))
    }
}

/// What a vector backend of `w` lanes computes: whole chunks of `w` elements
/// in the vector part, then the remainder element by element.
pub open spec fn vector_sum(s: Seq<u32>, w: nat) -> int
    recommends
        w > 0,
{
    let m = s.len() / w;
    chunks_sum(s, w, m) + seq_sum(s.skip((m * w) as int))
}

/// The largest input length for which the widened sum always fits in `u64`.
pub open spec fn sum_len_ok(s: Seq<u32>) -> bool {
    s.len() <= 0x1_0000_0000
}

proof fn lemma_seq_sum_append(a: Seq<u32>, b: Seq<u32>)
    ensures
        seq_sum(a + b) == seq_sum(a) + seq_sum(b),
    decreases b.len(),
{
    if b.len() == 0 {
        assert(a + b =~= a);
    } else {
        lemma_seq_sum_append(a, b.drop_last());
        assert((a + b).drop_last() =~= a + b.drop_last());
    }
}

proof fn lemma_seq_sum_bound(s: Seq<u32>)
    ensures
        0 <= seq_sum(s) <= s.len() * 0xFFFF_FFFF,
    decreases s.len(),
{
    if s.len() > 0 {
        lemma_seq_sum_bound(s.drop_last());
    }
}

proof fn lemma_seq_sum_take_step(s: Seq<u32>, i: int)
    requires
        0 <= i < s.len(),
    ensures
        seq_sum(s.take(i + 1)) == seq_sum(s.take(i)) + s[i] as int,
{
    assert(s.take(i + 1).drop_last() =~= s.take(i));
}

proof fn lemma_take_bound(s: Seq<u32>, i: int)
    requires
        0 <= i <= s.len(),
        sum_len_ok(s),
    ensures
        0 <= seq_sum(s.take(i)) <= 0x1_0000_0000 * 0xFFFF_FFFF,
{
    lemma_seq_sum_bound(s.take(i));
    assert(i * 0xFFFF_FFFF <= 0x1_0000_0000 * 0xFFFF_FFFF) by (nonlinear_arith)
        requires
            0 <= i <= 0x1_0000_0000,
    ;
}

proof fn lemma_chunks_prefix(s: Seq<u32>, w: nat, m: nat)
    requires
        w > 0,
        m * w <= s.len(),
    ensures
        chunks_sum(s, w, m) == seq_sum(s.take((m * w) as int)),
    decreases m,
{
    if m > 0 {
        let p = ((m - 1) * w) as int;
        let q = (m * w) as int;
        assert(p <= q) by (nonlinear_arith)
            requires
                p == (m - 1) * w,
                q == m * w,
                m > 0,
        ;
        assert(q == p + w) by (nonlinear_arith)
            requires
                p == (m - 1) * w,
                q == m * w,
        ;
        lemma_chunks_prefix(s, w, (m - 1) as nat);
        assert(chunks_sum(s, w, (m - 1) as nat) == seq_sum(s.take(p)));
        lemma_seq_sum_append(s.take(p), s.subrange(p, q));
        assert(s.take(p) + s.subrange(p, q) =~= s.take(q));
        assert(chunks_sum(s, w, m) == chunks_sum(s, w, (m - 1) as nat) + seq_sum(s.subrange(p, q)));
        assert(seq_sum(s.take(q)) == seq_sum(s.take(p)) + seq_sum(s.subrange(p, q)));
    } else {
        assert(m * w == 0) by (nonlinear_arith)
            requires
                m == 0,
        ;
        assert(s.take(0) =~= Seq::<u32>::empty());
    }
}

/// Every vector width, with its scalar remainder, gives the plain sum.
pub proof fn lemma_vector_sum_is_sum(s: Seq<u32>, w: nat)
    requires
        w > 0,
    ensures
        vector_sum(s, w) == seq_sum(s),
{
    let m = s.len() / w;
    assert(m * w <= s.len()) by (nonlinear_arith)
        requires
            m == s.len() / w,
            w > 0,
    ;
    lemma_chunks_prefix(s, w, m);
    let k = (m * w) as int;
    lemma_seq_sum_append(s.take(k), s.skip(k));
    assert(s.take(k) + s.skip(k) =~= s);
}

/// The eight-lane, four-lane and scalar backends agree on every input: each
/// computes the same widened sum.
pub proof fn lemma_backends_agree(s: Seq<u32>)
    ensures
        vector_sum(s, 8) == seq_sum(s),
        vector_sum(s, 4) == seq_sum(s),
        vector_sum(s, 8) == vector_sum(s, 4),
{
    lemma_vector_sum_is_sum(s, 8);
    lemma_vector_sum_is_sum(s, 4);
}

/// Total of a sequence of 64-bit lane accumulators.
pub open spec fn lanes_total(a: Seq<u64>) -> int
    decreases a.len(),
{
    if a.len() == 0 {
        0
    } else {
        lanes_total(a.drop_last()) + a.last() as int
    }
}

proof fn lemma_lanes_total_update(a: Seq<u64>, k: int, x: u64)
    requires
        0 <= k < a.len(),
    ensures
        lanes_total(a.update(k, x)) == lanes_total(a) - a[k] + x,
        a[k] <= lanes_total(a),
    decreases a.len(),
{
    if k == a.len() - 1 {
        assert(a.update(k, x).drop_last() =~= a.drop_last());
        lemma_lanes_total_nonneg(a.drop_last());
    } else {
        lemma_lanes_total_update(a.drop_last(), k, x);
        assert(a.update(k, x).drop_last() =~= a.drop_last().update(k, x));
    }
}

proof fn lemma_lanes_total_nonneg(a: Seq<u64>)
    ensures
        lanes_total(a) >= 0,
    decreases a.len(),
{
    if a.len() > 0 {
        lemma_lanes_total_nonneg(a.drop_last());
    }
}

proof fn lemma_lanes_total_take_step(a: Seq<u64>, k: int)
    requires
        0 <= k < a.len(),
    ensures
        lanes_total(a.take(k + 1)) == lanes_total(a.take(k)) + a[k] as int,
{
    assert(a.take(k + 1).drop_last() =~= a.take(k));
}

proof fn lemma_seq_sum_sub_step(s: Seq<u32>, i: int, k: int)
    requires
        0 <= i <= i + k < s.len(),
    ensures
        seq_sum(s.subrange(i, i + k + 1)) == seq_sum(s.subrange(i, i + k)) + s[i + k] as int,
{
    assert(s.subrange(i, i + k + 1).drop_last() =~= s.subrange(i, i + k));
}

/// Widening sum organised as a vector unit of `w` lanes would run it: each
/// chunk of `w` elements is added lane by lane into 64-bit accumulators, the
/// lanes are then summed, and the elements past the last whole chunk are
/// added one by one.
pub fn sum_u32_lanes(values: &[u32], w: usize) -> (r: u64)
    requires
        sum_len_ok(values@),
        0 < w <= 16,
    ensures
        r == vector_sum(values@, w as nat),
        r == seq_sum(values@),
{
    let ghost s = values@;
    let len = values.len();
    let mut acc: Vec<u64> = Vec::new();
    let mut k: usize = 0;
    while k < w
        invariant
            k <= w,
            acc@.len() == k,
            forall|j: int| 0 <= j < k ==> acc@[j] == 0,
        decreases w - k,
    {
        acc.push(0);
        k = k + 1;
    }
    proof {
        assert forall|n: nat| n <= w implies lanes_total(acc@.take(n as int)) == 0 by {
            lemma_zero_lanes(acc@, n);
        }
        assert(acc@.take(w as int) =~= acc@);
    }
    let mut i: usize = 0;
    let ghost mut m: nat = 0;
    while i <= len && w <= len - i
        invariant
            acc@.len() == w,
            0 < w <= 16,
            len == s.len(),
            s == values@,
            sum_len_ok(s),
            i == m * w,
            i <= len,
            lanes_total(acc@) == chunks_sum(s, w as nat, m),
            chunks_sum(s, w as nat, m) == seq_sum(s.take(i as int)),
        decreases len - i,
    {
        let mut k: usize = 0;
        while k < w
            invariant
                acc@.len() == w,
                0 < w <= 16,
                len == s.len(),
                s == values@,
                sum_len_ok(s),
                i + w <= len,
                k <= w,
                lanes_total(acc@) == seq_sum(s.take(i as int)) + seq_sum(s.subrange(i as int, i + k)),
            decreases w - k,
        {
            proof {
                lemma_seq_sum_sub_step(s, i as int, k as int);
                lemma_lanes_total_update(acc@, k as int, 0);
                lemma_seq_sum_append(s.take(i as int), s.subrange(i as int, i + k + 1));
                assert(s.take(i as int) + s.subrange(i as int, i + k + 1) =~= s.take(i + k + 1));
                lemma_take_bound(s, i + k + 1);
            }
            let cur = acc[k];
            let next = cur + values[i + k] as u64;
            proof {
                lemma_lanes_total_update(acc@, k as int, next);
            }
            acc.set(k, next);
            k = k + 1;
        }
        proof {
            lemma_seq_sum_append(s.take(i as int), s.subrange(i as int, i + w));
            assert(s.take(i as int) + s.subrange(i as int, i + w) =~= s.take(i + w));
            assert((m + 1) * w == m * w + w) by (nonlinear_arith);
            assert(chunks_sum(s, w as nat, m + 1) == chunks_sum(s, w as nat, m) + seq_sum(s.subrange((m * w) as int, ((m + 1) * w) as int)));
            m = m + 1;
        }
        i = i + w;
    }
    proof {
        assert(m == s.len() / (w as nat)) by (nonlinear_arith)
            requires
                i == m * w,
                i <= s.len(),
                s.len() - i < w,
                w > 0,
        ;
    }
    let mut sum: u64 = 0;
    let mut k: usize = 0;
    while k < w
        invariant
            acc@.len() == w,
            k <= w,
            sum_len_ok(s),
            sum == lanes_total(acc@.take(k as int)),
            lanes_total(acc@) == seq_sum(s.take(i as int)),
            i <= s.len(),
        decreases w - k,
    {
        proof {
            lemma_lanes_total_take_step(acc@, k as int);
            lemma_lanes_prefix_bound(acc@, k as int + 1);
            lemma_take_bound(s, i as int);
        }
        sum = sum + acc[k];
        k = k + 1;
    }
    assert(acc@.take(w as int) =~= acc@);
    let ghost head = sum;
    while i < len
        invariant
            i <= len,
            len == s.len(),
            s == values@,
            sum_len_ok(s),
            sum == seq_sum(s.take(i as int)),
        decreases len - i,
    {
        proof {
            lemma_seq_sum_take_step(s, i as int);
            lemma_take_bound(s, i as int + 1);
        }
        sum = sum + values[i] as u64;
        i = i + 1;
    }
    proof {
        assert(s.take(i as int) =~= s);
        lemma_vector_sum_is_sum(s, w as nat);
    }
    sum
}

proof fn lemma_zero_lanes(a: Seq<u64>, n: nat)
    requires
        n <= a.len(),
        forall|j: int| 0 <= j < a.len() ==> a[j] == 0,
    ensures
        lanes_total(a.take(n as int)) == 0,
    decreases n,
{
    if n > 0 {
        lemma_zero_lanes(a, (n - 1) as nat);
        assert(a.take(n as int).drop_last() =~= a.take(n - 1));
    }
}

proof fn lemma_lanes_prefix_bound(a: Seq<u64>, k: int)
    requires
        0 <= k <= a.len(),
    ensures
        0 <= lanes_total(a.take(k)) <= lanes_total(a),
    decreases a.len() - k,
{
    lemma_lanes_total_nonneg(a.take(k));
    if k < a.len() {
        lemma_lanes_prefix_bound(a, k + 1);
        lemma_lanes_total_take_step(a, k);
    } else {
        assert(a.take(k) =~= a);
    }
}

/// The reduction backends that a build can select.
#[derive(Debug, Clone, Copy, PartialEq, Eq)]
pub enum Backend {
    Scalar,
    Avx2,
    Neon,
}

/// The backend that this build uses: the portable scalar loop.
pub const BACKEND: Backend = Backend::Scalar;

impl Backend {
    pub open spec fn spec_name(self) -> &'static str {
        match self {
            Backend::Scalar => "scalar",
            Backend::Avx2 => "avx2",
            Backend::Neon => "neon",
        }
    }

    /// The short name of this backend.
    pub fn name(&self) -> (r: &'static str)
        ensures
            r == self.spec_name(),
    {
        match self {
            Backend::Scalar => "scalar",
            Backend::Avx2 => "avx2",
            Backend::Neon => "neon",
        }
    }
}

/// The name of the backend selected for this build.
pub fn backend_name() -> (r: &'static str)
    ensures
        r == BACKEND.spec_name(),
{
    BACKEND.name()
}

/// Scalar widening sum: each element is widened to 64 bits and added in order.
pub fn sum_u32_scalar(values: &[u32]) -> (r: u64)
    requires
        sum_len_ok(values@),
    ensures
        r == seq_sum(values@),
{
    let mut sum: u64 = 0;
    let mut i: usize = 0;
    while i < values.len()
        invariant
            i <= values@.len(),
            sum_len_ok(values@),
            sum == seq_sum(values@.take(i as int)),
        decreases values@.len() - i,
    {
        proof {
            lemma_seq_sum_take_step(values@, i as int);
            lemma_take_bound(values@, i as int + 1);
        }
        sum = sum + values[i] as u64;
        i = i + 1;
    }
    assert(values@.take(i as int) =~= values@);
    sum
}

/// Widening sum of all elements, through the backend selected for this build.
pub fn sum_u32(values: &[u32]) -> (r: u64)
    requires
        sum_len_ok(values@),
    ensures
        r == seq_sum(values@),
{
    match BACKEND {
        Backend::Scalar => sum_u32_scalar(values),
        Backend::Avx2 => crate::avx2::sum_u32(values),
        Backend::Neon => crate::neon::sum_u32(values),
    }
}

} // verus!
