//! MatrixMarket coordinate text: banner, size line and entries.
//!
//! Lines end at `\n`; trailing `\r` is dropped. Lines that are empty or
//! start with `%` are skipped after the banner. Fields are separated by
//! ASCII whitespace.

use vstd::prelude::*;
use vstd::slice::slice_subrange;
use vstd::utf8::{decode_utf8, valid_utf8};

use crate::csc::Entry;
use crate::error::{DimsIssue, HeaderIssue, InputError, RowIssue};
use crate::pipeline::FeatureRow;

verus! {

/// The size line of a MatrixMarket file.
#[derive(Debug, Clone, Copy, PartialEq, Eq, Structural)]
pub struct MatrixHeader {
    pub n_rows: usize,
    pub n_cols: usize,
    pub nnz: usize,
}

pub open spec fn is_ws(c: u8) -> bool {
    c == 0x20 || (0x09 <= c && c <= 0x0D)
}

pub open spec fn is_digit(c: u8) -> bool {
    0x30 <= c && c <= 0x39
}

/// Where the line starting at `p` ends: at its `\n`, or at the end of `s`.
pub open spec fn line_end(s: Seq<u8>, p: int) -> int
    decreases s.len() - p,
{
    if p >= s.len() {
        s.len() as int
    } else if s[p] == 0x0A {
        p
    } else {
        line_end(s, p + 1)
    }
}

/// Where the line after the one starting at `p` starts.
pub open spec fn next_line(s: Seq<u8>, p: int) -> int {
    if p <= line_end(s, p) < s.len() {
        line_end(s, p) + 1
    } else {
        s.len() as int
    }
}

/// `t` without its trailing carriage returns.
pub open spec fn trim_cr(t: Seq<u8>) -> Seq<u8>
    decreases t.len(),
{
    if t.len() > 0 && t.last() == 0x0D {
        trim_cr(t.drop_last())
    } else {
        t
    }
}

/// The text of the line starting at `p`, without its line ending.
pub open spec fn line_text(s: Seq<u8>, p: int) -> Seq<u8> {
    trim_cr(s.subrange(p, line_end(s, p)))
}

/// A line that carries no data: empty, or a `%` comment.
pub open spec fn is_skipped(t: Seq<u8>) -> bool {
    t.len() == 0 || t[0] == 0x25
}

/// Length of the word at the start of `t`.
pub open spec fn word_len(t: Seq<u8>) -> nat
    decreases t.len(),
{
    if t.len() == 0 || is_ws(t[0]) {
        0
    } else {
        1 + word_len(t.skip(1))
    }
}

/// The whitespace-separated fields of `t`.
pub open spec fn tokens(t: Seq<u8>) -> Seq<Seq<u8>>
    decreases t.len(),
{
    if t.len() == 0 {
        Seq::empty()
    } else if is_ws(t[0]) {
        tokens(t.skip(1))
    } else {
        let k = word_len(t);
        if k == 0 || k > t.len() {
            Seq::empty()
        } else {
            seq![t.take(k as int)] + tokens(t.skip(k as int))
        }
    }
}

/// Decimal value of a string of digits.
pub open spec fn digits_value(d: Seq<u8>) -> nat
    decreases d.len(),
{
    if d.len() == 0 {
        0
    } else {
        digits_value(d.drop_last()) * 10 + (d.last() - 0x30) as nat
    }
}

/// An unsigned decimal number as Rust's integer parser reads it: an
/// optional `+`, then one or more digits, at most `max`.
pub open spec fn parse_uint(t: Seq<u8>, max: int) -> Option<nat> {
    if !all_digits(unsigned_digits(t)) {
        None
    } else if digits_value(unsigned_digits(t)) > max {
        None
    } else {
        Some(digits_value(unsigned_digits(t)))
    }
}

/// `t` without one leading `+`.
pub open spec fn unsigned_digits(t: Seq<u8>) -> Seq<u8> {
    if t.len() > 0 && t[0] == 0x2B { t.skip(1) } else { t }
}

/// One or more digits, and nothing else.
pub open spec fn all_digits(d: Seq<u8>) -> bool {
    d.len() > 0 && forall|i: int| 0 <= i < d.len() ==> is_digit(#[trigger] d[i])
}

pub open spec fn lower(c: u8) -> u8 {
    if 0x41 <= c && c <= 0x5A { (c + 0x20) as u8 } else { c }
}

/// ASCII case-insensitive equality.
pub open spec fn eq_ignore_case(a: Seq<u8>, b: Seq<u8>) -> bool {
    a.len() == b.len() && forall|i: int| 0 <= i < a.len() ==> lower(#[trigger] a[i]) == lower(b[i])
}

pub open spec fn banner_words() -> Seq<Seq<u8>> {
    seq![
        seq![0x25u8, 0x25, 0x4D, 0x61, 0x74, 0x72, 0x69, 0x78, 0x4D, 0x61, 0x72, 0x6B, 0x65, 0x74],
        seq![0x6Du8, 0x61, 0x74, 0x72, 0x69, 0x78],
        seq![0x63u8, 0x6F, 0x6F, 0x72, 0x64, 0x69, 0x6E, 0x61, 0x74, 0x65],
        seq![0x69u8, 0x6E, 0x74, 0x65, 0x67, 0x65, 0x72],
    ]
}

/// What is wrong with the banner line `t`, if anything: it needs the four
/// words `%%MatrixMarket matrix coordinate integer`, in any case.
pub open spec fn banner_issue(t: Seq<u8>) -> Option<HeaderIssue> {
    let w = tokens(t);
    if w.len() < 4 {
        Some(HeaderIssue::ExpectedBanner)
    } else if !(eq_ignore_case(w[0], banner_words()[0]) && eq_ignore_case(w[1], banner_words()[1])
        && eq_ignore_case(w[2], banner_words()[2]) && eq_ignore_case(w[3], banner_words()[3])) {
        Some(HeaderIssue::UnsupportedFormat)
    } else {
        None
    }
}

/// The size line `t` read as `(n_rows, n_cols, nnz)`: three positive
/// integers.
pub open spec fn dims_of_line(t: Seq<u8>) -> Result<MatrixHeader, InputError> {
    let w = tokens(t);
    if w.len() < 3 {
        Err(InputError::InvalidMtxDimensions(DimsIssue::ExpectedThreeIntegers))
    } else if parse_uint(w[0], usize::MAX as int) is None {
        Err(InputError::InvalidMtxDimensions(DimsIssue::InvalidRows))
    } else if parse_uint(w[1], usize::MAX as int) is None {
        Err(InputError::InvalidMtxDimensions(DimsIssue::InvalidCols))
    } else if parse_uint(w[2], usize::MAX as int) is None {
        Err(InputError::InvalidMtxDimensions(DimsIssue::InvalidNnz))
    } else if parse_uint(w[0], usize::MAX as int) == Some(0nat) || parse_uint(w[1], usize::MAX as int)
        == Some(0nat) || parse_uint(w[2], usize::MAX as int) == Some(0nat) {
        Err(InputError::InvalidMtxDimensions(DimsIssue::ZeroDimensions))
    } else {
        Ok(
            MatrixHeader {
                n_rows: parse_uint(w[0], usize::MAX as int)->Some_0 as usize,
                n_cols: parse_uint(w[1], usize::MAX as int)->Some_0 as usize,
                nnz: parse_uint(w[2], usize::MAX as int)->Some_0 as usize,
            },
        )
    }
}

/// The first data line at or after `p`: where it starts, or the end of `s`.
pub open spec fn data_line(s: Seq<u8>, p: int) -> int
    decreases s.len() - p,
{
    if p >= s.len() {
        s.len() as int
    } else if is_skipped(line_text(s, p)) {
        data_line(s, next_line(s, p))
    } else {
        p
    }
}

/// The size line found at or after `p`.
pub open spec fn dims_from(s: Seq<u8>, p: int) -> Result<MatrixHeader, InputError> {
    let q = data_line(s, p);
    if q >= s.len() {
        Err(InputError::InvalidMtxDimensions(DimsIssue::MissingDimensions))
    } else {
        dims_of_line(line_text(s, q))
    }
}

/// Where the entries start: after the size line.
pub open spec fn entries_start(s: Seq<u8>) -> int {
    next_line(s, data_line(s, next_line(s, 0)))
}

/// The banner, then the size line.
pub open spec fn header_of(s: Seq<u8>) -> Result<MatrixHeader, InputError> {
    if s.len() == 0 {
        Err(InputError::InvalidMtxHeader(HeaderIssue::EmptyFile))
    } else if banner_issue(line_text(s, 0)) is Some {
        Err(InputError::InvalidMtxHeader(banner_issue(line_text(s, 0))->Some_0))
    } else {
        dims_from(s, next_line(s, 0))
    }
}

/// The entry line `t` (1-based `row col value`) as a 0-based entry.
pub open spec fn entry_of_line(t: Seq<u8>) -> Result<Entry, InputError> {
    let w = tokens(t);
    if w.len() < 3 {
        Err(InputError::InvalidTsvRow { line: 0, reason: RowIssue::InvalidMtxEntry })
    } else if parse_uint(w[0], u32::MAX as int) is None {
        Err(InputError::InvalidMtxDimensions(DimsIssue::InvalidRow))
    } else if parse_uint(w[1], u32::MAX as int) is None {
        Err(InputError::InvalidMtxDimensions(DimsIssue::InvalidCol))
    } else if parse_uint(w[2], u32::MAX as int) is None {
        Err(InputError::InvalidMtxDimensions(DimsIssue::InvalidValue))
    } else if parse_uint(w[0], u32::MAX as int) == Some(0nat) || parse_uint(w[1], u32::MAX as int)
        == Some(0nat) {
        Err(InputError::InvalidMtxDimensions(DimsIssue::NotOneBased))
    } else {
        Ok(
            (
                (parse_uint(w[1], u32::MAX as int)->Some_0 - 1) as u32,
                (parse_uint(w[0], u32::MAX as int)->Some_0 - 1) as u32,
                parse_uint(w[2], u32::MAX as int)->Some_0 as u32,
            ),
        )
    }
}

/// The entries of the data lines at or after `p`, or the error of the first
/// line that is not one.
pub open spec fn entries_from(s: Seq<u8>, p: int) -> Result<Seq<Entry>, InputError>
    decreases s.len() - p,
{
    if p >= s.len() {
        Ok(Seq::empty())
    } else if is_skipped(line_text(s, p)) {
        entries_from(s, next_line(s, p))
    } else {
        match entry_of_line(line_text(s, p)) {
            Err(e) => Err(e),
            Ok(x) => match entries_from(s, next_line(s, p)) {
                Err(e) => Err(e),
                Ok(rest) => Ok(seq![x] + rest),
            },
        }
    }
}

/// The number of data lines at or after `p`.
pub open spec fn data_lines_from(s: Seq<u8>, p: int) -> nat
    decreases s.len() - p,
{
    if p >= s.len() {
        0
    } else if is_skipped(line_text(s, p)) {
        data_lines_from(s, next_line(s, p))
    } else {
        1 + data_lines_from(s, next_line(s, p))
    }
}

/// Scans the line starting at `p`: where its text ends (line ending and
/// trailing `\r` excluded), and where the next line starts.
fn line_span(s: &[u8], p: usize) -> (r: (usize, usize))
    requires
        p < s@.len(),
    ensures
        p <= r.0 <= r.1 <= s@.len(),
        s@.subrange(p as int, r.0 as int) == line_text(s@, p as int),
        r.1 == next_line(s@, p as int),
        r.1 > p,
{
    let ghost bs = s@;
    let len = s.len();
    let mut i: usize = p;
    while i < len && s[i] != 0x0A
        invariant
            bs == s@,
            len == bs.len(),
            p <= i <= len,
            line_end(bs, p as int) == line_end(bs, i as int),
        decreases len - i,
    {
        i = i + 1;
    }
    proof {
        lemma_line_end_bounds(bs, p as int);
    }
    let end = i;
    let next = if end < len { end + 1 } else { len };
    let mut j: usize = end;
    while j > p && s[j - 1] == 0x0D
        invariant
            bs == s@,
            len == bs.len(),
            p <= j <= end <= len,
            end == line_end(bs, p as int),
            trim_cr(bs.subrange(p as int, end as int)) == trim_cr(bs.subrange(p as int, j as int)),
        decreases j,
    {
        proof {
            assert(bs.subrange(p as int, j as int).drop_last() =~= bs.subrange(p as int, j - 1));
        }
        j = j - 1;
    }
    (j, next)
}

proof fn lemma_word_len(u: Seq<u8>, n: int)
    requires
        0 <= n <= u.len(),
        forall|q: int| 0 <= q < n ==> !is_ws(#[trigger] u[q]),
        n == u.len() || is_ws(u[n]),
    ensures
        word_len(u) == n,
    decreases n,
{
    if n > 0 {
        lemma_word_len(u.skip(1), n - 1);
    }
}

/// The whitespace-separated fields of `s[a..b]`, as index pairs into `s`.
fn tokenize(s: &[u8], a: usize, b: usize) -> (r: Vec<(usize, usize)>)
    requires
        a <= b <= s@.len(),
    ensures
        r@.len() == tokens(s@.subrange(a as int, b as int)).len(),
        forall|k: int|
            0 <= k < r@.len() ==> a <= (#[trigger] r@[k]).0 <= r@[k].1 <= b && s@.subrange(
                r@[k].0 as int,
                r@[k].1 as int,
            ) == tokens(s@.subrange(a as int, b as int))[k],
{
    let ghost bs = s@;
    let ghost t = bs.subrange(a as int, b as int);
    let mut out: Vec<(usize, usize)> = Vec::new();
    let ghost mut got: Seq<Seq<u8>> = Seq::empty();
    let mut i: usize = a;
    assert(t.skip(0) =~= t);
    assert(got + tokens(t.skip(0)) =~= tokens(t));
    while i < b
        invariant
            bs == s@,
            t == bs.subrange(a as int, b as int),
            a <= i <= b <= bs.len(),
            tokens(t) == got + tokens(t.skip(i - a)),
            out@.len() == got.len(),
            forall|k: int|
                0 <= k < out@.len() ==> a <= (#[trigger] out@[k]).0 <= out@[k].1 <= b && bs.subrange(
                    out@[k].0 as int,
                    out@[k].1 as int,
                ) == got[k],
        decreases b - i,
    {
        let ghost u = t.skip(i - a);
        if s[i] == 0x20 || (0x09 <= s[i] && s[i] <= 0x0D) {
            proof {
                assert(u[0] == bs[i as int]);
                assert(u.skip(1) =~= t.skip(i + 1 - a));
            }
            i = i + 1;
        } else {
            let mut k: usize = i;
            while k < b && !(s[k] == 0x20 || (0x09 <= s[k] && s[k] <= 0x0D))
                invariant
                    bs == s@,
                    i <= k <= b <= bs.len(),
                    forall|q: int| i <= q < k ==> !is_ws(#[trigger] bs[q]),
                decreases b - k,
            {
                k = k + 1;
            }
            proof {
                assert forall|q: int| 0 <= q < k - i implies !is_ws(#[trigger] u[q]) by {
                    assert(u[q] == bs[i + q]);
                }
                if k < b {
                    assert(u[k - i] == bs[k as int]);
                }
                lemma_word_len(u, k - i);
                assert(u.take(k - i) =~= bs.subrange(i as int, k as int));
                assert(u.skip(k - i) =~= t.skip(k - a));
                assert(tokens(u) == seq![u.take(k - i)] + tokens(u.skip(k - i)));
                assert(got + tokens(u) =~= got.push(u.take(k - i)) + tokens(u.skip(k - i)));
                got = got.push(u.take(k - i));
            }
            out.push((i, k));
            i = k;
        }
    }
    proof {
        assert(t.skip(i - a).len() == 0);
        assert(got + tokens(t.skip(i - a)) =~= got);
    }
    out
}

proof fn lemma_digits_prefix(d: Seq<u8>, k: int)
    requires
        0 <= k <= d.len(),
    ensures
        digits_value(d.take(k)) <= digits_value(d),
    decreases d.len(),
{
    if k < d.len() {
        lemma_digits_prefix(d.drop_last(), k);
        assert(d.drop_last().take(k) =~= d.take(k));
    } else {
        assert(d.take(k) =~= d);
    }
}

/// The unsigned number written in `s[a..b]`, if it is one and at most `max`.
fn parse_uint_at(s: &[u8], a: usize, b: usize, max: u64) -> (r: Option<u64>)
    requires
        a <= b <= s@.len(),
        max >= 9,
    ensures
        match parse_uint(s@.subrange(a as int, b as int), max as int) {
            Some(v) => r == Some(v as u64),
            None => r is None,
        },
{
    let ghost t = s@.subrange(a as int, b as int);
    let start = if b > a && s[a] == 0x2B { a + 1 } else { a };
    let ghost d = unsigned_digits(t);
    assert(d =~= s@.subrange(start as int, b as int));
    if start == b {
        return None;
    }
    let mut v: u64 = 0;
    let mut i: usize = start;
    assert(d.take(0) =~= Seq::<u8>::empty());
    while i < b
        invariant
            t == s@.subrange(a as int, b as int),
            d == unsigned_digits(t),
            d.len() > 0,
            d == s@.subrange(start as int, b as int),
            start <= i <= b <= s@.len(),
            max >= 9,
            forall|q: int| 0 <= q < i - start ==> is_digit(#[trigger] d[q]),
            v == digits_value(d.take(i - start)),
            v <= max,
        decreases b - i,
    {
        let c = s[i];
        if !(0x30 <= c && c <= 0x39) {
            assert(!is_digit(d[i - start]));
            return None;
        }
        let dg = (c - 0x30) as u64;
        proof {
            assert(d.take(i + 1 - start).drop_last() =~= d.take(i - start));
        }
        if v > (max - dg) / 10 {
            proof {
                assert(v * 10 + dg > max) by (nonlinear_arith)
                    requires
                        v > (max - dg) / 10,
                        dg <= 9,
                        max >= 9,
                ;
                if all_digits(d) {
                    lemma_digits_prefix(d, i + 1 - start);
                }
            }
            return None;
        }
        proof {
            assert(v * 10 + dg <= max) by (nonlinear_arith)
                requires
                    v <= (max - dg) / 10,
                    dg <= 9,
            ;
        }
        v = v * 10 + dg;
        i = i + 1;
    }
    assert(d.take(i - start) =~= d);
    Some(v)
}

/// Whether `s[a..b]` equals `lit`, ignoring ASCII case.
fn eq_ignore_case_at(s: &[u8], a: usize, b: usize, lit: &Vec<u8>) -> (r: bool)
    requires
        a <= b <= s@.len(),
    ensures
        r == eq_ignore_case(s@.subrange(a as int, b as int), lit@),
{
    let ghost t = s@.subrange(a as int, b as int);
    if b - a != lit.len() {
        return false;
    }
    let mut i: usize = 0;
    while i < lit.len()
        invariant
            t == s@.subrange(a as int, b as int),
            a <= b <= s@.len(),
            b - a == lit@.len(),
            i <= lit@.len(),
            forall|q: int| 0 <= q < i ==> lower(#[trigger] t[q]) == lower(lit@[q]),
        decreases lit@.len() - i,
    {
        let x = s[a + i];
        let y = lit[i];
        let lx = if 0x41 <= x && x <= 0x5A { x + 0x20 } else { x };
        let ly = if 0x41 <= y && y <= 0x5A { y + 0x20 } else { y };
        if lx != ly {
            assert(lower(t[i as int]) != lower(lit@[i as int]));
            return false;
        }
        i = i + 1;
    }
    true
}

/// Reads the size line `s[a..b]`.
fn parse_dims_line(s: &[u8], a: usize, b: usize) -> (r: Result<MatrixHeader, InputError>)
    requires
        a <= b <= s@.len(),
    ensures
        r == dims_of_line(s@.subrange(a as int, b as int)),
{
    let toks = tokenize(s, a, b);
    if toks.len() < 3 {
        return Err(InputError::InvalidMtxDimensions(DimsIssue::ExpectedThreeIntegers));
    }
    let n_rows = match parse_uint_at(s, toks[0].0, toks[0].1, usize::MAX as u64) {
        Some(v) => v,
        None => return Err(InputError::InvalidMtxDimensions(DimsIssue::InvalidRows)),
    };
    let n_cols = match parse_uint_at(s, toks[1].0, toks[1].1, usize::MAX as u64) {
        Some(v) => v,
        None => return Err(InputError::InvalidMtxDimensions(DimsIssue::InvalidCols)),
    };
    let nnz = match parse_uint_at(s, toks[2].0, toks[2].1, usize::MAX as u64) {
        Some(v) => v,
        None => return Err(InputError::InvalidMtxDimensions(DimsIssue::InvalidNnz)),
    };
    if n_rows == 0 || n_cols == 0 || nnz == 0 {
        return Err(InputError::InvalidMtxDimensions(DimsIssue::ZeroDimensions));
    }
    Ok(MatrixHeader { n_rows: n_rows as usize, n_cols: n_cols as usize, nnz: nnz as usize })
}

/// Reads the entry line `s[a..b]`.
fn parse_entry_line(s: &[u8], a: usize, b: usize) -> (r: Result<Entry, InputError>)
    requires
        a <= b <= s@.len(),
    ensures
        r == entry_of_line(s@.subrange(a as int, b as int)),
{
    let toks = tokenize(s, a, b);
    if toks.len() < 3 {
        return Err(InputError::InvalidTsvRow { line: 0, reason: RowIssue::InvalidMtxEntry });
    }
    let row = match parse_uint_at(s, toks[0].0, toks[0].1, u32::MAX as u64) {
        Some(v) => v,
        None => return Err(InputError::InvalidMtxDimensions(DimsIssue::InvalidRow)),
    };
    let col = match parse_uint_at(s, toks[1].0, toks[1].1, u32::MAX as u64) {
        Some(v) => v,
        None => return Err(InputError::InvalidMtxDimensions(DimsIssue::InvalidCol)),
    };
    let val = match parse_uint_at(s, toks[2].0, toks[2].1, u32::MAX as u64) {
        Some(v) => v,
        None => return Err(InputError::InvalidMtxDimensions(DimsIssue::InvalidValue)),
    };
    if row == 0 || col == 0 {
        return Err(InputError::InvalidMtxDimensions(DimsIssue::NotOneBased));
    }
    Ok(((col - 1) as u32, (row - 1) as u32, val as u32))
}

/// Finds the size line at or after `p` and reads it; on success also gives
/// where the line after it starts.
fn read_dims(s: &[u8], p: usize) -> (r: Result<(MatrixHeader, usize), InputError>)
    requires
        p <= s@.len(),
    ensures
        match dims_from(s@, p as int) {
            Ok(h) => r == Ok::<(MatrixHeader, usize), InputError>(
                (h, next_line(s@, data_line(s@, p as int)) as usize),
            ),
            Err(e) => r == Err::<(MatrixHeader, usize), InputError>(e),
        },
{
    let len = s.len();
    let mut q: usize = p;
    while q < len
        invariant
            len == s@.len(),
            p <= q <= len,
            data_line(s@, p as int) == data_line(s@, q as int),
        decreases len - q,
    {
        let (te, next) = line_span(s, q);
        if te > q && s[q] != 0x25 {
            assert(!is_skipped(line_text(s@, q as int)));
            let h = parse_dims_line(s, q, te);
            return match h {
                Ok(h) => Ok((h, next)),
                Err(e) => Err(e),
            };
        }
        q = next;
    }
    Err(InputError::InvalidMtxDimensions(DimsIssue::MissingDimensions))
}

/// Checks the banner line that starts at offset 0 and ends at `te`.
fn check_banner(s: &[u8], te: usize) -> (r: Option<HeaderIssue>)
    requires
        te <= s@.len(),
    ensures
        r == banner_issue(s@.subrange(0, te as int)),
{
    let toks = tokenize(s, 0, te);
    if toks.len() < 4 {
        return Some(HeaderIssue::ExpectedBanner);
    }
    let w0 = vec![0x25u8, 0x25, 0x4D, 0x61, 0x74, 0x72, 0x69, 0x78, 0x4D, 0x61, 0x72, 0x6B, 0x65, 0x74];
    let w1 = vec![0x6Du8, 0x61, 0x74, 0x72, 0x69, 0x78];
    let w2 = vec![0x63u8, 0x6F, 0x6F, 0x72, 0x64, 0x69, 0x6E, 0x61, 0x74, 0x65];
    let w3 = vec![0x69u8, 0x6E, 0x74, 0x65, 0x67, 0x65, 0x72];
    assert(w0@ =~= banner_words()[0]);
    assert(w1@ =~= banner_words()[1]);
    assert(w2@ =~= banner_words()[2]);
    assert(w3@ =~= banner_words()[3]);
    let ok = eq_ignore_case_at(s, toks[0].0, toks[0].1, &w0) && eq_ignore_case_at(
        s,
        toks[1].0,
        toks[1].1,
        &w1,
    ) && eq_ignore_case_at(s, toks[2].0, toks[2].1, &w2) && eq_ignore_case_at(
        s,
        toks[3].0,
        toks[3].1,
        &w3,
    );
    if ok {
        None
    } else {
        Some(HeaderIssue::UnsupportedFormat)
    }
}

/// Reads the banner and the size line of MatrixMarket text.
pub fn read_header(s: &[u8]) -> (r: Result<MatrixHeader, InputError>)
    ensures
        r == header_of(s@),
{
    match read_header_and_start(s) {
        Ok((h, _)) => Ok(h),
        Err(e) => Err(e),
    }
}

fn read_header_and_start(s: &[u8]) -> (r: Result<(MatrixHeader, usize), InputError>)
    ensures
        match header_of(s@) {
            Ok(h) => r == Ok::<(MatrixHeader, usize), InputError>((h, entries_start(s@) as usize)),
            Err(e) => r == Err::<(MatrixHeader, usize), InputError>(e),
        },
{
    if s.len() == 0 {
        return Err(InputError::InvalidMtxHeader(HeaderIssue::EmptyFile));
    }
    let (te, next) = line_span(s, 0);
    match check_banner(s, te) {
        Some(issue) => return Err(InputError::InvalidMtxHeader(issue)),
        None => {},
    }
    read_dims(s, next)
}

/// Reads MatrixMarket text: the header, then every entry line as a 0-based
/// `(col, row, value)` in file order. The first malformed line decides the
/// error.
pub fn read_entries(s: &[u8]) -> (r: Result<(MatrixHeader, Vec<Entry>), InputError>)
    ensures
        match header_of(s@) {
            Err(e) => r == Err::<(MatrixHeader, Vec<Entry>), InputError>(e),
            Ok(h) => match entries_from(s@, entries_start(s@)) {
                Ok(es) => r matches Ok((h2, v)) && h2 == h && v@ == es,
                Err(e) => r == Err::<(MatrixHeader, Vec<Entry>), InputError>(e),
            },
        },
{
    let (header, p0) = match read_header_and_start(s) {
        Ok(x) => x,
        Err(e) => return Err(e),
    };
    let len = s.len();
    let ghost start = p0 as int;
    let mut entries: Vec<Entry> = Vec::new();
    let mut p: usize = p0;
    proof {
        lemma_next_line_bound(s@, 0);
        lemma_next_line_bound(s@, next_line(s@, 0));
        lemma_next_line_bound(s@, data_line(s@, next_line(s@, 0)));
        assert(entries@ + Seq::<Entry>::empty() =~= entries@);
    }
    while p < len
        invariant
            len == s@.len(),
            p <= len,
            entries_from(s@, start) == prepend(entries@, entries_from(s@, p as int)),
            header_of(s@) == Ok::<MatrixHeader, InputError>(header),
            start == entries_start(s@),
        decreases len - p,
    {
        let (te, next) = line_span(s, p);
        if te > p && s[p] != 0x25 {
            assert(!is_skipped(line_text(s@, p as int)));
            match parse_entry_line(s, p, te) {
                Ok(x) => {
                    proof {
                        lemma_prepend_push(entries@, x, entries_from(s@, next as int));
                    }
                    entries.push(x);
                },
                Err(e) => {
                    return Err(e);
                },
            }
        } else {
            proof {
                if te > p {
                    assert(line_text(s@, p as int)[0] == s@[p as int]);
                }
            }
        }
        p = next;
    }
    proof {
        assert(entries@ + Seq::<Entry>::empty() =~= entries@);
    }
    Ok((header, entries))
}

/// Counts the data lines after the size line, for checking the declared
/// number of entries. The banner's content is not checked here.
pub fn count_nnz_lines(s: &[u8]) -> (r: Result<usize, InputError>)
    ensures
        s@.len() == 0 ==> r == Err::<usize, InputError>(InputError::InvalidMtxHeader(HeaderIssue::EmptyFile)),
        s@.len() > 0 ==> match dims_from(s@, next_line(s@, 0)) {
            Err(e) => r == Err::<usize, InputError>(e),
            Ok(_) => r == Ok::<usize, InputError>(data_lines_from(s@, entries_start(s@)) as usize),
        },
{
    if s.len() == 0 {
        return Err(InputError::InvalidMtxHeader(HeaderIssue::EmptyFile));
    }
    let (_, next) = line_span(s, 0);
    let p0 = match read_dims(s, next) {
        Ok((_, q)) => q,
        Err(e) => return Err(e),
    };
    let len = s.len();
    let ghost start = p0 as int;
    let mut count: usize = 0;
    let mut p: usize = p0;
    proof {
        lemma_next_line_bound(s@, 0);
        lemma_next_line_bound(s@, next_line(s@, 0));
        lemma_next_line_bound(s@, data_line(s@, next_line(s@, 0)));
    }
    while p < len
        invariant
            len == s@.len(),
            p <= len,
            count <= p,
            data_lines_from(s@, start) == count + data_lines_from(s@, p as int),
        decreases len - p,
    {
        let (te, next) = line_span(s, p);
        if te > p && s[p] != 0x25 {
            assert(!is_skipped(line_text(s@, p as int)));
            count = count + 1;
        } else {
            proof {
                if te > p {
                    assert(line_text(s@, p as int)[0] == s@[p as int]);
                }
            }
        }
        p = next;
    }
    Ok(count)
}

/// `acc` followed by the entries of `r`, or the error of `r`.
pub open spec fn prepend(acc: Seq<Entry>, r: Result<Seq<Entry>, InputError>) -> Result<Seq<Entry>, InputError> {
    match r {
        Ok(rest) => Ok(acc + rest),
        Err(e) => Err(e),
    }
}

proof fn lemma_prepend_push(acc: Seq<Entry>, x: Entry, r: Result<Seq<Entry>, InputError>)
    ensures
        prepend(acc, match r {
            Err(e) => Err(e),
            Ok(rest) => Ok(seq![x] + rest),
        }) == prepend(acc.push(x), r),
{
    match r {
        Ok(rest) => {
            assert(acc + (seq![x] + rest) =~= acc.push(x) + rest);
        },
        Err(_) => {},
    }
}

proof fn lemma_next_line_bound(s: Seq<u8>, p: int)
    requires
        0 <= p,
    ensures
        0 <= next_line(s, p) <= s.len(),
        p < s.len() ==> next_line(s, p) > p,
        0 <= data_line(s, p) <= s.len(),
        p <= s.len() ==> p <= data_line(s, p),
    decreases s.len() - p,
{
    lemma_line_end_bounds(s, p);
    if p < s.len() {
        if is_skipped(line_text(s, p)) {
            lemma_next_line_bound(s, next_line(s, p));
        }
    }
}

/// The barcodes of the lines at or after `p`, one per line, where `line`
/// lines came before `p`; or the error of the first line that is empty or
/// not UTF-8.
pub open spec fn barcodes_from(s: Seq<u8>, p: int, line: int) -> Result<Seq<Seq<char>>, InputError>
    decreases s.len() - p,
{
    if p >= s.len() {
        Ok(Seq::empty())
    } else if line_text(s, p).len() == 0 {
        Err(InputError::EmptyBarcode((line + 1) as usize))
    } else if !valid_utf8(line_text(s, p)) {
        Err(InputError::InvalidUtf8((line + 1) as usize))
    } else {
        match barcodes_from(s, next_line(s, p), line + 1) {
            Err(e) => Err(e),
            Ok(rest) => Ok(seq![decode_utf8(line_text(s, p))] + rest),
        }
    }
}

/// Reads a barcodes file: one non-empty barcode per line, at least one.
pub fn read_barcodes(s: &[u8]) -> (r: Result<Vec<String>, InputError>)
    ensures
        match barcodes_from(s@, 0, 0) {
            Err(e) => r == Err::<Vec<String>, InputError>(e),
            Ok(v) => if v.len() == 0 {
                r == Err::<Vec<String>, InputError>(InputError::InvalidTsvRow { line: 0, reason: RowIssue::NoBarcodes })
            } else {
                r matches Ok(out) && out@.len() == v.len() && forall|i: int| 0 <= i < v.len() ==> (#[trigger] out@[i])@ == v[i]
            },
        },
{
    let len = s.len();
    let mut out: Vec<String> = Vec::new();
    let ghost mut got: Seq<Seq<char>> = Seq::empty();
    let mut p: usize = 0;
    let mut line: usize = 0;
    proof {
        assert(got + Seq::<Seq<char>>::empty() =~= got);
    }
    while p < len
        invariant
            len == s@.len(),
            p <= len,
            line <= p,
            out@.len() == got.len(),
            forall|i: int| 0 <= i < got.len() ==> (#[trigger] out@[i])@ == got[i],
            barcodes_from(s@, 0, 0) == prepend_text(got, barcodes_from(s@, p as int, line as int)),
        decreases len - p,
    {
        let (te, next) = line_span(s, p);
        if te == p {
            return Err(InputError::EmptyBarcode(line + 1));
        }
        let piece = slice_subrange(s, p, te);
        match crate::cache::utf8_to_string(piece) {
            Some(text) => {
                proof {
                    let rest = barcodes_from(s@, next as int, line + 1);
                    match rest {
                        Ok(r2) => {
                            assert(got + (seq![text@] + r2) =~= got.push(text@) + r2);
                        },
                        Err(_) => {},
                    }
                    got = got.push(text@);
                }
                out.push(text);
            },
            None => {
                return Err(InputError::InvalidUtf8(line + 1));
            },
        }
        p = next;
        line = line + 1;
    }
    proof {
        assert(got + Seq::<Seq<char>>::empty() =~= got);
    }
    if out.len() == 0 {
        return Err(InputError::InvalidTsvRow { line: 0, reason: RowIssue::NoBarcodes });
    }
    Ok(out)
}

/// Where the tab-separated field of `t` that starts at `i` ends.
pub open spec fn field_end(t: Seq<u8>, i: int) -> int
    decreases t.len() - i,
{
    if i >= t.len() {
        t.len() as int
    } else if t[i] == 0x09 {
        i
    } else {
        field_end(t, i + 1)
    }
}

/// The first two tab-separated fields of `t`; a missing second field is
/// empty.
pub open spec fn first_two_fields(t: Seq<u8>) -> (Seq<u8>, Seq<u8>) {
    let e1 = field_end(t, 0);
    let second = if e1 < t.len() { t.subrange(e1 + 1, field_end(t, e1 + 1)) } else { Seq::empty() };
    (t.subrange(0, e1), second)
}

/// The `(id, symbol)` rows of the lines at or after `p`, where `line` lines
/// came before `p`; or the error of the first line that is empty, lacks
/// an id or a symbol, or is not UTF-8.
pub open spec fn features_from(s: Seq<u8>, p: int, line: int) -> Result<Seq<(Seq<char>, Seq<char>)>, InputError>
    decreases s.len() - p,
{
    if p >= s.len() {
        Ok(Seq::empty())
    } else {
        let t = line_text(s, p);
        let (id, symbol) = first_two_fields(t);
        if t.len() == 0 {
            Err(InputError::InvalidTsvRow { line: (line + 1) as usize, reason: RowIssue::EmptyRow })
        } else if id.len() == 0 || symbol.len() == 0 {
            Err(InputError::InvalidTsvRow { line: (line + 1) as usize, reason: RowIssue::ExpectedTwoColumns })
        } else if !valid_utf8(id) || !valid_utf8(symbol) {
            Err(InputError::InvalidUtf8((line + 1) as usize))
        } else {
            match features_from(s, next_line(s, p), line + 1) {
                Err(e) => Err(e),
                Ok(rest) => Ok(seq![(decode_utf8(id), decode_utf8(symbol))] + rest),
            }
        }
    }
}

fn scan_field(s: &[u8], i: usize, b: usize) -> (r: usize)
    requires
        i <= b <= s@.len(),
    ensures
        i <= r <= b,
        r as int == i + field_end(s@.subrange(i as int, b as int), 0),
{
    let ghost t = s@.subrange(i as int, b as int);
    let mut k: usize = i;
    while k < b && s[k] != 0x09
        invariant
            i <= k <= b <= s@.len(),
            t == s@.subrange(i as int, b as int),
            field_end(t, 0) == field_end(t, k - i),
        decreases b - k,
    {
        k = k + 1;
    }
    k
}

proof fn lemma_field_end_shift(t: Seq<u8>, i: int, j: int)
    requires
        0 <= i <= j <= t.len(),
    ensures
        field_end(t, j) == i + field_end(t.subrange(i, t.len() as int), j - i),
    decreases t.len() - j,
{
    if j < t.len() && t[j] != 0x09 {
        lemma_field_end_shift(t, i, j + 1);
    }
}

proof fn lemma_field_end_bounds(t: Seq<u8>, i: int)
    requires
        0 <= i <= t.len(),
    ensures
        i <= field_end(t, i) <= t.len(),
        field_end(t, i) < t.len() ==> t[field_end(t, i)] == 0x09,
    decreases t.len() - i,
{
    if i < t.len() && t[i] != 0x09 {
        lemma_field_end_bounds(t, i + 1);
    }
}

/// Reads a features (or genes) file: per line a feature id and a gene
/// symbol, tab-separated, both non-empty; further fields are ignored. At
/// least one row is required.
pub fn read_features(s: &[u8]) -> (r: Result<Vec<FeatureRow>, InputError>)
    ensures
        match features_from(s@, 0, 0) {
            Err(e) => r == Err::<Vec<FeatureRow>, InputError>(e),
            Ok(v) => if v.len() == 0 {
                r == Err::<Vec<FeatureRow>, InputError>(InputError::InvalidTsvRow { line: 0, reason: RowIssue::NoFeatureRows })
            } else {
                r matches Ok(out) && out@.len() == v.len() && forall|i: int|
                    0 <= i < v.len() ==> (#[trigger] out@[i]).id@ == v[i].0 && out@[i].symbol@ == v[i].1
            },
        },
{
    let len = s.len();
    let mut out: Vec<FeatureRow> = Vec::new();
    let ghost mut got: Seq<(Seq<char>, Seq<char>)> = Seq::empty();
    let mut p: usize = 0;
    let mut line: usize = 0;
    proof {
        assert(got + Seq::<(Seq<char>, Seq<char>)>::empty() =~= got);
    }
    while p < len
        invariant
            len == s@.len(),
            p <= len,
            line <= p,
            out@.len() == got.len(),
            forall|i: int| 0 <= i < got.len() ==> (#[trigger] out@[i]).id@ == got[i].0 && out@[i].symbol@ == got[i].1,
            features_from(s@, 0, 0) == prepend_rows(got, features_from(s@, p as int, line as int)),
        decreases len - p,
    {
        let (te, next) = line_span(s, p);
        let ghost t = line_text(s@, p as int);
        if te == p {
            return Err(InputError::InvalidTsvRow { line: line + 1, reason: RowIssue::EmptyRow });
        }
        let e1 = scan_field(s, p, te);
        proof {
            assert(t == s@.subrange(p as int, te as int));
            lemma_field_end_bounds(t, 0);
        }
        let (a2, e2) = if e1 < te {
            let e2 = scan_field(s, e1 + 1, te);
            proof {
                lemma_field_end_shift(t, e1 + 1 - p, e1 + 1 - p);
                assert(t.subrange(e1 + 1 - p, t.len() as int) =~= s@.subrange(e1 + 1, te as int));
            }
            (e1 + 1, e2)
        } else {
            (te, te)
        };
        proof {
            let (id, symbol) = first_two_fields(t);
            assert(id =~= s@.subrange(p as int, e1 as int));
            assert(symbol =~= s@.subrange(a2 as int, e2 as int));
        }
        if e1 == p || e2 == a2 {
            return Err(InputError::InvalidTsvRow { line: line + 1, reason: RowIssue::ExpectedTwoColumns });
        }
        let id = match crate::cache::utf8_to_string(slice_subrange(s, p, e1)) {
            Some(v) => v,
            None => return Err(InputError::InvalidUtf8(line + 1)),
        };
        let symbol = match crate::cache::utf8_to_string(slice_subrange(s, a2, e2)) {
            Some(v) => v,
            None => return Err(InputError::InvalidUtf8(line + 1)),
        };
        proof {
            let rest = features_from(s@, next as int, line + 1);
            match rest {
                Ok(r2) => {
                    assert(got + (seq![(id@, symbol@)] + r2) =~= got.push((id@, symbol@)) + r2);
                },
                Err(_) => {},
            }
            got = got.push((id@, symbol@));
        }
        out.push(FeatureRow { id, symbol });
        p = next;
        line = line + 1;
    }
    proof {
        assert(got + Seq::<(Seq<char>, Seq<char>)>::empty() =~= got);
    }
    if out.len() == 0 {
        return Err(InputError::InvalidTsvRow { line: 0, reason: RowIssue::NoFeatureRows });
    }
    Ok(out)
}

/// `acc` followed by the rows of `r`, or the error of `r`.
pub open spec fn prepend_rows(
    acc: Seq<(Seq<char>, Seq<char>)>,
    r: Result<Seq<(Seq<char>, Seq<char>)>, InputError>,
) -> Result<Seq<(Seq<char>, Seq<char>)>, InputError> {
    match r {
        Ok(rest) => Ok(acc + rest),
        Err(e) => Err(e),
    }
}

/// `acc` followed by the strings of `r`, or the error of `r`.
pub open spec fn prepend_text(acc: Seq<Seq<char>>, r: Result<Seq<Seq<char>>, InputError>) -> Result<Seq<Seq<char>>, InputError> {
    match r {
        Ok(rest) => Ok(acc + rest),
        Err(e) => Err(e),
    }
}

proof fn lemma_line_end_bounds(s: Seq<u8>, p: int)
    requires
        0 <= p,
    ensures
        p <= line_end(s, p) <= s.len() || (p > s.len() && line_end(s, p) == s.len()),
        line_end(s, p) < s.len() ==> s[line_end(s, p)] == 0x0A,
        forall|k: int| p <= k < line_end(s, p) ==> s[k] != 0x0A,
    decreases s.len() - p,
{
    if p < s.len() && s[p] != 0x0A {
        lemma_line_end_bounds(s, p + 1);
    }
}

} // verus!
