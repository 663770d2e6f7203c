//! Names of the files of a 10x-style input directory and of its caches.

use vstd::prelude::*;
use vstd::slice::slice_subrange;
use vstd::utf8::{decode_utf8, valid_utf8};

use crate::error::{InputError, RowIssue};

verus! {

/// Which 10x layout a directory follows.
#[derive(Debug, Clone, Copy, PartialEq, Eq, Structural)]
pub enum TenXFormat {
    TenXv2,
    TenXv3,
    Unknown,
}

impl TenXFormat {
    pub open spec fn spec_name(self) -> &'static str {
        match self {
            TenXFormat::TenXv2 => "tenx_v2",
            TenXFormat::TenXv3 => "tenx_v3",
            TenXFormat::Unknown => "unknown",
        }
    }

    pub fn as_str(&self) -> (r: &'static str)
        ensures
            r == self.spec_name(),
    {
        match self {
            TenXFormat::TenXv2 => "tenx_v2",
            TenXFormat::TenXv3 => "tenx_v3",
            TenXFormat::Unknown => "unknown",
        }
    }
}

/// The files of a 10x-style directory.
#[derive(Debug, Clone)]
pub struct TenXLayout {
    pub format: TenXFormat,
    pub matrix_path: String,
    pub features_path: String,
    pub barcodes_path: String,
    pub prefix: Option<String>,
}

/// Assembles the layout from the files found: barcodes and matrix are
/// required; exactly one of a features file (10x v3) or a genes file
/// (10x v2) must be present.
pub fn detect_10x_layout(
    barcodes: Option<String>,
    matrix: Option<String>,
    features: Option<String>,
    genes: Option<String>,
    prefix: Option<String>,
) -> (r: Result<TenXLayout, InputError>)
    ensures
        barcodes is None ==> (r matches Err(InputError::MissingFile(m)) && m@ == "barcodes.tsv[.gz]"@),
        barcodes is Some && matrix is None ==> (r matches Err(InputError::MissingFile(m)) && m@
            == "matrix.mtx[.gz]"@),
        barcodes is Some && matrix is Some ==> match (features, genes) {
            (Some(f), None) => r matches Ok(l) && l.format == TenXFormat::TenXv3 && l.features_path == f
                && l.matrix_path == matrix->Some_0 && l.barcodes_path == barcodes->Some_0 && l.prefix == prefix,
            (None, Some(g)) => r matches Ok(l) && l.format == TenXFormat::TenXv2 && l.features_path == g
                && l.matrix_path == matrix->Some_0 && l.barcodes_path == barcodes->Some_0 && l.prefix == prefix,
            (Some(_), Some(_)) => r == Err::<TenXLayout, InputError>(
                InputError::InvalidTsvRow { line: 0, reason: RowIssue::BothFeatureFiles },
            ),
            (None, None) => r matches Err(InputError::MissingFile(m)) && m@ == "features.tsv/genes.tsv[.gz]"@,
        },
{
    let barcodes_path = match barcodes {
        Some(b) => b,
        None => return Err(InputError::MissingFile("barcodes.tsv[.gz]".to_string())),
    };
    let matrix_path = match matrix {
        Some(m) => m,
        None => return Err(InputError::MissingFile("matrix.mtx[.gz]".to_string())),
    };
    match (features, genes) {
        (Some(features_path), None) => Ok(TenXLayout {
            format: TenXFormat::TenXv3,
            matrix_path,
            features_path,
            barcodes_path,
            prefix,
        }),
        (None, Some(genes_path)) => Ok(TenXLayout {
            format: TenXFormat::TenXv2,
            matrix_path,
            features_path: genes_path,
            barcodes_path,
            prefix,
        }),
        (Some(_), Some(_)) => Err(InputError::InvalidTsvRow { line: 0, reason: RowIssue::BothFeatureFiles }),
        (None, None) => Err(InputError::MissingFile("features.tsv/genes.tsv[.gz]".to_string())),
    }
}

/// The default name of the shared cache file.
pub open spec fn cache_suffix() -> Seq<char> {
    "kira-organelle.bin"@
}

/// The shared cache's file name: `<prefix>.kira-organelle.bin` for a
/// non-empty prefix, else `kira-organelle.bin`.
pub fn resolve_shared_cache_file_name(prefix: Option<&str>) -> (r: String)
    ensures
        r@ == match prefix {
            Some(p) => if p@.len() > 0 { p@ + "."@ + cache_suffix() } else { cache_suffix() },
            None => cache_suffix(),
        },
{
    match prefix {
        Some(p) => {
            if p.is_empty() {
                "kira-organelle.bin".to_string()
            } else {
                let mut r = p.to_string();
                r.append(".");
                r.append("kira-organelle.bin");
                r
            }
        },
        None => "kira-organelle.bin".to_string(),
    }
}


pub open spec fn ends_with(s: Seq<u8>, suf: Seq<u8>) -> bool {
    suf.len() <= s.len() && s.subrange(s.len() - suf.len(), s.len() as int) == suf
}

/// `s` with every trailing repetition of `suf` removed.
pub open spec fn strip_suffix_all(s: Seq<u8>, suf: Seq<u8>) -> Seq<u8>
    decreases s.len(),
{
    if suf.len() > 0 && ends_with(s, suf) {
        strip_suffix_all(s.subrange(0, s.len() - suf.len()), suf)
    } else {
        s
    }
}

/// The non-empty part of `name` before the trailing `suf`, if any.
pub open spec fn prefix_before(name: Seq<u8>, suf: Seq<u8>) -> Option<Seq<u8>> {
    if ends_with(name, suf) && strip_suffix_all(name, suf).len() > 0 {
        Some(strip_suffix_all(name, suf))
    } else {
        None
    }
}

/// The dataset prefix of a file named `<prefix>_<base>` or
/// `<prefix>_<base>.gz`, as bytes.
pub open spec fn name_prefix(name: Seq<u8>, base: Seq<u8>) -> Option<Seq<u8>> {
    let plain = seq![0x5Fu8] + base;
    let gz = plain + seq![0x2Eu8, 0x67u8, 0x7Au8];
    if prefix_before(name, plain) is Some {
        prefix_before(name, plain)
    } else {
        prefix_before(name, gz)
    }
}

fn ends_with_at(s: &[u8], n: usize, suf: &Vec<u8>) -> (r: bool)
    requires
        n <= s@.len(),
    ensures
        r == ends_with(s@.subrange(0, n as int), suf@),
{
    let ghost t = s@.subrange(0, n as int);
    if suf.len() > n {
        return false;
    }
    let start = n - suf.len();
    let mut i: usize = 0;
    while i < suf.len()
        invariant
            t == s@.subrange(0, n as int),
            start + suf@.len() == n,
            n <= s@.len(),
            i <= suf@.len(),
            forall|k: int| 0 <= k < i ==> s@[start + k] == suf@[k],
        decreases suf@.len() - i,
    {
        if s[start + i] != suf[i] {
            assert(t.subrange(t.len() - suf@.len(), t.len() as int)[i as int] != suf@[i as int]);
            return false;
        }
        i = i + 1;
    }
    assert(t.subrange(t.len() - suf@.len(), t.len() as int) =~= suf@);
    true
}

/// Length of `s[..n]` once every trailing repetition of `suf` is removed.
fn strip_len(s: &[u8], n: usize, suf: &Vec<u8>) -> (r: usize)
    requires
        n <= s@.len(),
    ensures
        r <= n,
        s@.subrange(0, r as int) == strip_suffix_all(s@.subrange(0, n as int), suf@),
{
    let mut m: usize = n;
    while suf.len() > 0 && ends_with_at(s, m, suf)
        invariant
            m <= n <= s@.len(),
            strip_suffix_all(s@.subrange(0, n as int), suf@) == strip_suffix_all(s@.subrange(0, m as int), suf@),
        decreases m,
    {
        proof {
            assert(s@.subrange(0, m as int).subrange(0, m - suf@.len()) =~= s@.subrange(0, m - suf@.len()));
        }
        m = m - suf.len();
    }
    m
}

fn prefix_before_exec(s: &[u8], suf: &Vec<u8>) -> (r: Option<usize>)
    ensures
        r matches Some(m) ==> m <= s@.len(),
        match prefix_before(s@, suf@) {
            Some(p) => r matches Some(m) && m == p.len() && p == s@.subrange(0, m as int),
            None => r is None,
        },
{
    let n = s.len();
    assert(s@.subrange(0, n as int) =~= s@);
    if !ends_with_at(s, n, suf) {
        return None;
    }
    let m = strip_len(s, n, suf);
    if m == 0 {
        return None;
    }
    Some(m)
}

/// The dataset prefix of the file `name` with base name `base`: `ABC` for
/// `ABC_matrix.mtx` or `ABC_matrix.mtx.gz`; nothing for `matrix.mtx`.
pub fn prefix_from_name(name: &str, base: &str) -> (r: Option<String>)
    ensures
        match name_prefix(vstd::utf8::encode_utf8(name@), vstd::utf8::encode_utf8(base@)) {
            Some(p) => if valid_utf8(p) { r matches Some(v) && v@ == decode_utf8(p) } else { r is None },
            None => r is None,
        },
{
    let nb = name.as_bytes();
    let bb = base.as_bytes();
    let mut plain: Vec<u8> = Vec::new();
    plain.push(0x5F);
    let mut i: usize = 0;
    while i < bb.len()
        invariant
            i <= bb@.len(),
            plain@ =~= seq![0x5Fu8] + bb@.take(i as int),
        decreases bb@.len() - i,
    {
        plain.push(bb[i]);
        i = i + 1;
    }
    assert(bb@.take(bb@.len() as int) =~= bb@);
    let mut gz = plain.clone();
    gz.push(0x2E);
    gz.push(0x67);
    gz.push(0x7A);
    assert(gz@ =~= plain@ + seq![0x2Eu8, 0x67u8, 0x7Au8]);
    assert(plain@ == seq![0x5Fu8] + bb@);
    assert(gz@ == seq![0x5Fu8] + bb@ + seq![0x2Eu8, 0x67u8, 0x7Au8]);
    let ghost plain_s = seq![0x5Fu8] + bb@;
    let ghost gz_s = plain_s + seq![0x2Eu8, 0x67u8, 0x7Au8];
    assert(name_prefix(nb@, bb@) == if prefix_before(nb@, plain_s) is Some {
        prefix_before(nb@, plain_s)
    } else {
        prefix_before(nb@, gz_s)
    });
    match prefix_before_exec(nb, &plain) {
        Some(m) => {
            let piece = slice_subrange(nb, 0, m);
            assert(piece@ == prefix_before(nb@, plain_s)->Some_0);
            crate::cache::utf8_to_string(piece)
        },
        None => match prefix_before_exec(nb, &gz) {
            Some(m) => {
                let piece = slice_subrange(nb, 0, m);
                assert(piece@ == prefix_before(nb@, gz_s)->Some_0);
                crate::cache::utf8_to_string(piece)
            },
            None => None,
        },
    }
}

/// The file bases that carry a dataset prefix, in the order they are tried.
pub open spec fn prefix_bases() -> Seq<Seq<char>> {
    seq!["matrix.mtx"@, "features.tsv"@, "genes.tsv"@, "barcodes.tsv"@]
}

/// What `prefix_from_name` gives for `name` and `base`.
pub open spec fn prefix_text(name: Seq<char>, base: Seq<char>) -> Option<Seq<char>> {
    match name_prefix(vstd::utf8::encode_utf8(name), vstd::utf8::encode_utf8(base)) {
        Some(p) => if valid_utf8(p) { Some(decode_utf8(p)) } else { None },
        None => None,
    }
}

/// The prefix of a directory entry: that of the first base it matches.
pub open spec fn entry_prefix(name: Seq<char>) -> Option<Seq<char>> {
    if prefix_text(name, prefix_bases()[0]) is Some {
        prefix_text(name, prefix_bases()[0])
    } else if prefix_text(name, prefix_bases()[1]) is Some {
        prefix_text(name, prefix_bases()[1])
    } else if prefix_text(name, prefix_bases()[2]) is Some {
        prefix_text(name, prefix_bases()[2])
    } else {
        prefix_text(name, prefix_bases()[3])
    }
}

/// Whether the first `k` names carry a prefix that differs from `p`.
pub open spec fn other_prefix_upto(names: Seq<Seq<char>>, p: Seq<char>, k: int) -> bool {
    exists|i: int| 0 <= i < k && differs(#[trigger] entry_prefix(names[i]), p)
}

/// A prefix is present and is not `p`.
pub open spec fn differs(o: Option<Seq<char>>, p: Seq<char>) -> bool {
    match o {
        Some(q) => q != p,
        None => false,
    }
}

/// The first prefix among the first `k` names.
pub open spec fn first_prefix_upto(names: Seq<Seq<char>>, k: int) -> Option<Seq<char>>
    decreases k,
{
    if k <= 0 {
        None
    } else if first_prefix_upto(names, k - 1) is Some {
        first_prefix_upto(names, k - 1)
    } else {
        entry_prefix(names[k - 1])
    }
}

fn entry_prefix_exec(name: &String) -> (r: Option<String>)
    ensures
        match entry_prefix(name@) {
            Some(p) => r matches Some(v) && v@ == p,
            None => r is None,
        },
{
    let n = name.as_str();
    proof {
        reveal_strlit("matrix.mtx");
        reveal_strlit("features.tsv");
        reveal_strlit("genes.tsv");
        reveal_strlit("barcodes.tsv");
    }
    match prefix_from_name(n, "matrix.mtx") {
        Some(p) => return Some(p),
        None => {},
    }
    match prefix_from_name(n, "features.tsv") {
        Some(p) => return Some(p),
        None => {},
    }
    match prefix_from_name(n, "genes.tsv") {
        Some(p) => return Some(p),
        None => {},
    }
    prefix_from_name(n, "barcodes.tsv")
}

/// The dataset prefix shared by the entries of a directory: none when no
/// entry carries one, the prefix when all that carry one agree, and an
/// error when two differ.
pub fn detect_prefix_in(names: &Vec<String>) -> (r: Result<Option<String>, InputError>)
    ensures
        ({
            let ns = names@.map_values(|s: String| s@);
            match first_prefix_upto(ns, ns.len() as int) {
                None => r == Ok::<Option<String>, InputError>(None),
                Some(p) => if other_prefix_upto(ns, p, ns.len() as int) {
                    r == Err::<Option<String>, InputError>(
                        InputError::InvalidTsvRow { line: 0, reason: RowIssue::MultiplePrefixes },
                    )
                } else {
                    r matches Ok(Some(v)) && v@ == p
                },
            }
        }),
{
    let ghost ns = names@.map_values(|s: String| s@);
    let mut first: Option<String> = None;
    let mut i: usize = 0;
    while i < names.len()
        invariant
            ns == names@.map_values(|s: String| s@),
            i <= names@.len(),
            match first_prefix_upto(ns, i as int) {
                None => first is None,
                Some(p) => first matches Some(v) && v@ == p && !other_prefix_upto(ns, p, i as int),
            },
        decreases names@.len() - i,
    {
        let ep = entry_prefix_exec(&names[i]);
        match ep {
            Some(q) => {
                match &first {
                    Some(f) => {
                        if *f != q {
                            proof {
                                let p = first_prefix_upto(ns, i as int)->Some_0;
                                assert(first_prefix_upto(ns, names@.len() as int) == Some(p)) by {
                                    lemma_first_prefix_stable(ns, i as int, names@.len() as int);
                                }
                                assert(differs(entry_prefix(ns[i as int]), p));
                            }
                            return Err(InputError::InvalidTsvRow { line: 0, reason: RowIssue::MultiplePrefixes });
                        }
                    },
                    None => {
                        first = Some(q);
                    },
                }
            },
            None => {},
        }
        proof {
            match first_prefix_upto(ns, i + 1) {
                Some(p) => {
                    assert forall|j: int| 0 <= j < i + 1 implies !differs(#[trigger] entry_prefix(ns[j]), p) by {
                        if j < i as int && first_prefix_upto(ns, i as int) is None {
                            lemma_no_prefix_before(ns, i as int, j);
                        }
                    }
                },
                None => {},
            }
        }
        i = i + 1;
    }
    Ok(first)
}

proof fn lemma_first_prefix_stable(ns: Seq<Seq<char>>, i: int, k: int)
    requires
        0 <= i <= k,
        first_prefix_upto(ns, i) is Some,
    ensures
        first_prefix_upto(ns, k) == first_prefix_upto(ns, i),
    decreases k - i,
{
    if k > i {
        lemma_first_prefix_stable(ns, i, k - 1);
    }
}

proof fn lemma_no_prefix_before(ns: Seq<Seq<char>>, i: int, j: int)
    requires
        0 <= j < i,
        first_prefix_upto(ns, i) is None,
    ensures
        entry_prefix(ns[j]) is None,
    decreases i,
{
    if j < i - 1 {
        lemma_no_prefix_before(ns, i - 1, j);
    }
}

} // verus!
