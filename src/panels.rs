//! Panel accumulation: the reverse index from matrix rows to the panels
//! they feed, and the per-cell scatter that counts each panel's distinct
//! hit rows and lists every weighted contribution.

use vstd::prelude::*;

verus! {

/// One gene symbol of a panel definition.
#[derive(Debug, Clone)]
pub struct PanelGene {
    pub symbol: String,
}

/// A panel's genes resolved against the matrix rows: `mapped[g]` is the
/// 0-based row of gene `g`, if the symbol is known.
#[derive(Debug, Clone)]
pub struct GeneMapping {
    pub panel_id: String,
    pub mapped: Vec<Option<u32>>,
    pub required_hits: usize,
    pub required_total: usize,
}

/// Required genes of a panel that the dataset lacks.
#[derive(Debug, Clone)]
pub struct MappingWarning {
    pub panel_id: String,
    pub missing_required: Vec<String>,
}

/// The first position at or after `i` where `symbols` holds `sym`.
pub open spec fn first_index_from(symbols: Seq<Seq<char>>, sym: Seq<char>, i: int) -> Option<int>
    decreases symbols.len() - i,
{
    if i >= symbols.len() || i < 0 {
        None
    } else if symbols[i] == sym {
        Some(i)
    } else {
        first_index_from(symbols, sym, i + 1)
    }
}

/// The row of the first occurrence of `sym` among the gene symbols: the
/// first occurrence of a duplicated symbol wins.
pub open spec fn first_index(symbols: Seq<Seq<char>>, sym: Seq<char>) -> Option<int> {
    first_index_from(symbols, sym, 0)
}

/// The required symbols, in order, that no gene of the dataset carries.
pub open spec fn missing_required(symbols: Seq<Seq<char>>, required: Seq<Seq<char>>) -> Seq<Seq<char>> {
    required.filter(|r: Seq<char>| first_index(symbols, r) is None)
}

/// Looks up the row of the first gene carrying `sym`.
pub fn first_row_of(symbols: &Vec<String>, sym: &String) -> (r: Option<usize>)
    ensures
        match r {
            Some(k) => first_index(symbols@.map_values(|x: String| x@), sym@) == Some(k as int),
            None => first_index(symbols@.map_values(|x: String| x@), sym@) is None,
        },
{
    let ghost ss = symbols@.map_values(|x: String| x@);
    let mut i: usize = 0;
    while i < symbols.len()
        invariant
            ss == symbols@.map_values(|x: String| x@),
            i <= symbols@.len(),
            first_index(ss, sym@) == first_index_from(ss, sym@, i as int),
        decreases symbols@.len() - i,
    {
        if symbols[i] == *sym {
            return Some(i);
        }
        i = i + 1;
    }
    None
}

/// Resolves a panel's genes and required genes against the gene symbols
/// of the dataset (the symbol of row `i` is `symbols[i]`). Each gene maps
/// to the row of the first gene carrying its symbol; required symbols that
/// no gene carries are collected, in order, into a warning.
pub fn map_panel(panel_id: &String, genes: &Vec<String>, required: &Vec<String>, symbols: &Vec<String>) -> (r: (
    GeneMapping,
    Option<MappingWarning>,
))
    ensures
        ({
            let ss = symbols@.map_values(|x: String| x@);
            let req = required@.map_values(|x: String| x@);
            &&& r.0.panel_id@ == panel_id@
            &&& r.0.mapped@.len() == genes@.len()
            &&& forall|g: int|
                0 <= g < genes@.len() ==> #[trigger] r.0.mapped@[g] == match first_index(ss, genes@[g]@) {
                    Some(i) => Some(#[verifier::truncate] (i as u32)),
                    None => None,
                }
            &&& r.0.required_total == required@.len()
            &&& r.0.required_hits == required@.len() - missing_required(ss, req).len()
            &&& (missing_required(ss, req).len() == 0 <==> r.1 is None)
            &&& (r.1 matches Some(w) ==> w.panel_id@ == panel_id@ && w.missing_required@.map_values(
                |x: String| x@,
            ) == missing_required(ss, req))
        }),
{
    let ghost ss = symbols@.map_values(|x: String| x@);
    let ghost req = required@.map_values(|x: String| x@);
    let mut mapped: Vec<Option<u32>> = Vec::with_capacity(genes.len());
    let mut g: usize = 0;
    while g < genes.len()
        invariant
            ss == symbols@.map_values(|x: String| x@),
            g <= genes@.len(),
            mapped@.len() == g,
            forall|k: int|
                0 <= k < g ==> #[trigger] mapped@[k] == match first_index(ss, genes@[k]@) {
                    Some(i) => Some(#[verifier::truncate] (i as u32)),
                    None => None,
                },
        decreases genes@.len() - g,
    {
        let row = first_row_of(symbols, &genes[g]);
        let ghost fi = first_index(ss, genes@[g as int]@);
        match row {
            Some(i) => {
                let v: u32 = #[verifier::truncate] (i as u32);
                assert(fi == Some(i as int));
                assert(v == #[verifier::truncate] (fi->Some_0 as u32));
                mapped.push(Some(v));
            },
            None => mapped.push(None),
        }
        assert(mapped@[g as int] == match fi {
            Some(i) => Some(#[verifier::truncate] (i as u32)),
            None => None,
        });
        g = g + 1;
    }
    let mut missing: Vec<String> = Vec::new();
    let mut k: usize = 0;
    while k < required.len()
        invariant
            ss == symbols@.map_values(|x: String| x@),
            req == required@.map_values(|x: String| x@),
            k <= required@.len(),
            missing@.map_values(|x: String| x@) == missing_required(ss, req.take(k as int)),
            missing@.len() <= k,
        decreases required@.len() - k,
    {
        let found = first_row_of(symbols, &required[k]);
        proof {
            assert(req.take(k + 1).drop_last() =~= req.take(k as int));
            reveal(Seq::filter);
        }
        if found.is_none() {
            missing.push(required[k].clone());
        }
        proof {
            assert(missing@.map_values(|x: String| x@) =~= missing_required(ss, req.take(k + 1)));
        }
        k = k + 1;
    }
    assert(req.take(required@.len() as int) =~= req);
    let required_total = required.len();
    let required_hits = required_total - missing.len();
    let warning = if missing.len() == 0 {
        None
    } else {
        Some(MappingWarning { panel_id: panel_id.clone(), missing_required: missing })
    };
    (GeneMapping { panel_id: panel_id.clone(), mapped, required_hits, required_total }, warning)
}

/// Where row `r` appears in the genes of panel `p` below gene `g`: the pairs
/// `(p, gene position)`, in gene order.
pub open spec fn panel_feeds(genes: Seq<Option<u32>>, r: int, p: int, g: int) -> Seq<(usize, usize)>
    decreases g,
{
    if g <= 0 {
        Seq::empty()
    } else if genes[g - 1] matches Some(x) && x as int == r {
        panel_feeds(genes, r, p, g - 1).push((p as usize, (g - 1) as usize))
    } else {
        panel_feeds(genes, r, p, g - 1)
    }
}

/// Every `(panel, gene position)` pair that row `r` feeds among the first
/// `p` panels, panel by panel, in gene order.
pub open spec fn feeds_upto(mapped: Seq<Seq<Option<u32>>>, r: int, p: int) -> Seq<(usize, usize)>
    decreases p,
{
    if p <= 0 {
        Seq::empty()
    } else {
        feeds_upto(mapped, r, p - 1) + panel_feeds(mapped[p - 1], r, p - 1, mapped[p - 1].len() as int)
    }
}

/// Builds the reverse index: for each matrix row below `n_genes`, the
/// `(panel, gene position)` pairs that it feeds. `mapped[p][g]` is the row
/// of gene `g` of panel `p`, if the gene maps; rows at or past `n_genes`
/// feed nothing.
pub fn build_reverse_index(mapped: &Vec<Vec<Option<u32>>>, n_genes: usize) -> (r: Vec<Vec<(usize, usize)>>)
    ensures
        r@.len() == n_genes,
        forall|row: int|
            0 <= row < n_genes ==> (#[trigger] r@[row])@ == feeds_upto(
                mapped@.map_values(|v: Vec<Option<u32>>| v@),
                row,
                mapped@.len() as int,
            ),
{
    let ghost m = mapped@.map_values(|v: Vec<Option<u32>>| v@);
    let mut rev: Vec<Vec<(usize, usize)>> = Vec::with_capacity(n_genes);
    let mut i: usize = 0;
    while i < n_genes
        invariant
            i <= n_genes,
            rev@.len() == i,
            forall|k: int| 0 <= k < i ==> (#[trigger] rev@[k])@ == Seq::<(usize, usize)>::empty(),
        decreases n_genes - i,
    {
        rev.push(Vec::new());
        i = i + 1;
    }
    let mut p: usize = 0;
    while p < mapped.len()
        invariant
            m == mapped@.map_values(|v: Vec<Option<u32>>| v@),
            p <= mapped@.len(),
            rev@.len() == n_genes,
            forall|row: int| 0 <= row < n_genes ==> (#[trigger] rev@[row])@ == feeds_upto(m, row, p as int),
        decreases mapped@.len() - p,
    {
        let genes = &mapped[p];
        let mut g: usize = 0;
        while g < genes.len()
            invariant
                m == mapped@.map_values(|v: Vec<Option<u32>>| v@),
                p < mapped@.len(),
                genes@ == m[p as int],
                g <= genes@.len(),
                rev@.len() == n_genes,
                forall|row: int|
                    0 <= row < n_genes ==> (#[trigger] rev@[row])@ == feeds_upto(m, row, p as int)
                        + panel_feeds(m[p as int], row, p as int, g as int),
            decreases genes@.len() - g,
        {
            match genes[g] {
                Some(row) => {
                    if (row as usize) < n_genes {
                        let ghost before = rev@;
                        let mut slot = Vec::new();
                        std::mem::swap(&mut slot, &mut rev[row as usize]);
                        slot.push((p, g));
                        std::mem::swap(&mut slot, &mut rev[row as usize]);
                        proof {
                            assert forall|r2: int| 0 <= r2 < n_genes implies (#[trigger] rev@[r2])@ == feeds_upto(m, r2, p as int)
                                + panel_feeds(m[p as int], r2, p as int, g + 1) by {
                                if r2 == row as int {
                                    assert(before[r2]@.push((p, g)) =~= feeds_upto(m, r2, p as int)
                                        + panel_feeds(m[p as int], r2, p as int, g + 1));
                                } else {
                                    assert(r2 != row as int);
                                }
                            }
                        }
                    } else {
                        proof {
                            assert forall|r2: int| 0 <= r2 < n_genes implies (#[trigger] rev@[r2])@ == feeds_upto(m, r2, p as int)
                                + panel_feeds(m[p as int], r2, p as int, g + 1) by {
                                assert(r2 != row as int);
                            }
                        }
                    }
                },
                None => {},
            }
            g = g + 1;
        }
        proof {
            assert forall|row: int| 0 <= row < n_genes implies (#[trigger] rev@[row])@ == feeds_upto(m, row, p + 1) by {
                assert(feeds_upto(m, row, p + 1) == feeds_upto(m, row, p as int) + panel_feeds(m[p as int], row, p as int, m[p as int].len() as int));
            }
        }
        p = p + 1;
    }
    rev
}


/// Row `row` feeds panel `p` through the reverse index.
pub open spec fn maps_to(rev: Seq<Seq<(usize, usize)>>, row: u32, p: int) -> bool {
    row < rev.len() && exists|i: int| 0 <= i < rev[row as int].len() && (#[trigger] rev[row as int][i]).0 == p
}

/// The last row among the first `k` entries of `cell` that fed panel `p`,
/// or `u32::MAX` if none did.
pub open spec fn last_hit(cell: Seq<(u32, u32)>, rev: Seq<Seq<(usize, usize)>>, p: int, k: int) -> u32
    decreases k,
{
    if k <= 0 {
        u32::MAX
    } else if maps_to(rev, cell[k - 1].0, p) {
        cell[k - 1].0
    } else {
        last_hit(cell, rev, p, k - 1)
    }
}

/// Hits of panel `p` over the first `k` entries of `cell`: an entry counts
/// when its row feeds `p` and differs from the last row that fed `p`.
pub open spec fn hits_upto(cell: Seq<(u32, u32)>, rev: Seq<Seq<(usize, usize)>>, p: int, k: int) -> nat
    decreases k,
{
    if k <= 0 {
        0
    } else {
        hits_upto(cell, rev, p, k - 1) + if maps_to(rev, cell[k - 1].0, p) && last_hit(cell, rev, p, k - 1)
            != cell[k - 1].0 {
            1nat
        } else {
            0nat
        }
    }
}

/// The contributions of the first `k` entries of `cell`: for each entry,
/// one `(panel, gene position, count)` per pair its row feeds, in order.
pub open spec fn contribs_upto(cell: Seq<(u32, u32)>, rev: Seq<Seq<(usize, usize)>>, k: int) -> Seq<(usize, usize, u32)>
    decreases k,
{
    if k <= 0 {
        Seq::empty()
    } else if cell[k - 1].0 < rev.len() {
        contribs_upto(cell, rev, k - 1) + rev[cell[k - 1].0 as int].map_values(
            |e: (usize, usize)| (e.0, e.1, cell[k - 1].1),
        )
    } else {
        contribs_upto(cell, rev, k - 1)
    }
}

/// Progress of the scatter of one entry over its row's pairs, for panel
/// `p`: once some of the first `i` pairs named `p`, its mark is the row and
/// its counter rose if the mark was elsewhere; otherwise both are as before.
pub open spec fn panel_step_ok(
    entries: Seq<(usize, usize)>,
    i: int,
    p: int,
    row: u32,
    h0: Seq<u32>,
    l0: Seq<u32>,
    hits: Seq<u32>,
    last: Seq<u32>,
) -> bool {
    if exists|j: int| 0 <= j < i && (#[trigger] entries[j]).0 == p {
        &&& last[p] == row
        &&& hits[p] == h0[p] + if l0[p] != row { 1int } else { 0int }
    } else {
        &&& last[p] == l0[p]
        &&& hits[p] == h0[p]
    }
}

/// Counter and mark of panel `p` after the first `k + 1` entries.
pub open spec fn step_done(cell: Seq<(u32, u32)>, rv: Seq<Seq<(usize, usize)>>, p: int, k: int, hits: Seq<u32>, last: Seq<u32>) -> bool {
    &&& hits[p] == hits_upto(cell, rv, p, k + 1)
    &&& last[p] == last_hit(cell, rv, p, k + 1)
    &&& hits_upto(cell, rv, p, k + 1) <= k + 1
}

/// What one cell yields for the panels: per-panel hit counts, and the
/// weighted contributions still to be summed.
pub struct CellPanelHits {
    pub hits: Vec<u32>,
    pub contributions: Vec<(usize, usize, u32)>,
}

pub open spec fn rev_view(rev: Seq<Vec<(usize, usize)>>) -> Seq<Seq<(usize, usize)>> {
    rev.map_values(|v: Vec<(usize, usize)>| v@)
}

/// Scatters one cell's `(row, count)` pairs over the panels. Each panel's
/// hit counter rises at most once per distinct row, through a per-panel
/// "last row seen" mark; every occurrence still contributes.
pub fn accumulate_cell(cell: &Vec<(u32, u32)>, rev: &Vec<Vec<(usize, usize)>>, n_panels: usize) -> (r: CellPanelHits)
    requires
        forall|row: int, i: int|
            0 <= row < rev@.len() && 0 <= i < rev@[row]@.len() ==> (#[trigger] rev@[row]@[i]).0 < n_panels,
        cell@.len() <= u32::MAX,
    ensures
        r.hits@.len() == n_panels,
        forall|p: int| 0 <= p < n_panels ==> #[trigger] r.hits@[p] == hits_upto(cell@, rev_view(rev@), p, cell@.len() as int),
        r.contributions@ == contribs_upto(cell@, rev_view(rev@), cell@.len() as int),
{
    let ghost rv = rev_view(rev@);
    let mut hits: Vec<u32> = vec![0u32; n_panels];
    let mut last: Vec<u32> = vec![u32::MAX; n_panels];
    let mut contributions: Vec<(usize, usize, u32)> = Vec::new();
    let mut k: usize = 0;
    while k < cell.len()
        invariant
            rv == rev_view(rev@),
            forall|row: int, i: int|
                0 <= row < rev@.len() && 0 <= i < rev@[row]@.len() ==> (#[trigger] rev@[row]@[i]).0 < n_panels,
            cell@.len() <= u32::MAX,
            k <= cell@.len(),
            hits@.len() == n_panels,
            last@.len() == n_panels,
            forall|p: int| 0 <= p < n_panels ==> #[trigger] hits@[p] == hits_upto(cell@, rv, p, k as int),
            forall|p: int| 0 <= p < n_panels ==> #[trigger] last@[p] == last_hit(cell@, rv, p, k as int),
            forall|p: int| 0 <= p < n_panels ==> #[trigger] hits_upto(cell@, rv, p, k as int) <= k,
            contributions@ == contribs_upto(cell@, rv, k as int),
        decreases cell@.len() - k,
    {
        let (row, count) = cell[k];
        if (row as usize) < rev.len() {
            let entries = &rev[row as usize];
            let ghost c0 = contributions@;
            let ghost h0 = hits@;
            let ghost l0 = last@;
            let mut i: usize = 0;
            while i < entries.len()
                invariant
                    rv == rev_view(rev@),
                    (row as int) < rev@.len(),
                    entries@ == rv[row as int],
                    forall|j: int| 0 <= j < entries@.len() ==> (#[trigger] entries@[j]).0 < n_panels,
                    i <= entries@.len(),
                    hits@.len() == n_panels,
                    last@.len() == n_panels,
                    h0.len() == n_panels,
                    l0.len() == n_panels,
                    k < cell@.len(),
                    cell@.len() <= u32::MAX,
                    cell@[k as int] == (row, count),
                    forall|p: int| 0 <= p < n_panels ==> #[trigger] h0[p] == hits_upto(cell@, rv, p, k as int),
                    forall|p: int| 0 <= p < n_panels ==> #[trigger] l0[p] == last_hit(cell@, rv, p, k as int),
                    forall|p: int| 0 <= p < n_panels ==> #[trigger] hits_upto(cell@, rv, p, k as int) <= k,
                    forall|p: int| 0 <= p < n_panels ==> #[trigger] panel_step_ok(entries@, i as int, p, row, h0, l0, hits@, last@),
                    contributions@ == c0 + entries@.take(i as int).map_values(|e: (usize, usize)| (e.0, e.1, count)),
                decreases entries@.len() - i,
            {
                let (pp, g) = entries[i];
                proof {
                    assert(entries@.take(i + 1).map_values(|e: (usize, usize)| (e.0, e.1, count)) =~= entries@.take(i as int).map_values(|e: (usize, usize)| (e.0, e.1, count)).push((pp, g, count)));
                }
                contributions.push((pp, g, count));
                let ghost hb = hits@;
                let ghost lb = last@;
                proof {
                    assert(panel_step_ok(entries@, i as int, pp as int, row, h0, l0, hb, lb));
                    assert(h0[pp as int] == hits_upto(cell@, rv, pp as int, k as int));
                }
                if last[pp] != row {
                    let h = hits[pp];
                    hits.set(pp, h + 1);
                    last.set(pp, row);
                }
                proof {
                    assert forall|p: int| 0 <= p < n_panels implies #[trigger] panel_step_ok(entries@, i + 1, p, row, h0, l0, hits@, last@) by {
                        assert(panel_step_ok(entries@, i as int, p, row, h0, l0, hb, lb));
                        if p == pp as int {
                            assert(entries@[i as int].0 == p);
                        } else {
                            if exists|j: int| 0 <= j < i + 1 && (#[trigger] entries@[j]).0 == p {
                                let j = choose|j: int| 0 <= j < i + 1 && (#[trigger] entries@[j]).0 == p;
                                assert(j < i);
                            }
                        }
                    }
                }
                i = i + 1;
            }
            proof {
                assert(entries@.take(entries@.len() as int) =~= entries@);
                assert forall|p: int| 0 <= p < n_panels implies step_done(cell@, rv, p, k as int, hits@, last@) by {
                    assert(panel_step_ok(entries@, entries@.len() as int, p, row, h0, l0, hits@, last@));
                    assert(h0[p] == hits_upto(cell@, rv, p, k as int));
                    assert(l0[p] == last_hit(cell@, rv, p, k as int));
                    assert(hits_upto(cell@, rv, p, k as int) <= k);
                    assert(cell@[k as int].0 == row);
                    if maps_to(rv, row, p) {
                        let j = choose|j: int| 0 <= j < rv[row as int].len() && (#[trigger] rv[row as int][j]).0 == p;
                        assert(entries@[j].0 == p);
                        assert(last_hit(cell@, rv, p, k + 1) == row);
                    } else {
                        if exists|j: int| 0 <= j < entries@.len() && (#[trigger] entries@[j]).0 == p {
                            let j = choose|j: int| 0 <= j < entries@.len() && (#[trigger] entries@[j]).0 == p;
                            assert(rv[row as int][j].0 == p);
                        }
                        assert(last_hit(cell@, rv, p, k + 1) == last_hit(cell@, rv, p, k as int));
                        assert(hits_upto(cell@, rv, p, k + 1) == hits_upto(cell@, rv, p, k as int));
                    }
                }
            }
        } else {
            proof {
                assert forall|p: int| 0 <= p < n_panels implies step_done(cell@, rv, p, k as int, hits@, last@) by {
                    assert(!maps_to(rv, row, p));
                    assert(cell@[k as int].0 == row);
                    assert(hits@[p] == hits_upto(cell@, rv, p, k as int));
                    assert(last@[p] == last_hit(cell@, rv, p, k as int));
                    assert(hits_upto(cell@, rv, p, k as int) <= k);
                }
            }
        }
        proof {
            assert forall|p: int| 0 <= p < n_panels implies #[trigger] hits@[p] == hits_upto(cell@, rv, p, k + 1) by {
                assert(step_done(cell@, rv, p, k as int, hits@, last@));
            }
            assert forall|p: int| 0 <= p < n_panels implies #[trigger] last@[p] == last_hit(cell@, rv, p, k + 1) by {
                assert(step_done(cell@, rv, p, k as int, hits@, last@));
            }
            assert forall|p: int| 0 <= p < n_panels implies #[trigger] hits_upto(cell@, rv, p, k + 1) <= k + 1 by {
                assert(step_done(cell@, rv, p, k as int, hits@, last@));
            }
        }
        k = k + 1;
    }
    CellPanelHits { hits, contributions }
}

/// Required genes of a panel that a cell leaves uncovered:
/// `required_total - min(hits, required_total)`, never negative.
pub fn required_missing(required_total: u32, hits: u32) -> (r: u32)
    ensures
        r == required_total - if hits < required_total { hits } else { required_total },
{
    let covered = if hits < required_total { hits } else { required_total };
    required_total - covered
}

/// A row that a cell holds twice in a row adds at most one hit to any
/// panel: the second occurrence never counts, whatever the panel.
pub proof fn lemma_repeated_row_counts_once(cell: Seq<(u32, u32)>, rev: Seq<Seq<(usize, usize)>>, p: int, k: int)
    requires
        0 <= k,
        k + 1 < cell.len(),
        cell[k].0 == cell[k + 1].0,
    ensures
        hits_upto(cell, rev, p, k + 2) == hits_upto(cell, rev, p, k + 1),
        hits_upto(cell, rev, p, k + 2) <= hits_upto(cell, rev, p, k) + 1,
{
    assert(hits_upto(cell, rev, p, k + 1) <= hits_upto(cell, rev, p, k) + 1);
}

/// Both occurrences of a repeated row still contribute: the contributions
/// of the second one are those of its row, with its own count.
pub proof fn lemma_repeated_row_contributes(cell: Seq<(u32, u32)>, rev: Seq<Seq<(usize, usize)>>, k: int)
    requires
        0 <= k,
        k + 1 < cell.len(),
        cell[k].0 == cell[k + 1].0,
        cell[k].0 < rev.len(),
    ensures
        contribs_upto(cell, rev, k + 2) == contribs_upto(cell, rev, k + 1) + rev[cell[k].0 as int].map_values(
            |e: (usize, usize)| (e.0, e.1, cell[k + 1].1),
        ),
{
}


/// The rows among the first `k` entries of `cell` that feed panel `p`.
pub open spec fn mapped_rows_upto(cell: Seq<(u32, u32)>, rev: Seq<Seq<(usize, usize)>>, p: int, k: int) -> Set<u32> {
    Set::new(|r: u32| exists|j: int| 0 <= j < k && #[trigger] cell[j].0 == r && maps_to(rev, r, p))
}

/// The rows of `cell` never decrease, as within a column of either backend.
pub open spec fn rows_non_decreasing(cell: Seq<(u32, u32)>) -> bool {
    forall|a: int, b: int| 0 <= a < b < cell.len() ==> #[trigger] cell[a].0 <= #[trigger] cell[b].0
}

proof fn lemma_hits_distinct_upto(cell: Seq<(u32, u32)>, rev: Seq<Seq<(usize, usize)>>, p: int, k: int)
    requires
        0 <= k <= cell.len(),
        rows_non_decreasing(cell),
        rev.len() <= u32::MAX,
    ensures
        mapped_rows_upto(cell, rev, p, k).finite(),
        hits_upto(cell, rev, p, k) == mapped_rows_upto(cell, rev, p, k).len(),
        mapped_rows_upto(cell, rev, p, k).len() == 0 ==> last_hit(cell, rev, p, k) == u32::MAX,
        mapped_rows_upto(cell, rev, p, k).len() > 0 ==> exists|j: int|
            0 <= j < k && #[trigger] cell[j].0 == last_hit(cell, rev, p, k),
        forall|r: u32| mapped_rows_upto(cell, rev, p, k).contains(r) ==> r <= last_hit(cell, rev, p, k),
    decreases k,
{
    let s1 = mapped_rows_upto(cell, rev, p, k);
    if k == 0 {
        assert(s1 =~= Set::<u32>::empty());
    } else {
        lemma_hits_distinct_upto(cell, rev, p, k - 1);
        let s0 = mapped_rows_upto(cell, rev, p, k - 1);
        let row = cell[k - 1].0;
        let lh = last_hit(cell, rev, p, k - 1);
        if maps_to(rev, row, p) {
            assert(s1 =~= s0.insert(row)) by {
                assert forall|r: u32| s1.contains(r) implies s0.insert(row).contains(r) by {
                    let j = choose|j: int| 0 <= j < k && #[trigger] cell[j].0 == r && maps_to(rev, r, p);
                    if j < k - 1 {
                        assert(s0.contains(r));
                    }
                }
                assert forall|r: u32| s0.insert(row).contains(r) implies s1.contains(r) by {
                    if r == row {
                        assert(cell[k - 1].0 == r);
                    } else {
                        let j = choose|j: int| 0 <= j < k - 1 && #[trigger] cell[j].0 == r && maps_to(rev, r, p);
                        assert(cell[j].0 == r);
                    }
                }
            }
            assert(row < u32::MAX);
            if s0.len() == 0 {
                assert(!s0.contains(row));
            } else {
                let j = choose|j: int| 0 <= j < k - 1 && #[trigger] cell[j].0 == lh;
                assert(cell[j].0 <= cell[k - 1].0);
                if s0.contains(row) {
                    assert(row <= lh);
                    assert(row == lh);
                } else {
                    if row == lh {
                        assert(maps_to(rev, cell[j].0, p)) by {
                            lemma_last_hit_maps(cell, rev, p, k - 1);
                        }
                        assert(s0.contains(cell[j].0));
                    }
                }
            }
            assert(cell[k - 1].0 == last_hit(cell, rev, p, k));
            assert forall|r: u32| s1.contains(r) implies r <= last_hit(cell, rev, p, k) by {
                if r != row {
                    assert(s0.contains(r));
                    let j = choose|j: int| 0 <= j < k - 1 && #[trigger] cell[j].0 == lh;
                    assert(cell[j].0 <= cell[k - 1].0);
                }
            }
        } else {
            assert(s1 =~= s0) by {
                assert forall|r: u32| s1.contains(r) implies s0.contains(r) by {
                    let j = choose|j: int| 0 <= j < k && #[trigger] cell[j].0 == r && maps_to(rev, r, p);
                    assert(j < k - 1);
                }
            }
            if s0.len() > 0 {
                let j = choose|j: int| 0 <= j < k - 1 && #[trigger] cell[j].0 == lh;
                assert(cell[j].0 == last_hit(cell, rev, p, k));
            }
        }
    }
}

proof fn lemma_last_hit_maps(cell: Seq<(u32, u32)>, rev: Seq<Seq<(usize, usize)>>, p: int, k: int)
    requires
        0 <= k <= cell.len(),
        rev.len() <= u32::MAX,
        last_hit(cell, rev, p, k) != u32::MAX,
    ensures
        maps_to(rev, last_hit(cell, rev, p, k), p),
    decreases k,
{
    if k > 0 && !maps_to(rev, cell[k - 1].0, p) {
        lemma_last_hit_maps(cell, rev, p, k - 1);
    }
}

/// For a cell whose rows never decrease, a panel's hit count is the number
/// of distinct rows of the cell that feed the panel, however often each
/// occurs. Rows index the reverse index, so they stay below `u32::MAX`,
/// the value that marks "no row yet".
pub proof fn lemma_hits_count_distinct_rows(cell: Seq<(u32, u32)>, rev: Seq<Seq<(usize, usize)>>, p: int)
    requires
        rows_non_decreasing(cell),
        rev.len() <= u32::MAX,
    ensures
        mapped_rows_upto(cell, rev, p, cell.len() as int).finite(),
        hits_upto(cell, rev, p, cell.len() as int) == mapped_rows_upto(cell, rev, p, cell.len() as int).len(),
{
    lemma_hits_distinct_upto(cell, rev, p, cell.len() as int);
}

} // verus!
