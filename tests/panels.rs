use kira_secretion::panels::{accumulate_cell, build_reverse_index, map_panel, required_missing};

#[test]
fn reverse_index_lists_panel_and_gene_positions() {
    let mapped = vec![vec![Some(0u32), Some(1), None], vec![Some(1u32), Some(9)]];
    let rev = build_reverse_index(&mapped, 3);
    assert_eq!(rev, vec![vec![(0, 0)], vec![(0, 1), (1, 0)], vec![]]);
}

#[test]
fn repeated_row_hits_once_but_contributes_twice() {
    let mapped = vec![vec![Some(0u32), Some(1)]];
    let rev = build_reverse_index(&mapped, 2);
    let cell = vec![(0u32, 1u32), (1, 2), (1, 3)];
    let out = accumulate_cell(&cell, &rev, 1);
    assert_eq!(out.hits, vec![2]);
    assert_eq!(out.contributions, vec![(0, 0, 1), (0, 1, 2), (0, 1, 3)]);
}

#[test]
fn rows_without_panels_are_ignored() {
    let mapped = vec![vec![Some(2u32)], vec![Some(2u32), Some(0)]];
    let rev = build_reverse_index(&mapped, 3);
    let cell = vec![(0u32, 4u32), (1, 5), (2, 6), (7, 1)];
    let out = accumulate_cell(&cell, &rev, 2);
    assert_eq!(out.hits, vec![1, 2]);
    assert_eq!(out.contributions, vec![(1, 1, 4), (0, 0, 6), (1, 0, 6)]);
}

#[test]
fn required_missing_never_negative() {
    assert_eq!(required_missing(3, 1), 2);
    assert_eq!(required_missing(3, 5), 0);
    assert_eq!(required_missing(0, 2), 0);
}

#[test]
fn panel_mapping_first_occurrence_wins() {
    let symbols: Vec<String> = ["A", "B", "A", "C"].iter().map(|s| s.to_string()).collect();
    let genes: Vec<String> = ["A", "C", "Z"].iter().map(|s| s.to_string()).collect();
    let required: Vec<String> = ["A", "Z", "Y"].iter().map(|s| s.to_string()).collect();
    let (mapping, warning) = map_panel(&"P1".to_string(), &genes, &required, &symbols);
    assert_eq!(mapping.mapped, vec![Some(0), Some(3), None]);
    assert_eq!(mapping.required_total, 3);
    assert_eq!(mapping.required_hits, 1);
    let warning = warning.expect("warning");
    assert_eq!(warning.panel_id, "P1");
    assert_eq!(warning.missing_required, vec!["Z".to_string(), "Y".to_string()]);
    let (_, none) = map_panel(&"P2".to_string(), &genes, &vec!["B".to_string()], &symbols);
    assert!(none.is_none());
}
