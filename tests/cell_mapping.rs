use phenoboard::hpo::{ClinicalStatus, HpoMatch, MappedTerm, MinedCell, MiningConcept, MiningStatus};
use phenoboard::hpo_etl::{create_cell_mappings, get_multi_hpo_strings};

fn term(id: &str, label: &str) -> HpoMatch {
    HpoMatch { id: id.to_string(), label: label.to_string() }
}

fn concept(text: &str, rows: Vec<usize>, terms: Vec<HpoMatch>) -> MiningConcept {
    MiningConcept {
        original_text: text.to_string(),
        row_index_list: rows,
        suggested_terms: terms,
        mining_status: MiningStatus::Confirmed,
    }
}

fn cell(text: &str, rows: Vec<usize>, terms: Vec<MappedTerm>) -> MinedCell {
    MinedCell { cell_text: text.to_string(), row_index_list: rows, mapped_term_list: terms }
}

fn find<'a>(cells: &'a [MinedCell], text: &str) -> &'a MinedCell {
    cells.iter().find(|c| c.cell_text == text).expect("cell for text")
}

#[test]
fn cells_group_identical_texts() {
    let values = vec!["a".to_string(), "b".to_string(), "a".to_string()];
    let concepts = vec![
        concept("a", vec![0, 2], vec![term("HP:0001945", "Fever")]),
        concept("b", vec![1], vec![term("HP:0012735", "Cough")]),
    ];
    let cells = create_cell_mappings(values, concepts).unwrap();
    assert_eq!(cells.len(), 2);
    let a = find(&cells, "a");
    assert_eq!(a.row_index_list, vec![0, 2]);
    assert_eq!(a.mapped_term_list.len(), 1);
    assert_eq!(a.mapped_term_list[0].hpo_id, "HP:0001945");
    assert_eq!(a.mapped_term_list[0].hpo_label, "Fever");
    assert_eq!(a.mapped_term_list[0].status, ClinicalStatus::Observed);
    assert_eq!(a.mapped_term_list[0].onset, "na");
    let b = find(&cells, "b");
    assert_eq!(b.row_index_list, vec![1]);
    assert_eq!(b.mapped_term_list[0].hpo_id, "HP:0012735");
}

#[test]
fn cells_take_terms_of_every_intersecting_concept() {
    let values = vec!["x".to_string(), "y".to_string()];
    let concepts = vec![
        concept("x", vec![0], vec![term("HP:1", "One")]),
        concept("xy", vec![0, 1], vec![term("HP:1", "One"), term("HP:2", "Two")]),
        concept("z", vec![7], vec![term("HP:3", "Three")]),
    ];
    let cells = create_cell_mappings(values, concepts).unwrap();
    let x = find(&cells, "x");
    let ids: Vec<&str> = x.mapped_term_list.iter().map(|t| t.hpo_id.as_str()).collect();
    assert_eq!(ids, vec!["HP:1", "HP:1", "HP:2"]);
    let y = find(&cells, "y");
    let ids: Vec<&str> = y.mapped_term_list.iter().map(|t| t.hpo_id.as_str()).collect();
    assert_eq!(ids, vec!["HP:1", "HP:2"]);
}

#[test]
fn cells_of_empty_input_are_empty() {
    let cells = create_cell_mappings(Vec::new(), Vec::new()).unwrap();
    assert!(cells.is_empty());
}

#[test]
fn reconciliation_gives_one_string_per_row() {
    let cells = vec![
        cell("a", vec![0, 2], vec![MappedTerm::new("HP:0001945", "Fever")]),
        cell("b", vec![1], vec![MappedTerm::new("HP:0012735", "Cough")]),
    ];
    let rows = get_multi_hpo_strings(cells).unwrap();
    assert_eq!(rows.len(), 3);
    assert_eq!(rows[0], rows[2]);
    assert_eq!(rows[0], "HP:0001945-observed-na");
    assert_eq!(rows[1], "HP:0012735-observed-na");
}

#[test]
fn reconciliation_joins_terms_with_semicolons() {
    let mut excluded = MappedTerm::new("HP:2", "Two");
    excluded.status = ClinicalStatus::Excluded;
    excluded.onset = "P3Y".to_string();
    let mut unknown = MappedTerm::new("HP:3", "Three");
    unknown.status = ClinicalStatus::NotAssessed;
    let cells = vec![
        cell("a", vec![0], vec![MappedTerm::new("HP:1", "One"), excluded, unknown]),
        cell("b", vec![1], vec![]),
    ];
    let rows = get_multi_hpo_strings(cells).unwrap();
    assert_eq!(rows, vec!["HP:1-observed-na;HP:2-excluded-P3Y;HP:3-na-na".to_string(), String::new()]);
}

#[test]
fn reconciliation_rejects_double_assignment() {
    let cells = vec![
        cell("a", vec![0], vec![MappedTerm::new("HP:1", "One")]),
        cell("b", vec![0, 1], vec![MappedTerm::new("HP:2", "Two")]),
    ];
    let err = get_multi_hpo_strings(cells).unwrap_err();
    assert_eq!(err, "double index for multi-HPO mappings: 0");
}

#[test]
fn reconciliation_rejects_gap() {
    let cells = vec![cell("a", vec![0, 2], vec![MappedTerm::new("HP:1", "One")])];
    let err = get_multi_hpo_strings(cells).unwrap_err();
    assert_eq!(err, "missing index in sequence: 1");
}

#[test]
fn reconciliation_reports_double_before_gap() {
    let cells = vec![
        cell("a", vec![3, 12], vec![]),
        cell("b", vec![12], vec![]),
    ];
    let err = get_multi_hpo_strings(cells).unwrap_err();
    assert_eq!(err, "double index for multi-HPO mappings: 12");
}

#[test]
fn reconciliation_of_no_cells_misses_row_zero() {
    let err = get_multi_hpo_strings(Vec::new()).unwrap_err();
    assert_eq!(err, "missing index in sequence: 0");
}

#[test]
fn pipeline_from_values_to_row_strings() {
    let values = vec!["fever".to_string(), "cough".to_string(), "fever".to_string()];
    let concepts = vec![
        concept("fever", vec![0, 2], vec![term("HP:0001945", "Fever")]),
        concept("cough", vec![1], vec![term("HP:0012735", "Cough")]),
    ];
    let cells = create_cell_mappings(values, concepts).unwrap();
    let rows = get_multi_hpo_strings(cells).unwrap();
    assert_eq!(
        rows,
        vec![
            "HP:0001945-observed-na".to_string(),
            "HP:0012735-observed-na".to_string(),
            "HP:0001945-observed-na".to_string(),
        ]
    );
}
