use phenoboard::concept_dictionary::{canonicalize, expand};
use phenoboard::hpo::{HpoMatch, MiningConcept, MiningStatus};

fn term(id: &str) -> HpoMatch {
    HpoMatch { id: id.to_string(), label: format!("label of {}", id) }
}

fn concept(text: &str, rows: Vec<usize>, terms: Vec<HpoMatch>, status: MiningStatus) -> MiningConcept {
    MiningConcept {
        original_text: text.to_string(),
        row_index_list: rows,
        suggested_terms: terms,
        mining_status: status,
    }
}

#[test]
fn canonical_entry_merges_rows_of_shared_text() {
    let raw = vec![
        concept("fever", vec![1, 3], vec![term("HP:0001945")], MiningStatus::Pending),
        concept("cough", vec![2], vec![], MiningStatus::Pending),
        concept("fever", vec![3, 5], vec![term("HP:9999999")], MiningStatus::Skipped),
    ];
    let dict = canonicalize(&raw);
    let fevers: Vec<&MiningConcept> = dict.iter().filter(|c| c.original_text == "fever").collect();
    assert_eq!(fevers.len(), 1);
    assert_eq!(fevers[0].row_index_list, vec![1, 3, 5]);
    assert_eq!(fevers[0].suggested_terms.len(), 1);
    assert_eq!(fevers[0].suggested_terms[0].id, "HP:0001945");
    assert_eq!(fevers[0].mining_status, MiningStatus::Pending);
}

#[test]
fn canonical_dictionary_is_sorted_by_text() {
    let raw = vec![
        concept("fever", vec![0], vec![], MiningStatus::Pending),
        concept("Ataxia", vec![1], vec![], MiningStatus::Pending),
        concept("cough", vec![2], vec![], MiningStatus::Pending),
        concept("ataxia", vec![4, 3, 4], vec![], MiningStatus::Pending),
    ];
    let dict = canonicalize(&raw);
    let texts: Vec<&str> = dict.iter().map(|c| c.original_text.as_str()).collect();
    assert_eq!(texts, vec!["Ataxia", "ataxia", "cough", "fever"]);
    assert_eq!(dict[1].row_index_list, vec![3, 4]);
}

#[test]
fn canonical_dictionary_of_nothing_is_empty() {
    assert!(canonicalize(&Vec::new()).is_empty());
}

#[test]
fn expansion_keeps_row_provenance() {
    let raw = vec![concept("fever", vec![7], vec![], MiningStatus::Pending)];
    let dict = vec![concept("fever", vec![1, 7, 9], vec![term("HP:0001945")], MiningStatus::Confirmed)];
    let out = expand(&dict, &raw);
    assert_eq!(out.len(), 1);
    assert_eq!(out[0].original_text, "fever");
    assert_eq!(out[0].row_index_list, vec![7]);
    assert_eq!(out[0].suggested_terms.len(), 1);
    assert_eq!(out[0].suggested_terms[0].id, "HP:0001945");
    assert_eq!(out[0].mining_status, MiningStatus::Confirmed);
}

#[test]
fn expansion_passes_unreviewed_texts_through() {
    let raw = vec![
        concept("cough", vec![2], vec![term("HP:0012735")], MiningStatus::Pending),
        concept("fever", vec![4], vec![], MiningStatus::Pending),
    ];
    let dict = vec![concept("fever", vec![4], vec![term("HP:0001945")], MiningStatus::Skipped)];
    let out = expand(&dict, &raw);
    assert_eq!(out[0].original_text, "cough");
    assert_eq!(out[0].suggested_terms[0].id, "HP:0012735");
    assert_eq!(out[0].mining_status, MiningStatus::Pending);
    assert_eq!(out[1].mining_status, MiningStatus::Skipped);
    assert_eq!(out[1].row_index_list, vec![4]);
}

#[test]
fn review_round_trip_over_rows() {
    let raw = vec![
        concept("fever", vec![0], vec![], MiningStatus::Pending),
        concept("fever", vec![2], vec![], MiningStatus::Pending),
    ];
    let mut dict = canonicalize(&raw);
    assert_eq!(dict.len(), 1);
    assert_eq!(dict[0].row_index_list, vec![0, 2]);
    dict[0].suggested_terms = vec![term("HP:0001945")];
    dict[0].mining_status = MiningStatus::Confirmed;
    let out = expand(&dict, &raw);
    assert_eq!(out[0].row_index_list, vec![0]);
    assert_eq!(out[1].row_index_list, vec![2]);
    assert!(out.iter().all(|c| c.mining_status == MiningStatus::Confirmed));
}
