use phenoboard::directory_manager::{CohortDirectory, DirEntryInfo, DirectoryManager};
use phenoboard::hpo::{ClinicalStatus, MappedTerm};
use phenoboard::hpo_version_checker::{HpoVersionChecker, LocalFileHpoVersionChecker, OntoliusHpoVersionChecker};
use phenoboard::settings::HpoCuratorSettings;
use phenoboard::status_dto::StatusDto;
use phenoboard::text_annotation_dto::ParentChildDto;

fn entry(name: &str, is_file: bool) -> DirEntryInfo {
    DirEntryInfo { name: name.to_string(), is_file, is_dir: !is_file }
}

#[test]
fn clinical_status_texts() {
    assert_eq!(ClinicalStatus::Observed.to_string(), "observed");
    assert_eq!(ClinicalStatus::Excluded.to_string(), "excluded");
    assert_eq!(ClinicalStatus::NotAssessed.to_string(), "na");
}

#[test]
fn fresh_mapped_term_is_observed() {
    let t = MappedTerm::new("HP:0001945", "Fever");
    assert_eq!(t.hpo_id, "HP:0001945");
    assert_eq!(t.hpo_label, "Fever");
    assert_eq!(t.status, ClinicalStatus::Observed);
    assert_eq!(t.onset, "na");
}

#[test]
fn settings_hold_ontology_path() {
    let mut s = HpoCuratorSettings::empty();
    assert_eq!(s.get_hp_json_path().unwrap_err(), "hp.json file not initialized");
    assert_eq!(s.hp_json_path_or_none(), None);
    assert_eq!(s.set_hp_json_path("/x/hp.json", false).unwrap_err(), "Did not find file at /x/hp.json");
    assert_eq!(s.hp_json_file, None);
    s.set_hp_json_path("/x/hp.json", true).unwrap();
    assert_eq!(s.get_hp_json_path().unwrap(), "/x/hp.json");
    assert_eq!(s.hp_json_path_or_none(), Some("/x/hp.json".to_string()));
}

#[test]
fn version_checkers_compare_versions() {
    let same = OntoliusHpoVersionChecker::new("2024-04-26", "2024-04-26");
    assert!(!same.hp_json_can_be_updated());
    assert_eq!(same.ontolius_hpo_version(), "2024-04-26");
    let local = LocalFileHpoVersionChecker::new("/x/hp.json", "2023-10-09", "2024-04-26");
    assert!(local.hp_json_can_be_updated());
    assert_eq!(local.local_hpo_version(), "2023-10-09");
    assert_eq!(local.current_hpo_version(), "2023-10-09");
    assert_eq!(local.remote_hpo_version(), "2024-04-26");
}

#[test]
fn directories_skip_hidden_entries() {
    let inputs = vec![entry("FBN1.xlsx", true), entry(".DS_Store", true), entry("old", false)];
    let ppkts = vec![entry("P1.json", true), entry("P2.json", true)];
    assert_eq!(CohortDirectory::get_input_files(&inputs), vec!["FBN1.xlsx".to_string()]);
    let cohort = CohortDirectory::new("FBN1".to_string(), "/store/FBN1".to_string(), &inputs, &ppkts);
    assert_eq!(cohort.phenopacket_files, vec!["P1.json".to_string(), "P2.json".to_string()]);
    let base = vec![entry("FBN1", false), entry(".git", false), entry("README.md", true)];
    assert_eq!(DirectoryManager::get_subdirectories(&base), vec!["FBN1".to_string()]);
    let manager = DirectoryManager::new("/store".to_string(), vec![cohort]);
    assert_eq!(manager.cohort_directories.len(), 1);
}

#[test]
fn defaults_are_empty() {
    let status = StatusDto::default();
    assert!(!status.hpo_loaded && !status.has_error);
    assert_eq!(status.n_hpo_terms, 0);
    let pc = ParentChildDto::default();
    assert!(pc.parents.is_empty() && pc.children.is_empty());
}
