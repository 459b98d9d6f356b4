//! Consolidation of text-mining results for phenotype curation: a concept
//! dictionary with one entry per distinct mined text, the regrouping of
//! per-row texts into mined cells, the reconciliation of cells into exactly
//! one annotation string per row, and the splitting of a narrative into
//! display segments around concept hits.

pub mod concept_dictionary;
pub mod decimal;
pub mod directory_manager;
pub mod hpo;
pub mod hpo_etl;
pub mod hpo_version_checker;
pub mod pmid;
pub mod settings;
pub mod status_dto;
pub mod text_annotation_dto;
pub mod text_to_annotation;
pub mod util;
