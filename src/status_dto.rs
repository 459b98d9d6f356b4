//! A summary of what the application has loaded, for display.

use vstd::prelude::*;

verus! {

#[derive(Debug)]
pub struct StatusDto {
    pub hpo_loaded: bool,
    pub hpo_version: String,
    pub n_hpo_terms: usize,
    pub pt_template_path: String,
    pub pt_template_loaded: bool,
    pub cohort_name: String,
    pub n_phenopackets: usize,
    pub new_cohort: bool,
    pub unsaved_changes: bool,
    pub has_error: bool,
    pub error_message: String,
}

impl Default for StatusDto {
    /// Nothing loaded, nothing pending, no error.
    fn default() -> (r: Self)
        ensures
            !r.hpo_loaded,
            r.hpo_version@.len() == 0,
            r.n_hpo_terms == 0,
            r.pt_template_path@.len() == 0,
            !r.pt_template_loaded,
            r.cohort_name@.len() == 0,
            r.n_phenopackets == 0,
            !r.new_cohort,
            !r.unsaved_changes,
            !r.has_error,
            r.error_message@.len() == 0,
    {
        StatusDto {
            hpo_loaded: false,
            hpo_version: String::new(),
            n_hpo_terms: 0,
            pt_template_path: String::new(),
            pt_template_loaded: false,
            cohort_name: String::new(),
            n_phenopackets: 0,
            new_cohort: false,
            unsaved_changes: false,
            has_error: false,
            error_message: String::new(),
        }
    }
}

} // verus!
