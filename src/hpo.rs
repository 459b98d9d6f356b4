//! Data model of the text-mining pipeline: mined concepts, the terms that
//! curators attach to them, and the per-text cells built from them.

use vstd::prelude::*;

verus! {

/// Curator disposition of a mined concept.
#[derive(Debug, Clone, Copy, PartialEq, Eq, Structural)]
pub enum MiningStatus {
    Pending,
    Confirmed,
    Skipped,
}

/// Whether a phenotype was observed, explicitly excluded, or not assessed.
#[derive(Debug, Clone, Copy, PartialEq, Eq, Structural)]
pub enum ClinicalStatus {
    Observed,
    Excluded,
    NotAssessed,
}

/// The text used for a clinical status in row strings.
pub open spec fn status_text(s: ClinicalStatus) -> Seq<char> {
    match s {
        ClinicalStatus::Observed => seq!['o', 'b', 's', 'e', 'r', 'v', 'e', 'd'],
        ClinicalStatus::Excluded => seq!['e', 'x', 'c', 'l', 'u', 'd', 'e', 'd'],
        ClinicalStatus::NotAssessed => seq!['n', 'a'],
    }
}

impl ClinicalStatus {
    pub fn to_string(&self) -> (r: String)
        ensures
            r@ == status_text(*self),
    {
        match self {
            ClinicalStatus::Observed => {
                proof {
                    reveal_strlit("observed");
                }
                String::from_str("observed")
            },
            ClinicalStatus::Excluded => {
                proof {
                    reveal_strlit("excluded");
                }
                String::from_str("excluded")
            },
            ClinicalStatus::NotAssessed => {
                proof {
                    reveal_strlit("na");
                }
                String::from_str("na")
            },
        }
    }
}

/// A candidate vocabulary term suggested for a piece of mined text.
#[derive(Debug)]
pub struct HpoMatch {
    pub id: String,
    pub label: String,
}

impl Clone for HpoMatch {
    fn clone(&self) -> (r: Self)
        ensures
            r == *self,
    {
        HpoMatch { id: self.id.clone(), label: self.label.clone() }
    }
}

/// One distinct piece of mined text with its candidate terms and the rows
/// (indices into the per-row text vector) where it occurs.
#[derive(Debug)]
pub struct MiningConcept {
    pub original_text: String,
    pub row_index_list: Vec<usize>,
    pub suggested_terms: Vec<HpoMatch>,
    pub mining_status: MiningStatus,
}

/// A resolved vocabulary term attached to a mined cell.
#[derive(Debug)]
pub struct MappedTerm {
    pub hpo_id: String,
    pub hpo_label: String,
    pub status: ClinicalStatus,
    pub onset: String,
}

/// The onset placeholder of freshly mined terms.
pub open spec fn onset_placeholder() -> Seq<char> {
    seq!['n', 'a']
}

impl MappedTerm {
    /// A freshly mined term: observed, with the placeholder onset.
    pub fn new(hpo_id: &str, hpo_label: &str) -> (r: Self)
        ensures
            r.hpo_id@ == hpo_id@,
            r.hpo_label@ == hpo_label@,
            r.status == ClinicalStatus::Observed,
            r.onset@ == onset_placeholder(),
    {
        proof {
            reveal_strlit("na");
        }
        MappedTerm {
            hpo_id: String::from_str(hpo_id),
            hpo_label: String::from_str(hpo_label),
            status: ClinicalStatus::Observed,
            onset: String::from_str("na"),
        }
    }
}

impl Clone for MappedTerm {
    fn clone(&self) -> (r: Self)
        ensures
            r == *self,
    {
        MappedTerm {
            hpo_id: self.hpo_id.clone(),
            hpo_label: self.hpo_label.clone(),
            status: self.status,
            onset: self.onset.clone(),
        }
    }
}

/// All rows that share one text, with the terms mapped to them.
#[derive(Debug)]
pub struct MinedCell {
    pub cell_text: String,
    pub row_index_list: Vec<usize>,
    pub mapped_term_list: Vec<MappedTerm>,
}

/// A copy of a list of term matches.
pub fn clone_matches(v: &Vec<HpoMatch>) -> (r: Vec<HpoMatch>)
    ensures
        r@ == v@,
{
    let mut r: Vec<HpoMatch> = Vec::new();
    let mut i: usize = 0;
    while i < v.len()
        invariant
            i <= v.len(),
            r@ == v@.take(i as int),
        decreases v.len() - i,
    {
        r.push(v[i].clone());
        i = i + 1;
        assert(r@ =~= v@.take(i as int));
    }
    assert(v@.take(v.len() as int) =~= v@);
    r
}

/// A copy of a list of row indices.
pub fn clone_rows(v: &Vec<usize>) -> (r: Vec<usize>)
    ensures
        r@ == v@,
{
    let mut r: Vec<usize> = Vec::new();
    let mut i: usize = 0;
    while i < v.len()
        invariant
            i <= v.len(),
            r@ == v@.take(i as int),
        decreases v.len() - i,
    {
        r.push(v[i]);
        i = i + 1;
        assert(r@ =~= v@.take(i as int));
    }
    assert(v@.take(v.len() as int) =~= v@);
    r
}

} // verus!
